//! Quarter-turn rotations of square matrices.

use vstd::prelude::*;
use crate::grid::{lemma_grid_view, set_cell};

verus! {

/// Every row of `m` has exactly `m.len()` cells.
pub open spec fn is_square(m: Seq<Seq<u8>>) -> bool {
    forall|i: int| 0 <= i < m.len() ==> #[trigger] m[i].len() == m.len()
}

/// Every row of `m` has at least `m.len()` cells.
pub open spec fn rows_cover(m: Seq<Seq<u8>>) -> bool {
    forall|i: int| 0 <= i < m.len() ==> #[trigger] m[i].len() >= m.len()
}

/// `m` with its leading `n` x `n` block transposed, `n` being the number of
/// rows; cells further right stay where they are.
pub open spec fn transposed(m: Seq<Seq<u8>>) -> Seq<Seq<u8>> {
    Seq::new(m.len(), |i: int| Seq::new(m[i].len(), |j: int| if j < m.len() { m[j][i] } else { m[i][j] }))
}

/// `m` turned a quarter clockwise: its leading block transposed, then every
/// row reversed.
pub open spec fn rot90(m: Seq<Seq<u8>>) -> Seq<Seq<u8>> {
    Seq::new(m.len(), |i: int| transposed(m)[i].reverse())
}

/// `m` turned a half turn.
pub open spec fn rot180(m: Seq<Seq<u8>>) -> Seq<Seq<u8>> {
    Seq::new(m.len(), |i: int| m[m.len() - 1 - i].reverse())
}

/// `m` turned a quarter counter-clockwise: its leading block transposed,
/// then the first `n` columns reversed.
pub open spec fn rot270(m: Seq<Seq<u8>>) -> Seq<Seq<u8>> {
    Seq::new(
        m.len(),
        |i: int| Seq::new(m[i].len(), |j: int| if j < m.len() { m[j][m.len() - 1 - i] } else { m[i][j] }),
    )
}

/// Transposes the leading square block of a matrix in place.
fn transpose(matrix: &mut Vec<Vec<u8>>)
    requires
        rows_cover(old(matrix).deep_view()),
    ensures
        final(matrix).deep_view() == transposed(old(matrix).deep_view()),
{
    let ghost m = matrix.deep_view();
    proof {
        lemma_grid_view(matrix);
    }
    let n = matrix.len();
    let mut i: usize = 0;
    while i < n
        invariant
            n == m.len(),
            rows_cover(m),
            i <= n,
            matrix.deep_view().len() == n,
            forall|a: int| 0 <= a < n ==> #[trigger] matrix.deep_view()[a].len() == m[a].len(),
            forall|a: int, b: int| 0 <= a < n && 0 <= b < m[a].len() ==>
                #[trigger] matrix.deep_view()[a][b] == if b < n && (a < i || b < i) { m[b][a] } else { m[a][b] },
        decreases n - i,
    {
        let mut j: usize = i;
        while j < n
            invariant
                n == m.len(),
                rows_cover(m),
                i < n,
                i <= j <= n,
                matrix.deep_view().len() == n,
                forall|a: int| 0 <= a < n ==> #[trigger] matrix.deep_view()[a].len() == m[a].len(),
                forall|a: int, b: int| 0 <= a < n && 0 <= b < m[a].len() ==>
                    #[trigger] matrix.deep_view()[a][b] == if b < n && (a < i || b < i || (a == i && b < j) || (b == i && a < j)) {
                        m[b][a]
                    } else {
                        m[a][b]
                    },
            decreases n - j,
        {
            proof {
                lemma_grid_view(matrix);
                assert(matrix.deep_view()[i as int].len() == m[i as int].len());
                assert(matrix.deep_view()[j as int].len() == m[j as int].len());
            }
            let temp = matrix[i][j];
            let other = matrix[j][i];
            set_cell(matrix, i, j, other);
            proof {
                lemma_grid_view(matrix);
                assert(matrix.deep_view()[j as int].len() == m[j as int].len());
            }
            set_cell(matrix, j, i, temp);
            j = j + 1;
        }
        i = i + 1;
    }
    assert forall|a: int| 0 <= a < n implies #[trigger] matrix.deep_view()[a] =~= transposed(m)[a] by {
        assert forall|b: int| 0 <= b < m[a].len() implies matrix.deep_view()[a][b] == transposed(m)[a][b] by {}
    }
    assert(matrix.deep_view() =~= transposed(m));
}

/// Reverses the order of the cells of every row.
fn reverse_rows(matrix: &mut Vec<Vec<u8>>)
    ensures
        final(matrix).deep_view().len() == old(matrix).deep_view().len(),
        forall|i: int| 0 <= i < old(matrix).deep_view().len() ==>
            #[trigger] final(matrix).deep_view()[i] == old(matrix).deep_view()[i].reverse(),
{
    let ghost m = matrix.deep_view();
    proof {
        lemma_grid_view(matrix);
    }
    let n = matrix.len();
    let mut i: usize = 0;
    while i < n
        invariant
            n == m.len(),
            i <= n,
            matrix@.len() == n,
            forall|a: int| 0 <= a < i ==> #[trigger] matrix@[a]@ == m[a].reverse(),
            forall|a: int| i <= a < n ==> #[trigger] matrix@[a]@ == m[a],
        decreases n - i,
    {
        let len = matrix[i].len();
        let mut row: Vec<u8> = Vec::new();
        let mut k: usize = len;
        while k > 0
            invariant
                i < n,
                matrix@.len() == n,
                k <= len,
                len == matrix@[i as int]@.len(),
                row@ == matrix@[i as int]@.reverse().take((len - k) as int),
            decreases k,
        {
            k = k - 1;
            row.push(matrix[i][k]);
            assert(row@ =~= matrix@[i as int]@.reverse().take((len - k) as int));
        }
        assert(row@ =~= m[i as int].reverse());
        matrix.set(i, row);
        i = i + 1;
    }
    proof {
        lemma_grid_view(matrix);
    }
}

/// Reverses the order of the rows.
fn reverse_row_order(matrix: &mut Vec<Vec<u8>>)
    ensures
        final(matrix).deep_view() == old(matrix).deep_view().reverse(),
{
    let ghost m = matrix.deep_view();
    proof {
        lemma_grid_view(matrix);
    }
    let n = matrix.len();
    let mut out: Vec<Vec<u8>> = Vec::new();
    while matrix.len() > 0
        invariant
            matrix@.len() + out@.len() == n,
            n == m.len(),
            forall|a: int| 0 <= a < matrix@.len() ==> #[trigger] matrix@[a]@ == m[a],
            forall|a: int| 0 <= a < out@.len() ==> #[trigger] out@[a]@ == m[n - 1 - a],
        decreases matrix@.len(),
    {
        let row = matrix.pop().unwrap();
        out.push(row);
    }
    *matrix = out;
    proof {
        lemma_grid_view(matrix);
    }
    assert(matrix.deep_view() =~= m.reverse());
}

/// Reverses the first `n` columns of a matrix of `n` rows.
fn reverse_leading_columns(matrix: &mut Vec<Vec<u8>>)
    requires
        rows_cover(old(matrix).deep_view()),
    ensures
        final(matrix).deep_view().len() == old(matrix).deep_view().len(),
        forall|i: int| 0 <= i < old(matrix).deep_view().len() ==> #[trigger] final(matrix).deep_view()[i] == Seq::new(
            old(matrix).deep_view()[i].len(),
            |j: int| if j < old(matrix).deep_view().len() {
                old(matrix).deep_view()[old(matrix).deep_view().len() - 1 - i][j]
            } else {
                old(matrix).deep_view()[i][j]
            },
        ),
{
    let ghost m = matrix.deep_view();
    proof {
        lemma_grid_view(matrix);
    }
    let n = matrix.len();
    let mut out: Vec<Vec<u8>> = Vec::new();
    let mut i: usize = 0;
    while i < n
        invariant
            n == m.len(),
            m == matrix.deep_view(),
            matrix@.len() == n,
            rows_cover(m),
            forall|a: int| 0 <= a < n ==> #[trigger] m[a] == matrix@[a]@,
            i <= n,
            out@.len() == i,
            forall|a: int| 0 <= a < i ==> #[trigger] out@[a]@ == Seq::new(m[a].len(), |j: int| if j < n { m[n - 1 - a][j] } else { m[a][j] }),
        decreases n - i,
    {
        let len = matrix[i].len();
        let mirror = n - 1 - i;
        assert(m[mirror as int].len() >= n);
        let mut row: Vec<u8> = Vec::new();
        let mut j: usize = 0;
        while j < len
            invariant
                n == m.len(),
                i < n,
                mirror == n - 1 - i,
                matrix@.len() == n,
                forall|a: int| 0 <= a < n ==> #[trigger] m[a] == matrix@[a]@,
                len == m[i as int].len(),
                m[mirror as int].len() >= n,
                j <= len,
                row@ == Seq::new(j as nat, |c: int| if c < n { m[mirror as int][c] } else { m[i as int][c] }),
            decreases len - j,
        {
            assert(m[mirror as int] == matrix@[mirror as int]@);
            assert(m[i as int] == matrix@[i as int]@);
            let v = if j < n { matrix[mirror][j] } else { matrix[i][j] };
            row.push(v);
            j = j + 1;
            assert(row@ =~= Seq::new(j as nat, |c: int| if c < n { m[mirror as int][c] } else { m[i as int][c] }));
        }
        out.push(row);
        i = i + 1;
    }
    *matrix = out;
    proof {
        lemma_grid_view(matrix);
    }
}

/// Turns a matrix a quarter clockwise.
pub fn rotate_90(matrix: &mut Vec<Vec<u8>>)
    requires
        rows_cover(old(matrix).deep_view()),
    ensures
        final(matrix).deep_view() == rot90(old(matrix).deep_view()),
{
    let ghost m = matrix.deep_view();
    transpose(matrix);
    reverse_rows(matrix);
    assert(matrix.deep_view() =~= rot90(m));
}

/// Turns a matrix a half turn.
pub fn rotate_180(matrix: &mut Vec<Vec<u8>>)
    ensures
        final(matrix).deep_view() == rot180(old(matrix).deep_view()),
{
    let ghost m = matrix.deep_view();
    reverse_row_order(matrix);
    reverse_rows(matrix);
    assert(matrix.deep_view() =~= rot180(m));
}

/// Turns a matrix a quarter counter-clockwise.
pub fn rotate_270(matrix: &mut Vec<Vec<u8>>)
    requires
        rows_cover(old(matrix).deep_view()),
    ensures
        final(matrix).deep_view() == rot270(old(matrix).deep_view()),
{
    let ghost m = matrix.deep_view();
    transpose(matrix);
    let ghost t = matrix.deep_view();
    assert(rows_cover(t));
    reverse_leading_columns(matrix);
    assert forall|a: int| 0 <= a < m.len() implies #[trigger] matrix.deep_view()[a] =~= rot270(m)[a] by {}
    assert(matrix.deep_view() =~= rot270(m));
}

/// A quarter turn clockwise undoes a quarter turn counter-clockwise, and
/// the other way round.
pub proof fn lemma_rot90_rot270_inverse(m: Seq<Seq<u8>>)
    requires
        is_square(m),
    ensures
        rot90(rot270(m)) == m,
        rot270(rot90(m)) == m,
{
    assert forall|i: int| 0 <= i < m.len() implies #[trigger] rot90(rot270(m))[i] =~= m[i] by {
        assert(transposed(rot270(m))[i].len() == m.len());
    }
    assert(rot90(rot270(m)) =~= m);
    assert forall|i: int| 0 <= i < m.len() implies #[trigger] rot270(rot90(m))[i] =~= m[i] by {
        assert(rot90(m)[i].len() == m.len());
    }
    assert(rot270(rot90(m)) =~= m);
}

/// Two half turns restore the matrix.
pub proof fn lemma_rot180_involution(m: Seq<Seq<u8>>)
    ensures
        rot180(rot180(m)) == m,
{
    assert forall|i: int| 0 <= i < m.len() implies #[trigger] rot180(rot180(m))[i] =~= m[i] by {}
    assert(rot180(rot180(m)) =~= m);
}

/// Two quarter turns make a half turn, and four make a full turn.
pub proof fn lemma_rot90_twice(m: Seq<Seq<u8>>)
    requires
        is_square(m),
    ensures
        rot90(rot90(m)) == rot180(m),
        rot90(rot90(rot90(rot90(m)))) == m,
{
    assert forall|i: int| 0 <= i < m.len() implies #[trigger] rot90(rot90(m))[i] =~= rot180(m)[i] by {}
    assert(rot90(rot90(m)) =~= rot180(m));
    let r = rot180(m);
    assert(is_square(r));
    assert forall|i: int| 0 <= i < m.len() implies #[trigger] rot90(rot90(r))[i] =~= rot180(r)[i] by {}
    assert(rot90(rot90(r)) =~= rot180(r));
    lemma_rot180_involution(m);
}

} // verus!
