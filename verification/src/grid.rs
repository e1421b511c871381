//! Facts about matrices stored as vectors of rows.

use vstd::prelude::*;

verus! {

/// The deep view of a matrix is the sequence of the rows' views.
pub proof fn lemma_grid_view(m: &Vec<Vec<u8>>)
    ensures
        m.deep_view().len() == m@.len(),
        forall|y: int| 0 <= y < m@.len() ==> #[trigger] m.deep_view()[y] == m@[y]@,
{
    assert forall|y: int| 0 <= y < m@.len() implies #[trigger] m.deep_view()[y] == m@[y]@ by {
        assert(m.deep_view()[y] =~= m@[y]@);
    }
}

/// The deep view of a row is its view.
pub proof fn lemma_row_view(r: &Vec<u8>)
    ensures
        r.deep_view() == r@,
{
    assert(r.deep_view() =~= r@);
}

} // verus!

verus! {

/// A `rows` x `cols` matrix of zeros.
pub open spec fn zero_grid(rows: int, cols: int) -> Seq<Seq<u8>> {
    Seq::new(rows as nat, |r: int| Seq::new(cols as nat, |c: int| 0u8))
}

/// `m` with cell `(y, x)` replaced by `v`.
pub open spec fn set_cell_spec(m: Seq<Seq<u8>>, y: int, x: int, v: u8) -> Seq<Seq<u8>> {
    m.update(y, m[y].update(x, v))
}

/// Builds a `rows` x `cols` matrix of zeros.
pub fn new_zero_grid(rows: usize, cols: usize) -> (m: Vec<Vec<u8>>)
    ensures
        m.deep_view() == zero_grid(rows as int, cols as int),
{
    let mut m: Vec<Vec<u8>> = Vec::new();
    let mut r: usize = 0;
    while r < rows
        invariant
            r <= rows,
            m@.len() == r,
            forall|k: int| 0 <= k < r ==> #[trigger] m@[k]@ == Seq::new(cols as nat, |c: int| 0u8),
        decreases rows - r,
    {
        let mut row: Vec<u8> = Vec::new();
        let mut c: usize = 0;
        while c < cols
            invariant
                c <= cols,
                row@ == Seq::new(c as nat, |i: int| 0u8),
            decreases cols - c,
        {
            row.push(0u8);
            c = c + 1;
            assert(row@ =~= Seq::new(c as nat, |i: int| 0u8));
        }
        m.push(row);
        r = r + 1;
    }
    proof {
        lemma_grid_view(&m);
    }
    assert(m.deep_view() =~= zero_grid(rows as int, cols as int));
    m
}

/// Sets cell `(y, x)` of `m` to `v`.
pub fn set_cell(m: &mut Vec<Vec<u8>>, y: usize, x: usize, v: u8)
    requires
        y < old(m)@.len(),
        x < old(m)@[y as int]@.len(),
    ensures
        final(m).deep_view() == set_cell_spec(old(m).deep_view(), y as int, x as int, v),
{
    proof {
        lemma_grid_view(m);
    }
    let ghost m0 = m.deep_view();
    let mut row = m.remove(y);
    row.set(x, v);
    m.insert(y, row);
    proof {
        lemma_grid_view(m);
    }
    assert(m.deep_view() =~= set_cell_spec(m0, y as int, x as int, v));
}

} // verus!
