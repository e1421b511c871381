//! Locating a QR code inside a larger bit matrix by its finder patterns.

use vstd::prelude::*;
use crate::encode::finder_cell;
use crate::grid::{lemma_grid_view, new_zero_grid, set_cell, zero_grid};
use crate::matrix::Position;
use crate::rotate::{is_square, rot180, rot270, rot90, rotate_180, rotate_270, rotate_90};

verus! {

/// `m` has at least 7 rows, its first row at least 7 cells, and no row is
/// shorter than the first.
pub open spec fn grid_ok(m: Seq<Seq<u8>>) -> bool {
    &&& m.len() >= 7
    &&& m[0].len() >= 7
    &&& forall|y: int| 0 <= y < m.len() ==> #[trigger] m[y].len() >= m[0].len()
}

/// The 7x7 block of `m` whose top-left cell is `(x, y)` is a finder pattern.
pub open spec fn is_pattern_at(m: Seq<Seq<u8>>, x: int, y: int) -> bool {
    forall|i: int, j: int|
        0 <= i < 7 && 0 <= j < 7 ==> #[trigger] m[x + i][y + j] == if finder_cell(i, j) {
            1u8
        } else {
            0u8
        }
}

/// Finder patterns with top-left cell in row `r` and column below `c`, left to right.
pub open spec fn patterns_in_row(m: Seq<Seq<u8>>, r: int, c: int) -> Seq<Position>
    decreases c,
{
    if c <= 0 {
        Seq::empty()
    } else if is_pattern_at(m, r, c - 1) {
        patterns_in_row(m, r, c - 1).push(Position { col: (c - 1) as u8, row: r as u8 })
    } else {
        patterns_in_row(m, r, c - 1)
    }
}

/// Finder patterns with top-left cell in a row below `r`, in row-major order.
pub open spec fn patterns_upto(m: Seq<Seq<u8>>, r: int) -> Seq<Position>
    decreases r,
{
    if r <= 0 {
        Seq::empty()
    } else {
        patterns_upto(m, r - 1) + patterns_in_row(m, r - 1, m[0].len() - 6)
    }
}

/// All finder patterns of `m`, in row-major order of their top-left cells.
pub open spec fn position_patterns(m: Seq<Seq<u8>>) -> Seq<Position> {
    patterns_upto(m, m.len() - 6)
}

/// Two finder patterns share a row or a column.
pub open spec fn same_line(a: Position, b: Position) -> bool {
    a.col == b.col || a.row == b.row
}

/// Scan of the partners of the `i`-th pattern from index `j` on, up to the
/// length `length` fixed at the start of the pass: `Some(found)`, or `None`
/// where an index leaves the (shrinking) list.
pub open spec fn partner_scan(ps: Seq<Position>, i: int, j: int, length: int) -> Option<bool>
    decreases length - j,
{
    if j >= length {
        Some(false)
    } else if i >= ps.len() || j >= ps.len() {
        None
    } else if same_line(ps[i], ps[j]) {
        Some(true)
    } else {
        partner_scan(ps, i, j + 1, length)
    }
}

/// One pruning pass from index `i` on: each pattern with no later partner
/// on its row or column is removed; `None` where an index leaves the list.
pub open spec fn prune_pass(ps: Seq<Position>, i: int, length: int) -> Option<Seq<Position>>
    decreases length - i,
{
    if i >= length {
        Some(ps)
    } else {
        match partner_scan(ps, i, i + 1, length) {
            None => None,
            Some(true) => prune_pass(ps, i + 1, length),
            Some(false) => if i >= ps.len() {
                None
            } else {
                prune_pass(ps.remove(i), i + 1, length)
            },
        }
    }
}

/// Pruning passes repeated while more than three patterns remain; `None`
/// where a pass fails or removes nothing (the pruning would never end).
pub open spec fn prune(ps: Seq<Position>) -> Option<Seq<Position>>
    decreases ps.len(),
{
    if ps.len() <= 3 {
        Some(ps)
    } else {
        match prune_pass(ps, 0, ps.len() as int) {
            None => None,
            Some(q) => if q.len() >= ps.len() {
                None
            } else {
                prune(q)
            },
        }
    }
}

/// Number of the other two of three patterns that share a line with pattern `i`.
pub open spec fn line_partners(ps: Seq<Position>, i: int) -> int {
    (if i != 0 && same_line(ps[i], ps[0]) { 1int } else { 0int }) + (if i != 1 && same_line(ps[i], ps[1]) { 1int } else { 0int }) + (if i != 2 && same_line(ps[i], ps[2]) { 1int } else { 0int })
}

/// Index of the corner pattern among three: the last one that shares a
/// line with both others, or `None`.
pub open spec fn corner_index(ps: Seq<Position>) -> Option<int> {
    if line_partners(ps, 2) == 2 {
        Some(2)
    } else if line_partners(ps, 1) == 2 {
        Some(1)
    } else if line_partners(ps, 0) == 2 {
        Some(0)
    } else {
        None
    }
}

/// Geometry of the code read off its three finder patterns.
pub struct Layout {
    pub size: int,
    pub start_row: int,
    pub start_col: int,
    pub left: bool,
    pub right: bool,
    pub up: bool,
    pub down: bool,
}

/// Updates the layout with one of the two patterns other than the corner `c`.
pub open spec fn layout_step(l: Layout, p: Position, c: Position) -> Layout {
    if p.row == c.row {
        if p.col > c.col {
            Layout { left: true, size: p.col - c.col + 7, ..l }
        } else {
            Layout { right: true, size: c.col - p.col + 7, start_col: p.col as int, ..l }
        }
    } else if p.row > c.row {
        Layout { up: true, ..l }
    } else {
        Layout { start_row: p.row as int, down: true, ..l }
    }
}

/// Layout from the corner `c` and the two other patterns `rest`.
pub open spec fn layout_of(rest: Seq<Position>, c: Position) -> Layout {
    let l0 = Layout {
        size: 0,
        start_row: c.row as int,
        start_col: c.col as int,
        left: false,
        right: false,
        up: false,
        down: false,
    };
    layout_step(layout_step(l0, rest[0], c), rest[1], c)
}

/// Clockwise angle by which the code was turned, from its layout; `-1` when unknown.
pub open spec fn rotation_of(l: Layout) -> int {
    if l.left && l.up {
        0
    } else if l.left && l.down {
        270
    } else if l.right && l.up {
        90
    } else if l.right && l.down {
        180
    } else {
        -1
    }
}

/// The `size` x `size` block of `m` whose top-left cell is `(r, c)`.
pub open spec fn sub_matrix(m: Seq<Seq<u8>>, r: int, c: int, size: int) -> Seq<Seq<u8>> {
    Seq::new(size as nat, |i: int| Seq::new(size as nat, |j: int| m[r + i][c + j]))
}

/// The corner pattern, and the other two patterns, after pruning.
pub open spec fn corner_and_rest(m: Seq<Seq<u8>>) -> (Position, Seq<Position>) {
    let ps = prune(position_patterns(m)).unwrap();
    match corner_index(ps) {
        Some(k) => (ps[k], ps.remove(k)),
        None => (Position { col: 26, row: 26 }, ps.remove(0)),
    }
}

/// The size computed from pattern `p` on the row of the corner `c` fits in a byte.
pub open spec fn size_fits(p: Position, c: Position) -> bool {
    p.row == c.row ==> (if p.col > c.col { p.col - c.col } else { c.col - p.col }) + 7 <= 255
}

/// `find_qr_code` runs to completion on `m`: the matrix is large enough,
/// the pruning ends with exactly three patterns, and the block it copies
/// lies inside `m` with coordinates that fit in a byte.
pub open spec fn find_qr_code_ok(m: Seq<Seq<u8>>) -> bool {
    &&& grid_ok(m)
    &&& prune(position_patterns(m)) is Some
    &&& prune(position_patterns(m)).unwrap().len() == 3
    &&& ({
        let (c, rest) = corner_and_rest(m);
        let l = layout_of(rest, c);
        c.row != 26 ==> {
            &&& size_fits(rest[0], c)
            &&& size_fits(rest[1], c)
            &&& l.start_row + l.size <= 256
            &&& l.start_col + l.size <= 256
            &&& l.size > 0 ==> l.start_row + l.size <= m.len()
            &&& l.size > 0 ==> l.start_col + l.size <= m[0].len()
        }
    })
}

/// The code found in `m`: the block spanned by the three finder patterns,
/// turned upright; a 21x21 zero matrix when no corner pattern is found.
pub open spec fn spec_find_qr_code(m: Seq<Seq<u8>>) -> Seq<Seq<u8>> {
    let (c, rest) = corner_and_rest(m);
    if c.row == 26 {
        zero_grid(21, 21)
    } else {
        let l = layout_of(rest, c);
        let block = sub_matrix(m, l.start_row, l.start_col, l.size);
        let rot = rotation_of(l);
        if rot == 90 {
            rot270(block)
        } else if rot == 180 {
            rot180(block)
        } else if rot == 270 {
            rot90(block)
        } else {
            block
        }
    }
}

/// Whether the 7x7 block of `matrix` at `(x, y)` is a finder pattern.
pub fn is_position_pattern(x: usize, y: usize, matrix: &Vec<Vec<u8>>) -> (b: bool)
    requires
        x + 7 <= matrix@.len(),
        forall|i: int| x <= i < x + 7 ==> y + 7 <= #[trigger] matrix@[i]@.len(),
    ensures
        b == is_pattern_at(matrix.deep_view(), x as int, y as int),
{
    proof {
        lemma_grid_view(matrix);
    }
    let ghost m = matrix.deep_view();
    let n = matrix.len();
    let mut i: usize = 0;
    while i < 7
        invariant
            m == matrix.deep_view(),
            n == matrix@.len(),
            forall|k: int| 0 <= k < matrix@.len() ==> #[trigger] m[k] == matrix@[k]@,
            x + 7 <= matrix@.len(),
            forall|k: int| x <= k < x + 7 ==> y + 7 <= #[trigger] matrix@[k]@.len(),
            i <= 7,
            forall|a: int, c: int| 0 <= a < i && 0 <= c < 7 ==> #[trigger] m[x + a][y + c] == if finder_cell(a, c) {
                1u8
            } else {
                0u8
            },
        decreases 7 - i,
    {
        let mut j: usize = 0;
        while j < 7
            invariant
                m == matrix.deep_view(),
                n == matrix@.len(),
                forall|k: int| 0 <= k < matrix@.len() ==> #[trigger] m[k] == matrix@[k]@,
                x + 7 <= matrix@.len(),
                forall|k: int| x <= k < x + 7 ==> y + 7 <= #[trigger] matrix@[k]@.len(),
                i < 7,
                j <= 7,
                forall|a: int, c: int| 0 <= a < i && 0 <= c < 7 ==> #[trigger] m[x + a][y + c] == if finder_cell(a, c) {
                    1u8
                } else {
                    0u8
                },
                forall|c: int| 0 <= c < j ==> #[trigger] m[x + i][y + c] == if finder_cell(i as int, c) {
                    1u8
                } else {
                    0u8
                },
            decreases 7 - j,
        {
            assert(y + 7 <= matrix@[(x + i) as int]@.len());
            let xi = x + i;
            let row_len = matrix[xi].len();
            let yj = y + j;
            let cell = matrix[xi][yj];
            assert(cell == m[x + i][y + j]);
            if i == 0 || i == 6 || j == 0 || j == 6 {
                if cell != 1 {
                    return false;
                }
            } else if i == 1 || i == 5 || j == 1 || j == 5 {
                if cell != 0 {
                    return false;
                }
            } else {
                if cell != 1 {
                    return false;
                }
            }
            j = j + 1;
        }
        i = i + 1;
    }
    true
}

/// All finder patterns of `matrix`, in row-major order of their top-left cells.
pub fn find_position_patterns(matrix: &Vec<Vec<u8>>) -> (positions: Vec<Position>)
    requires
        grid_ok(matrix.deep_view()),
    ensures
        positions@ == position_patterns(matrix.deep_view()),
{
    proof {
        lemma_grid_view(matrix);
    }
    let ghost m = matrix.deep_view();
    let mut positions: Vec<Position> = Vec::new();
    let rows = matrix.len() - 6;
    let cols = matrix[0].len() - 6;
    let mut i: usize = 0;
    while i < rows
        invariant
            m == matrix.deep_view(),
            grid_ok(m),
            forall|k: int| 0 <= k < matrix@.len() ==> #[trigger] m[k] == matrix@[k]@,
            rows == m.len() - 6,
            cols == m[0].len() - 6,
            i <= rows,
            positions@ == patterns_upto(m, i as int),
        decreases rows - i,
    {
        let ghost before = positions@;
        let mut j: usize = 0;
        while j < cols
            invariant
                m == matrix.deep_view(),
                grid_ok(m),
                forall|k: int| 0 <= k < matrix@.len() ==> #[trigger] m[k] == matrix@[k]@,
                rows == m.len() - 6,
                cols == m[0].len() - 6,
                i < rows,
                j <= cols,
                positions@ == before + patterns_in_row(m, i as int, j as int),
            decreases cols - j,
        {
            proof {
                assert forall|k: int| i <= k < i + 7 implies j + 7 <= #[trigger] matrix@[k]@.len() by {
                    assert(m[k].len() >= m[0].len());
                }
            }
            if is_position_pattern(i, j, matrix) {
                positions.push(Position { col: j as u8, row: i as u8 });
            }
            j = j + 1;
            assert(positions@ =~= before + patterns_in_row(m, i as int, j as int));
        }
        i = i + 1;
        assert(positions@ =~= patterns_upto(m, i as int));
    }
    positions
}

/// Whether the `i`-th pattern has a partner among those from index `i + 1`
/// up to `length`, following `partner_scan`.
fn has_partner(positions: &Vec<Position>, i: usize, length: usize) -> (r: bool)
    requires
        i < length,
        partner_scan(positions@, i as int, i + 1, length as int) is Some,
    ensures
        r == partner_scan(positions@, i as int, i + 1, length as int).unwrap(),
{
    let ghost ps = positions@;
    let mut j: usize = i + 1;
    while j < length
        invariant
            ps == positions@,
            i < j,
            partner_scan(ps, i as int, i + 1, length as int) == partner_scan(ps, i as int, j as int, length as int),
            partner_scan(ps, i as int, j as int, length as int) is Some,
        decreases length - j,
    {
        if positions[i].col == positions[j].col || positions[i].row == positions[j].row {
            return true;
        }
        j = j + 1;
    }
    false
}

/// Removes finder patterns that share no row or column with a later one,
/// pass after pass, until at most three remain.
fn prune_positions(positions: &mut Vec<Position>)
    requires
        prune(old(positions)@) is Some,
    ensures
        final(positions)@ == prune(old(positions)@).unwrap(),
{
    while positions.len() > 3
        invariant
            prune(positions@) is Some,
            prune(positions@) == prune(old(positions)@),
        decreases positions@.len(),
    {
        let length = positions.len();
        let ghost start = positions@;
        let mut i: usize = 0;
        while i < length
            invariant
                length == start.len(),
                prune_pass(start, 0, length as int) == prune_pass(positions@, i as int, length as int),
                prune_pass(positions@, i as int, length as int) is Some,
                i <= length,
            decreases length - i,
        {
            let to_pop = !has_partner(positions, i, length);
            if to_pop {
                positions.remove(i);
            }
            i = i + 1;
        }
    }
}

/// Counts how many of the other two patterns share a line with pattern `i`.
fn count_line_partners(positions: &Vec<Position>, i: usize) -> (n: u32)
    requires
        positions@.len() == 3,
        i < 3,
    ensures
        n == line_partners(positions@, i as int),
{
    let mut is_center_position: u32 = 0;
    let mut j: usize = 0;
    while j < 3
        invariant
            positions@.len() == 3,
            i < 3,
            j <= 3,
            is_center_position == (if 0 < j && i != 0 && same_line(positions@[i as int], positions@[0]) { 1int } else { 0int })
                + (if 1 < j && i != 1 && same_line(positions@[i as int], positions@[1]) { 1int } else { 0int })
                + (if 2 < j && i != 2 && same_line(positions@[i as int], positions@[2]) { 1int } else { 0int }),
        decreases 3 - j,
    {
        if i != j && (positions[i].col == positions[j].col || positions[i].row == positions[j].row) {
            is_center_position = is_center_position + 1;
        }
        j = j + 1;
    }
    is_center_position
}

/// Copies the `size` x `size` block of `raw` whose top-left cell is `(r, c)`.
fn copy_block(raw: &Vec<Vec<u8>>, r: u8, c: u8, size: u8) -> (block: Vec<Vec<u8>>)
    requires
        size > 0 ==> r + size <= raw@.len(),
        size > 0 ==> forall|k: int| r <= k < r + size ==> c + size <= #[trigger] raw@[k]@.len(),
        r + size <= 256,
        c + size <= 256,
    ensures
        block.deep_view() == sub_matrix(raw.deep_view(), r as int, c as int, size as int),
{
    proof {
        lemma_grid_view(raw);
    }
    let mut res_matrix = new_zero_grid(size as usize, size as usize);
    let mut i: u8 = 0;
    while i < size
        invariant
            size > 0 ==> r + size <= raw@.len(),
            size > 0 ==> forall|k: int| r <= k < r + size ==> c + size <= #[trigger] raw@[k]@.len(),
            r + size <= 256,
            c + size <= 256,
            forall|k: int| 0 <= k < raw@.len() ==> #[trigger] raw.deep_view()[k] == raw@[k]@,
            i <= size,
            res_matrix.deep_view().len() == size,
            forall|a: int| 0 <= a < size ==> #[trigger] res_matrix.deep_view()[a].len() == size,
            forall|a: int, b: int| 0 <= a < i && 0 <= b < size ==> #[trigger] res_matrix.deep_view()[a][b] == raw.deep_view()[r + a][c + b],
        decreases size - i,
    {
        let mut j: u8 = 0;
        while j < size
            invariant
                size > 0 ==> r + size <= raw@.len(),
                size > 0 ==> forall|k: int| r <= k < r + size ==> c + size <= #[trigger] raw@[k]@.len(),
                r + size <= 256,
                c + size <= 256,
                forall|k: int| 0 <= k < raw@.len() ==> #[trigger] raw.deep_view()[k] == raw@[k]@,
                i < size,
                j <= size,
                res_matrix.deep_view().len() == size,
                forall|a: int| 0 <= a < size ==> #[trigger] res_matrix.deep_view()[a].len() == size,
                forall|a: int, b: int| 0 <= a < i && 0 <= b < size ==> #[trigger] res_matrix.deep_view()[a][b] == raw.deep_view()[r + a][c + b],
                forall|b: int| 0 <= b < j ==> #[trigger] res_matrix.deep_view()[i as int][b] == raw.deep_view()[r + i][c + b],
            decreases size - j,
        {
            let rr = (r + i) as usize;
            let cc = (c + j) as usize;
            assert(cc < raw@[rr as int]@.len());
            let v = raw[rr][cc];
            proof {
                lemma_grid_view(&res_matrix);
                assert(res_matrix.deep_view()[i as int].len() == size);
            }
            set_cell(&mut res_matrix, i as usize, j as usize, v);
            j = j + 1;
        }
        i = i + 1;
    }
    assert forall|a: int| 0 <= a < size implies #[trigger] res_matrix.deep_view()[a] =~= sub_matrix(raw.deep_view(), r as int, c as int, size as int)[a] by {}
    assert(res_matrix.deep_view() =~= sub_matrix(raw.deep_view(), r as int, c as int, size as int));
    res_matrix
}

/// Finds the QR code in `raw_qr_code` from its three finder patterns, cuts
/// it out and turns it upright.
pub fn find_qr_code(raw_qr_code: &Vec<Vec<u8>>) -> (qr_code: Vec<Vec<u8>>)
    requires
        find_qr_code_ok(raw_qr_code.deep_view()),
    ensures
        qr_code.deep_view() == spec_find_qr_code(raw_qr_code.deep_view()),
{
    let ghost m = raw_qr_code.deep_view();
    proof {
        lemma_grid_view(raw_qr_code);
    }
    let mut positions = find_position_patterns(raw_qr_code);
    prune_positions(&mut positions);
    let ghost ps = positions@;
    let mut center_position = Position { col: 26, row: 26 };
    let mut pop_index: usize = 0;
    let mut i: usize = 0;
    while i < 3
        invariant
            positions@ == ps,
            ps.len() == 3,
            i <= 3,
            ({
                let found = if i > 2 && line_partners(ps, 2) == 2 {
                    Some(2int)
                } else if i > 1 && line_partners(ps, 1) == 2 {
                    Some(1int)
                } else if i > 0 && line_partners(ps, 0) == 2 {
                    Some(0int)
                } else {
                    None
                };
                match found {
                    Some(k) => center_position == ps[k] && pop_index == k,
                    None => center_position == (Position { col: 26, row: 26 }) && pop_index == 0,
                }
            }),
        decreases 3 - i,
    {
        let is_center_position = count_line_partners(&positions, i);
        if is_center_position == 2 {
            center_position.row = positions[i].row;
            center_position.col = positions[i].col;
            pop_index = i;
        }
        i = i + 1;
    }
    positions.remove(pop_index);
    assert((center_position, positions@) == corner_and_rest(m));
    if center_position.row == 26 {
        return new_zero_grid(21, 21);
    }
    let ghost l0 = Layout {
        size: 0,
        start_row: center_position.row as int,
        start_col: center_position.col as int,
        left: false,
        right: false,
        up: false,
        down: false,
    };
    let mut matrix_size: u8 = 0;
    let mut left = false;
    let mut right = false;
    let mut up = false;
    let mut down = false;
    let mut start_position = Position { col: center_position.col, row: center_position.row };
    let ghost l_final = layout_of(positions@, center_position);
    let mut k: usize = 0;
    while k < 2
        invariant
            positions@.len() == 2,
            k <= 2,
            l_final == layout_of(positions@, center_position),
            size_fits(positions@[0], center_position),
            size_fits(positions@[1], center_position),
            ({
                let l = if k == 0 {
                    l0
                } else if k == 1 {
                    layout_step(l0, positions@[0], center_position)
                } else {
                    layout_step(layout_step(l0, positions@[0], center_position), positions@[1], center_position)
                };
                &&& l.size == matrix_size as int
                &&& l.start_row == start_position.row as int
                &&& l.start_col == start_position.col as int
                &&& l.left == left
                &&& l.right == right
                &&& l.up == up
                &&& l.down == down
            }),
            l0.start_row == center_position.row as int,
            l0.start_col == center_position.col as int,
            l0.size == 0,
            !l0.left && !l0.right && !l0.up && !l0.down,
        decreases 2 - k,
    {
        let position = positions[k];
        assert(size_fits(position, center_position));
        if position.row == center_position.row {
            if position.col > center_position.col {
                left = true;
                assert(position.col - center_position.col + 7 <= 255);
                matrix_size = position.col - center_position.col + 7;
            } else {
                right = true;
                assert(center_position.col - position.col + 7 <= 255);
                matrix_size = center_position.col - position.col + 7;
                start_position.col = position.col;
            }
        } else {
            if position.row > center_position.row {
                up = true;
            } else {
                start_position.row = position.row;
                down = true;
            }
        }
        k = k + 1;
    }
    let rotation: i32 = if left && up {
        0
    } else if left && down {
        270
    } else if right && up {
        90
    } else if right && down {
        180
    } else {
        -1
    };
    proof {
        assert forall|kk: int| start_position.row <= kk < start_position.row + matrix_size implies start_position.col + matrix_size <= #[trigger] raw_qr_code@[kk]@.len() by {
            assert(m[kk].len() >= m[0].len());
        }
    }
    let mut res_matrix = copy_block(raw_qr_code, start_position.row, start_position.col, matrix_size);
    proof {
        assert(is_square(res_matrix.deep_view()));
    }
    if rotation == 90 {
        rotate_270(&mut res_matrix);
    } else if rotation == 180 {
        rotate_180(&mut res_matrix);
    } else if rotation == 270 {
        rotate_90(&mut res_matrix);
    }
    res_matrix
}

/// `partner_scan` of the `i`-th pattern from index `i + 1` on, where the
/// scan may leave the list.
fn partner_checked(positions: &Vec<Position>, i: usize, length: usize) -> (r: Option<bool>)
    ensures
        r == partner_scan(positions@, i as int, i + 1, length as int),
{
    let ghost ps = positions@;
    if i >= length {
        return Some(false);
    }
    let mut j: usize = i + 1;
    while j < length
        invariant
            ps == positions@,
            i < j,
            partner_scan(ps, i as int, i + 1, length as int) == partner_scan(ps, i as int, j as int, length as int),
        decreases length - j,
    {
        if i >= positions.len() || j >= positions.len() {
            return None;
        }
        if positions[i].col == positions[j].col || positions[i].row == positions[j].row {
            return Some(true);
        }
        j = j + 1;
    }
    Some(false)
}

/// The result of `prune`: the patterns that remain, or `None` where the
/// pruning fails or would never end.
fn prune_checked(positions: Vec<Position>) -> (r: Option<Vec<Position>>)
    ensures
        match r {
            Some(q) => prune(positions@) == Some(q@),
            None => prune(positions@) is None,
        },
{
    let ghost orig = positions@;
    let mut ps = positions;
    while ps.len() > 3
        invariant
            orig == positions@,
            prune(ps@) == prune(orig),
        decreases ps@.len(),
    {
        let length = ps.len();
        let ghost start = ps@;
        let mut i: usize = 0;
        while i < length
            invariant
                length == start.len(),
                start.len() > 3,
                orig == positions@,
                prune(start) == prune(orig),
                prune_pass(start, 0, length as int) == prune_pass(ps@, i as int, length as int),
                i <= length,
            decreases length - i,
        {
            match partner_checked(&ps, i, length) {
                None => {
                    assert(prune_pass(ps@, i as int, length as int) is None);
                    assert(prune_pass(start, 0, length as int) is None);
                    assert(prune(start) is None);
                    return None;
                },
                Some(found) => {
                    if !found {
                        if i >= ps.len() {
                            assert(prune_pass(ps@, i as int, length as int) is None);
                            assert(prune(start) is None);
                            return None;
                        }
                        ps.remove(i);
                    }
                },
            }
            i = i + 1;
        }
        assert(prune_pass(ps@, length as int, length as int) == Some(ps@));
        if ps.len() >= length {
            assert(prune(start) is None);
            return None;
        }
        assert(prune(start) == prune(ps@));
    }
    Some(ps)
}

/// Whether `find_qr_code` runs to completion on `raw_qr_code`.
pub fn find_qr_code_would_succeed(raw_qr_code: &Vec<Vec<u8>>) -> (b: bool)
    ensures
        b == find_qr_code_ok(raw_qr_code.deep_view()),
{
    let ghost m = raw_qr_code.deep_view();
    proof {
        lemma_grid_view(raw_qr_code);
    }
    if raw_qr_code.len() < 7 || raw_qr_code[0].len() < 7 {
        return false;
    }
    let width = raw_qr_code[0].len();
    let mut y: usize = 0;
    while y < raw_qr_code.len()
        invariant
            m == raw_qr_code.deep_view(),
            m.len() == raw_qr_code@.len(),
            forall|k: int| 0 <= k < m.len() ==> #[trigger] m[k] == raw_qr_code@[k]@,
            width == m[0].len(),
            y <= m.len(),
            forall|k: int| 0 <= k < y ==> #[trigger] m[k].len() >= width,
        decreases raw_qr_code@.len() - y,
    {
        if raw_qr_code[y].len() < width {
            assert(m[y as int].len() < m[0].len());
            return false;
        }
        y = y + 1;
    }
    assert(grid_ok(m));
    let positions = find_position_patterns(raw_qr_code);
    let ps = match prune_checked(positions) {
        None => {
            return false;
        },
        Some(ps) => ps,
    };
    if ps.len() != 3 {
        return false;
    }
    let n2 = count_line_partners(&ps, 2);
    let n1 = count_line_partners(&ps, 1);
    let n0 = count_line_partners(&ps, 0);
    let k: usize = if n2 == 2 {
        2
    } else if n1 == 2 {
        1
    } else if n0 == 2 {
        0
    } else {
        return true;
    };
    let c = ps[k];
    if c.row == 26 {
        return true;
    }
    let mut rest = ps.clone();
    rest.remove(k);
    assert((c, rest@) == corner_and_rest(m));
    let ghost l = layout_of(rest@, c);
    let cr = c.row as i64;
    let cc = c.col as i64;
    let mut size: i64 = 0;
    let mut start_row: i64 = cr;
    let mut start_col: i64 = cc;
    let mut fits = true;
    let mut t: usize = 0;
    let ghost l0 = Layout { size: 0, start_row: cr as int, start_col: cc as int, left: false, right: false, up: false, down: false };
    while t < 2
        invariant
            rest@.len() == 2,
            t <= 2,
            cr == c.row,
            cc == c.col,
            l == layout_of(rest@, c),
            l0 == (Layout { size: 0, start_row: cr as int, start_col: cc as int, left: false, right: false, up: false, down: false }),
            ({
                let lt = if t == 0 {
                    l0
                } else if t == 1 {
                    layout_step(l0, rest@[0], c)
                } else {
                    layout_step(layout_step(l0, rest@[0], c), rest@[1], c)
                };
                &&& lt.size == size as int
                &&& lt.start_row == start_row as int
                &&& lt.start_col == start_col as int
            }),
            0 <= size <= 262,
            0 <= start_row < 256,
            0 <= start_col < 256,
            fits == ((t > 0 ==> size_fits(rest@[0], c)) && (t > 1 ==> size_fits(rest@[1], c))),
        decreases 2 - t,
    {
        let p = rest[t];
        let pr = p.row as i64;
        let pc = p.col as i64;
        if pr == cr {
            if pc > cc {
                size = pc - cc + 7;
                if pc - cc + 7 > 255 {
                    fits = false;
                }
            } else {
                size = cc - pc + 7;
                start_col = pc;
                if cc - pc + 7 > 255 {
                    fits = false;
                }
            }
        } else if pr < cr {
            start_row = pr;
        }
        t = t + 1;
    }
    assert(fits == (size_fits(rest@[0], c) && size_fits(rest@[1], c)));
    let row_end = (start_row + size) as usize;
    let col_end = (start_col + size) as usize;
    fits && start_row + size <= 256 && start_col + size <= 256 && (size <= 0 || (row_end <= raw_qr_code.len()
        && col_end <= width))
}

/// `k` is an offset into a 7-cell band.
pub open spec fn in_band(k: int) -> bool {
    0 <= k < 7
}

/// Cell `(r, c)` lies on one of the four finder patterns drawn in a
/// `size` x `size` square whose top-left cell is `(sx, sy)`.
pub open spec fn raw_finder_hit(size: int, sx: int, sy: int, r: int, c: int) -> bool {
    let near_r = r - sx;
    let far_r = size - 1 + sx - r;
    let near_c = c - sy;
    let far_c = size - 1 + sy - c;
    ||| in_band(near_r) && in_band(near_c) && finder_cell(near_r, near_c)
    ||| in_band(near_r) && in_band(far_c) && finder_cell(near_r, far_c)
    ||| in_band(far_r) && in_band(near_c) && finder_cell(far_r, near_c)
    ||| in_band(far_r) && in_band(far_c) && finder_cell(far_r, far_c)
}

/// Cell `(r, c)` lies in the 7x7 corner cleared for `rotation`: the bottom
/// right for 0, the bottom left for 90, the top left for 180, the top right
/// for 270; none for any other angle.
pub open spec fn raw_blank(size: int, rotation: u32, sx: int, sy: int, r: int, c: int) -> bool {
    if rotation == 0 {
        in_band(size - 1 + sx - r) && in_band(size - 1 + sy - c)
    } else if rotation == 270 {
        in_band(r - sx) && in_band(size - 1 + sy - c)
    } else if rotation == 90 {
        in_band(size - 1 + sx - r) && in_band(c - sy)
    } else if rotation == 180 {
        in_band(r - sx) && in_band(c - sy)
    } else {
        false
    }
}

/// The 32x32 test grid: four finder patterns at the corners of the square,
/// then one corner cleared according to `rotation`.
pub open spec fn raw_qr_code(size: int, rotation: u32, sx: int, sy: int) -> Seq<Seq<u8>> {
    Seq::new(
        32,
        |r: int|
            Seq::new(
                32,
                |c: int|
                    if raw_blank(size, rotation, sx, sy, r, c) {
                        0u8
                    } else if raw_finder_hit(size, sx, sy, r, c) {
                        1u8
                    } else {
                        0u8
                    },
            ),
    )
}

/// Whether the offset `k` falls in a 7-cell band.
fn in_band_exec(k: i64) -> (b: bool)
    ensures
        b == in_band(k as int),
{
    0 <= k && k < 7
}

/// Whether `(i, j)`, both in a band, is a dark cell of a finder pattern.
fn finder_dark(i: i64, j: i64) -> (b: bool)
    ensures
        b == finder_cell(i as int, j as int),
{
    i == 0 || i == 6 || j == 0 || j == 6 || (2 <= i && i <= 4 && 2 <= j && j <= 4)
}

/// Builds a 32x32 test grid holding a `size` x `size` code outline at
/// `(start_index_x, start_index_y)`: four finder patterns, one of them then
/// cleared to show the turn `rotation` (the bottom-right one for 0, where an
/// upright code has none).
pub fn create_raw_qr_code(size: usize, rotation: u32, start_index_x: usize, start_index_y: usize) -> (qr_code: Vec<Vec<u8>>)
    requires
        7 <= size,
        size + start_index_x <= 32,
        size + start_index_y <= 32,
    ensures
        qr_code.deep_view() == raw_qr_code(size as int, rotation, start_index_x as int, start_index_y as int),
{
    let ghost want = raw_qr_code(size as int, rotation, start_index_x as int, start_index_y as int);
    let n = size as i64;
    let sx = start_index_x as i64;
    let sy = start_index_y as i64;
    let mut qr_code: Vec<Vec<u8>> = Vec::new();
    let mut r: usize = 0;
    while r < 32
        invariant
            r <= 32,
            n == size,
            sx == start_index_x,
            sy == start_index_y,
            size <= 32,
            start_index_x <= 32,
            start_index_y <= 32,
            want == raw_qr_code(size as int, rotation, start_index_x as int, start_index_y as int),
            qr_code@.len() == r,
            forall|k: int| 0 <= k < r ==> #[trigger] qr_code@[k]@ == want[k],
        decreases 32 - r,
    {
        let mut row: Vec<u8> = Vec::new();
        let mut c: usize = 0;
        while c < 32
            invariant
                r < 32,
                c <= 32,
                n == size,
                sx == start_index_x,
                sy == start_index_y,
                size <= 32,
                start_index_x <= 32,
                start_index_y <= 32,
                want == raw_qr_code(size as int, rotation, start_index_x as int, start_index_y as int),
                row@ == want[r as int].take(c as int),
            decreases 32 - c,
        {
            let ri = r as i64;
            let ci = c as i64;
            let near_r = ri - sx;
            let far_r = n - 1 + sx - ri;
            let near_c = ci - sy;
            let far_c = n - 1 + sy - ci;
            let blank = if rotation == 0 {
                in_band_exec(far_r) && in_band_exec(far_c)
            } else if rotation == 270 {
                in_band_exec(near_r) && in_band_exec(far_c)
            } else if rotation == 90 {
                in_band_exec(far_r) && in_band_exec(near_c)
            } else if rotation == 180 {
                in_band_exec(near_r) && in_band_exec(near_c)
            } else {
                false
            };
            let hit = (in_band_exec(near_r) && in_band_exec(near_c) && finder_dark(near_r, near_c))
                || (in_band_exec(near_r) && in_band_exec(far_c) && finder_dark(near_r, far_c))
                || (in_band_exec(far_r) && in_band_exec(near_c) && finder_dark(far_r, near_c))
                || (in_band_exec(far_r) && in_band_exec(far_c) && finder_dark(far_r, far_c));
            let v: u8 = if blank {
                0
            } else if hit {
                1
            } else {
                0
            };
            assert(v == want[r as int][c as int]);
            row.push(v);
            c = c + 1;
            assert(row@ =~= want[r as int].take(c as int));
        }
        assert(row@ =~= want[r as int]);
        qr_code.push(row);
        r = r + 1;
    }
    proof {
        lemma_grid_view(&qr_code);
    }
    assert(qr_code.deep_view() =~= want);
    qr_code
}

} // verus!
