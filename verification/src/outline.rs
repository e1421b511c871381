//! What `find_qr_code` makes of a code placed in a 32x32 matrix at a
//! quarter turn: it cuts the code out and undoes the turn. Also what it
//! makes of the test grids drawn by `create_raw_qr_code`.

use vstd::prelude::*;
use crate::encode::finder_cell;
use crate::find::{
    corner_and_rest, corner_index, find_qr_code_ok, in_band, is_pattern_at, layout_of, partner_scan,
    patterns_in_row, patterns_upto, position_patterns, prune, prune_pass, raw_blank, raw_qr_code,
    rotation_of, spec_find_qr_code, sub_matrix,
};
use crate::matrix::Position;
use crate::rotate::{is_square, lemma_rot180_involution, lemma_rot90_rot270_inverse, rot180, rot270, rot90};

verus! {

/// The grid shape the facts below are stated for: a square of side at
/// least 14 (so that its four corner boxes do not overlap) inside the
/// 32x32 grid.
pub open spec fn placement_ok(size: int, sx: int, sy: int) -> bool {
    &&& 14 <= size
    &&& 0 <= sx
    &&& 0 <= sy
    &&& sx + size <= 32
    &&& sy + size <= 32
}

/// One cell of a finder pattern found at `(x, y)`.
proof fn lemma_pattern_cell(m: Seq<Seq<u8>>, x: int, y: int, i: int, j: int)
    requires
        is_pattern_at(m, x, y),
        0 <= i < 7,
        0 <= j < 7,
    ensures
        m[x + i][y + j] == if finder_cell(i, j) {
            1u8
        } else {
            0u8
        },
{
}

/// A lit cell of a test grid lies in a band of rows and a band of columns
/// of the square's corner boxes.
proof fn lemma_lit_cell_in_boxes(size: int, rotation: u32, sx: int, sy: int, r: int, c: int)
    requires
        0 <= r < 32,
        0 <= c < 32,
        raw_qr_code(size, rotation, sx, sy)[r][c] == 1,
    ensures
        in_band(r - sx) || in_band(size - 1 + sx - r),
        in_band(c - sy) || in_band(size - 1 + sy - c),
{
}

/// Side 14, columns: the two column bands touch, and a pattern starting
/// inside the left band meets a light cell of a box, or a lit one where the
/// pattern needs light.
proof fn lemma_touching_columns(rotation: u32, sx: int, sy: int, x: int, y: int)
    requires
        placement_ok(14, sx, sy),
        0 <= x <= 25,
        0 <= y <= 25,
        is_pattern_at(raw_qr_code(14, rotation, sx, sy), x, y),
    ensures
        y == sy || y == sy + 7,
{
    let m = raw_qr_code(14, rotation, sx, sy);
    if y != sy && y != sy + 7 {
        if y < sy {
            lemma_pattern_cell(m, x, y, 0, 0);
        } else if y > sy + 7 {
            lemma_pattern_cell(m, x, y, 0, 6);
        } else {
            lemma_pattern_cell(m, x, y, 0, 0);
            lemma_pattern_cell(m, x, y, 6, 0);
            assert(sx <= x <= sx + 7);
            if y < sy + 6 {
                let i: int = if x <= sx + 1 {
                    sx + 1 - x
                } else {
                    sx + 8 - x
                };
                lemma_pattern_cell(m, x, y, i, 0);
            } else {
                lemma_pattern_cell(m, x, y, 0, 2);
                lemma_pattern_cell(m, x, y, 0, 1);
                lemma_pattern_cell(m, x, y, 1, 1);
                lemma_pattern_cell(m, x, y, 6, 6);
            }
        }
    }
}

/// Side 14, rows: the same argument with rows and columns exchanged.
proof fn lemma_touching_rows(rotation: u32, sx: int, sy: int, x: int, y: int)
    requires
        placement_ok(14, sx, sy),
        0 <= x <= 25,
        0 <= y <= 25,
        is_pattern_at(raw_qr_code(14, rotation, sx, sy), x, y),
    ensures
        x == sx || x == sx + 7,
{
    let m = raw_qr_code(14, rotation, sx, sy);
    if x != sx && x != sx + 7 {
        if x < sx {
            lemma_pattern_cell(m, x, y, 0, 0);
        } else if x > sx + 7 {
            lemma_pattern_cell(m, x, y, 6, 0);
        } else {
            lemma_pattern_cell(m, x, y, 0, 0);
            lemma_pattern_cell(m, x, y, 0, 6);
            assert(sy <= y <= sy + 7);
            if x < sx + 6 {
                let j: int = if y <= sy + 1 {
                    sy + 1 - y
                } else {
                    sy + 8 - y
                };
                lemma_pattern_cell(m, x, y, 0, j);
            } else {
                lemma_pattern_cell(m, x, y, 2, 0);
                lemma_pattern_cell(m, x, y, 1, 0);
                lemma_pattern_cell(m, x, y, 1, 1);
                lemma_pattern_cell(m, x, y, 6, 6);
            }
        }
    }
}

/// In a test grid, finder patterns only start at the top-left cells of the
/// square's four corner boxes.
pub proof fn lemma_patterns_only_at_corners(size: int, rotation: u32, sx: int, sy: int, x: int, y: int)
    requires
        placement_ok(size, sx, sy),
        0 <= x <= 25,
        0 <= y <= 25,
        is_pattern_at(raw_qr_code(size, rotation, sx, sy), x, y),
    ensures
        x == sx || x == sx + size - 7,
        y == sy || y == sy + size - 7,
{
    let m = raw_qr_code(size, rotation, sx, sy);
    if size == 14 {
        lemma_touching_columns(rotation, sx, sy, x, y);
        lemma_touching_rows(rotation, sx, sy, x, y);
    } else {
        if y != sy && y != sy + size - 7 {
            let j: int = if sy < y < sy + 7 {
                sy + 7 - y
            } else if sy + size - 7 < y {
                6
            } else {
                0
            };
            lemma_pattern_cell(m, x, y, 0, j);
            lemma_lit_cell_in_boxes(size, rotation, sx, sy, x, y + j);
        }
        if x != sx && x != sx + size - 7 {
            let i: int = if sx < x < sx + 7 {
                sx + 7 - x
            } else if sx + size - 7 < x {
                6
            } else {
                0
            };
            lemma_pattern_cell(m, x, y, i, 0);
            lemma_lit_cell_in_boxes(size, rotation, sx, sy, x + i, y);
        }
    }
}

/// At the top-left cell of a corner box, a test grid shows a finder
/// pattern exactly when that box was not cleared.
pub proof fn lemma_corner_pattern(size: int, rotation: u32, sx: int, sy: int, x: int, y: int)
    requires
        placement_ok(size, sx, sy),
        x == sx || x == sx + size - 7,
        y == sy || y == sy + size - 7,
    ensures
        is_pattern_at(raw_qr_code(size, rotation, sx, sy), x, y) == !raw_blank(size, rotation, sx, sy, x, y),
{
    let m = raw_qr_code(size, rotation, sx, sy);
    if raw_blank(size, rotation, sx, sy, x, y) {
        if is_pattern_at(m, x, y) {
            lemma_pattern_cell(m, x, y, 0, 0);
        }
    } else {
        assert forall|i: int, j: int| 0 <= i < 7 && 0 <= j < 7 implies #[trigger] m[x + i][y + j] == if finder_cell(i, j) {
            1u8
        } else {
            0u8
        } by {
            assert(!raw_blank(size, rotation, sx, sy, x + i, y + j));
        }
    }
}

/// `seq![p]` when `found`, else the empty sequence.
pub open spec fn if_found(found: bool, p: Position) -> Seq<Position> {
    if found {
        seq![p]
    } else {
        Seq::empty()
    }
}

/// The position of a pattern whose top-left cell is `(x, y)`.
pub open spec fn at(x: int, y: int) -> Position {
    Position { col: y as u8, row: x as u8 }
}

/// A row whose finder patterns can only start in columns `a` and `b`.
proof fn lemma_row_two(m: Seq<Seq<u8>>, r: int, a: int, b: int, c: int)
    requires
        0 <= a < b,
        forall|y: int| 0 <= y < c && #[trigger] is_pattern_at(m, r, y) ==> y == a || y == b,
    ensures
        patterns_in_row(m, r, c) == if_found(a < c && is_pattern_at(m, r, a), at(r, a)) + if_found(
            b < c && is_pattern_at(m, r, b),
            at(r, b),
        ),
    decreases c,
{
    if c > 0 {
        lemma_row_two(m, r, a, b, c - 1);
        if c - 1 == a || c - 1 == b {
            assert(patterns_in_row(m, r, c) =~= if_found(a < c && is_pattern_at(m, r, a), at(r, a)) + if_found(
                b < c && is_pattern_at(m, r, b),
                at(r, b),
            ));
        } else {
            assert(!is_pattern_at(m, r, c - 1));
        }
    }
}

/// Rows whose finder patterns can only lie in rows `a` and `b`.
proof fn lemma_upto_two(m: Seq<Seq<u8>>, a: int, b: int, r: int)
    requires
        0 <= a < b,
        forall|x: int|
            0 <= x < r && x != a && x != b ==> #[trigger] patterns_in_row(m, x, m[0].len() - 6)
                == Seq::<Position>::empty(),
    ensures
        patterns_upto(m, r) == (if a < r {
            patterns_in_row(m, a, m[0].len() - 6)
        } else {
            Seq::empty()
        }) + (if b < r {
            patterns_in_row(m, b, m[0].len() - 6)
        } else {
            Seq::empty()
        }),
    decreases r,
{
    if r > 0 {
        lemma_upto_two(m, a, b, r - 1);
        if r - 1 != a && r - 1 != b {
            assert(patterns_in_row(m, r - 1, m[0].len() - 6) == Seq::<Position>::empty());
        }
        assert(patterns_upto(m, r) =~= (if a < r {
            patterns_in_row(m, a, m[0].len() - 6)
        } else {
            Seq::empty()
        }) + (if b < r {
            patterns_in_row(m, b, m[0].len() - 6)
        } else {
            Seq::empty()
        }));
    }
}

/// The finder patterns of a test grid: the corner boxes that were not
/// cleared, in the order top left, top right, bottom left, bottom right.
pub proof fn lemma_raw_position_patterns(size: int, rotation: u32, sx: int, sy: int)
    requires
        placement_ok(size, sx, sy),
    ensures
        ({
            let far_x = sx + size - 7;
            let far_y = sy + size - 7;
            position_patterns(raw_qr_code(size, rotation, sx, sy)) == if_found(
                !raw_blank(size, rotation, sx, sy, sx, sy),
                at(sx, sy),
            ) + if_found(!raw_blank(size, rotation, sx, sy, sx, far_y), at(sx, far_y)) + if_found(
                !raw_blank(size, rotation, sx, sy, far_x, sy),
                at(far_x, sy),
            ) + if_found(!raw_blank(size, rotation, sx, sy, far_x, far_y), at(far_x, far_y))
        }),
{
    let m = raw_qr_code(size, rotation, sx, sy);
    let far_x = sx + size - 7;
    let far_y = sy + size - 7;
    assert(m.len() == 32);
    assert(m[0].len() == 32);
    assert forall|x: int| 0 <= x < 26 implies #[trigger] patterns_in_row(m, x, 26) == if_found(
        is_pattern_at(m, x, sy),
        at(x, sy),
    ) + if_found(is_pattern_at(m, x, far_y), at(x, far_y)) by {
        assert forall|y: int| 0 <= y < 26 && #[trigger] is_pattern_at(m, x, y) implies y == sy || y == far_y by {
            lemma_patterns_only_at_corners(size, rotation, sx, sy, x, y);
        }
        lemma_row_two(m, x, sy, far_y, 26);
    }
    assert forall|x: int| 0 <= x < 26 && x != sx && x != far_x implies #[trigger] patterns_in_row(m, x, m[0].len() - 6)
        == Seq::<Position>::empty() by {
        if is_pattern_at(m, x, sy) {
            lemma_patterns_only_at_corners(size, rotation, sx, sy, x, sy);
        }
        if is_pattern_at(m, x, far_y) {
            lemma_patterns_only_at_corners(size, rotation, sx, sy, x, far_y);
        }
        assert(patterns_in_row(m, x, 26) =~= Seq::<Position>::empty());
    }
    lemma_upto_two(m, sx, far_x, 26);
    lemma_corner_pattern(size, rotation, sx, sy, sx, sy);
    lemma_corner_pattern(size, rotation, sx, sy, sx, far_y);
    lemma_corner_pattern(size, rotation, sx, sy, far_x, sy);
    lemma_corner_pattern(size, rotation, sx, sy, far_x, far_y);
    assert(patterns_in_row(m, sx, 26) == if_found(is_pattern_at(m, sx, sy), at(sx, sy)) + if_found(
        is_pattern_at(m, sx, far_y),
        at(sx, far_y),
    ));
    assert(patterns_in_row(m, far_x, 26) == if_found(is_pattern_at(m, far_x, sy), at(far_x, sy)) + if_found(
        is_pattern_at(m, far_x, far_y),
        at(far_x, far_y),
    ));
    assert(position_patterns(m) == patterns_upto(m, 26));
    assert(position_patterns(m) =~= if_found(!raw_blank(size, rotation, sx, sy, sx, sy), at(sx, sy)) + if_found(
        !raw_blank(size, rotation, sx, sy, sx, far_y),
        at(sx, far_y),
    ) + if_found(!raw_blank(size, rotation, sx, sy, far_x, sy), at(far_x, sy)) + if_found(
        !raw_blank(size, rotation, sx, sy, far_x, far_y),
        at(far_x, far_y),
    ));
}

/// Cell `(r, c)` of an upright code of side `size` is dark in its outline:
/// it lies on the finder pattern of the top-left, top-right or bottom-left
/// corner.
pub open spec fn outline_dark(size: int, r: int, c: int) -> bool {
    ||| in_band(r) && in_band(c) && finder_cell(r, c)
    ||| in_band(r) && in_band(size - 1 - c) && finder_cell(r, size - 1 - c)
    ||| in_band(size - 1 - r) && in_band(c) && finder_cell(size - 1 - r, c)
}

/// The outline of an upright code of side `size`: its three finder
/// patterns, every other cell light.
pub open spec fn upright_outline(size: int) -> Seq<Seq<u8>> {
    Seq::new(
        size as nat,
        |r: int| Seq::new(size as nat, |c: int| if outline_dark(size, r, c) {
            1u8
        } else {
            0u8
        }),
    )
}

/// A grid drawn with the bottom-right box cleared (the angle 0): the code
/// is cut out as it stands.
proof fn lemma_found_bottom_right_cleared(size: int, sx: int, sy: int)
    requires
        placement_ok(size, sx, sy),
    ensures
        find_qr_code_ok(raw_qr_code(size, 0, sx, sy)),
        spec_find_qr_code(raw_qr_code(size, 0, sx, sy)) == upright_outline(size),
{
    let m = raw_qr_code(size, 0, sx, sy);
    let far_x = sx + size - 7;
    let far_y = sy + size - 7;
    lemma_raw_position_patterns(size, 0, sx, sy);
    let ps = position_patterns(m);
    assert(ps =~= seq![at(sx, sy), at(sx, far_y), at(far_x, sy)]);
    assert(prune(ps) == Some(ps));
    assert(corner_index(ps) == Some(0int));
    assert(ps.remove(0) =~= seq![at(sx, far_y), at(far_x, sy)]);
    let (c, rest) = corner_and_rest(m);
    assert(c == at(sx, sy));
    let l = layout_of(rest, c);
    assert(l.start_row == sx && l.start_col == sy && l.size == size);
    assert(rotation_of(l) == 0);
    let found = spec_find_qr_code(m);
    assert(found == sub_matrix(m, sx, sy, size));
    let want = upright_outline(size);
    assert forall|i: int| 0 <= i < size implies #[trigger] found[i] =~= want[i] by {
        assert forall|j: int| 0 <= j < size implies #[trigger] found[i][j] == want[i][j] by {
            assert(found[i][j] == m[sx + i][sy + j]);
        }
    }
    assert(found =~= want);
}

/// A grid drawn with the top-right box cleared (the angle 270).
proof fn lemma_found_top_right_cleared(size: int, sx: int, sy: int)
    requires
        placement_ok(size, sx, sy),
    ensures
        find_qr_code_ok(raw_qr_code(size, 270, sx, sy)),
        spec_find_qr_code(raw_qr_code(size, 270, sx, sy)) == upright_outline(size),
{
    let rotation: u32 = 270;
    let m = raw_qr_code(size, rotation, sx, sy);
    let far_x = sx + size - 7;
    let far_y = sy + size - 7;
    lemma_raw_position_patterns(size, rotation, sx, sy);
    let ps = position_patterns(m);
    assert(ps =~= seq![at(sx, sy), at(far_x, sy), at(far_x, far_y)]);
    assert(prune(ps) == Some(ps));
    assert(corner_index(ps) == Some(1int));
    assert(ps.remove(1) =~= seq![at(sx, sy), at(far_x, far_y)]);
    let (c, rest) = corner_and_rest(m);
    assert(c == at(far_x, sy));
    let l = layout_of(rest, c);
    assert(l.start_row == sx && l.start_col == sy && l.size == size);
    assert(rotation_of(l) == 270);
    let block = sub_matrix(m, sx, sy, size);
    let found = spec_find_qr_code(m);
    assert(found == rot90(block));
    let want = upright_outline(size);
    assert forall|i: int| 0 <= i < size implies #[trigger] found[i] =~= want[i] by {
        assert forall|j: int| 0 <= j < size implies #[trigger] found[i][j] == want[i][j] by {
            assert(found[i][j] == m[sx + size - 1 - j][sy + i]);
        }
    }
    assert(found =~= want);
}

/// A grid drawn with the bottom-left box cleared (the angle 90).
proof fn lemma_found_bottom_left_cleared(size: int, sx: int, sy: int)
    requires
        placement_ok(size, sx, sy),
    ensures
        find_qr_code_ok(raw_qr_code(size, 90, sx, sy)),
        spec_find_qr_code(raw_qr_code(size, 90, sx, sy)) == upright_outline(size),
{
    let m = raw_qr_code(size, 90, sx, sy);
    let far_x = sx + size - 7;
    let far_y = sy + size - 7;
    lemma_raw_position_patterns(size, 90, sx, sy);
    let ps = position_patterns(m);
    assert(ps =~= seq![at(sx, sy), at(sx, far_y), at(far_x, far_y)]);
    assert(prune(ps) == Some(ps));
    assert(corner_index(ps) == Some(1int));
    assert(ps.remove(1) =~= seq![at(sx, sy), at(far_x, far_y)]);
    let (c, rest) = corner_and_rest(m);
    assert(c == at(sx, far_y));
    let l = layout_of(rest, c);
    assert(l.start_row == sx && l.start_col == sy && l.size == size);
    assert(rotation_of(l) == 90);
    let block = sub_matrix(m, sx, sy, size);
    let found = spec_find_qr_code(m);
    assert(found == rot270(block));
    let want = upright_outline(size);
    assert forall|i: int| 0 <= i < size implies #[trigger] found[i] =~= want[i] by {
        assert forall|j: int| 0 <= j < size implies #[trigger] found[i][j] == want[i][j] by {
            assert(found[i][j] == m[sx + j][sy + size - 1 - i]);
        }
    }
    assert(found =~= want);
}

/// A grid drawn with the top-left box cleared (the angle 180).
proof fn lemma_found_top_left_cleared(size: int, sx: int, sy: int)
    requires
        placement_ok(size, sx, sy),
    ensures
        find_qr_code_ok(raw_qr_code(size, 180, sx, sy)),
        spec_find_qr_code(raw_qr_code(size, 180, sx, sy)) == upright_outline(size),
{
    let m = raw_qr_code(size, 180, sx, sy);
    let far_x = sx + size - 7;
    let far_y = sy + size - 7;
    lemma_raw_position_patterns(size, 180, sx, sy);
    let ps = position_patterns(m);
    assert(ps =~= seq![at(sx, far_y), at(far_x, sy), at(far_x, far_y)]);
    assert(prune(ps) == Some(ps));
    assert(corner_index(ps) == Some(2int));
    assert(ps.remove(2) =~= seq![at(sx, far_y), at(far_x, sy)]);
    let (c, rest) = corner_and_rest(m);
    assert(c == at(far_x, far_y));
    let l = layout_of(rest, c);
    assert(l.start_row == sx && l.start_col == sy && l.size == size);
    assert(rotation_of(l) == 180);
    let block = sub_matrix(m, sx, sy, size);
    let found = spec_find_qr_code(m);
    assert(found == rot180(block));
    let want = upright_outline(size);
    assert forall|i: int| 0 <= i < size implies #[trigger] found[i] =~= want[i] by {
        assert forall|j: int| 0 <= j < size implies #[trigger] found[i][j] == want[i][j] by {
            assert(found[i][j] == m[sx + size - 1 - i][sy + size - 1 - j]);
        }
    }
    assert(found =~= want);
}

/// A code drawn turned by a quarter, half or three-quarter turn (or not at
/// all) is located by `find_qr_code` and comes out upright: the square of
/// side `size`, with its finder patterns in the top-left, top-right and
/// bottom-left corners.
pub proof fn lemma_find_turns_drawn_code_upright(size: int, rotation: u32, sx: int, sy: int)
    requires
        placement_ok(size, sx, sy),
        rotation == 0 || rotation == 90 || rotation == 180 || rotation == 270,
    ensures
        find_qr_code_ok(raw_qr_code(size, rotation, sx, sy)),
        spec_find_qr_code(raw_qr_code(size, rotation, sx, sy)) == upright_outline(size),
{
    if rotation == 0 {
        lemma_found_bottom_right_cleared(size, sx, sy);
    } else if rotation == 90 {
        lemma_found_bottom_left_cleared(size, sx, sy);
    } else if rotation == 180 {
        lemma_found_top_left_cleared(size, sx, sy);
    } else {
        lemma_found_top_right_cleared(size, sx, sy);
    }
}

/// Cell `(r, c)` of a square of side `size` lies on one of the finder
/// patterns in its four corners.
pub open spec fn four_corners_dark(size: int, r: int, c: int) -> bool {
    ||| outline_dark(size, r, c)
    ||| in_band(size - 1 - r) && in_band(size - 1 - c) && finder_cell(size - 1 - r, size - 1 - c)
}

/// A square of side `size` with a finder pattern in each corner, every
/// other cell light.
pub open spec fn four_corners_outline(size: int) -> Seq<Seq<u8>> {
    Seq::new(
        size as nat,
        |r: int| Seq::new(size as nat, |c: int| if four_corners_dark(size, r, c) {
            1u8
        } else {
            0u8
        }),
    )
}

/// Drawn at any angle but the four quarter turns, no corner box is cleared:
/// `find_qr_code` drops the bottom-right pattern, which has no partner after
/// it, and cuts out the square unturned, all four patterns included.
pub proof fn lemma_find_keeps_unturned_square(size: int, rotation: u32, sx: int, sy: int)
    requires
        placement_ok(size, sx, sy),
        rotation != 0 && rotation != 90 && rotation != 180 && rotation != 270,
    ensures
        find_qr_code_ok(raw_qr_code(size, rotation, sx, sy)),
        spec_find_qr_code(raw_qr_code(size, rotation, sx, sy)) == four_corners_outline(size),
{
    let m = raw_qr_code(size, rotation, sx, sy);
    let far_x = sx + size - 7;
    let far_y = sy + size - 7;
    lemma_raw_position_patterns(size, rotation, sx, sy);
    let ps = position_patterns(m);
    assert(ps =~= seq![at(sx, sy), at(sx, far_y), at(far_x, sy), at(far_x, far_y)]);
    let kept = ps.remove(3);
    assert(kept =~= seq![at(sx, sy), at(sx, far_y), at(far_x, sy)]);
    assert(partner_scan(ps, 3, 4, 4) == Some(false));
    assert(prune_pass(kept, 4, 4) == Some(kept));
    assert(prune_pass(ps, 3, 4) == Some(kept));
    assert(partner_scan(ps, 2, 3, 4) == Some(true));
    assert(prune_pass(ps, 2, 4) == Some(kept));
    assert(partner_scan(ps, 1, 3, 4) == Some(true));
    assert(partner_scan(ps, 1, 2, 4) == Some(true));
    assert(prune_pass(ps, 1, 4) == Some(kept));
    assert(partner_scan(ps, 0, 1, 4) == Some(true));
    assert(prune_pass(ps, 0, 4) == Some(kept));
    assert(prune(kept) == Some(kept));
    assert(prune(ps) == Some(kept));
    assert(corner_index(kept) == Some(0int));
    assert(kept.remove(0) =~= seq![at(sx, far_y), at(far_x, sy)]);
    let (c, rest) = corner_and_rest(m);
    assert(c == at(sx, sy));
    let l = layout_of(rest, c);
    assert(l.start_row == sx && l.start_col == sy && l.size == size);
    assert(rotation_of(l) == 0);
    let found = spec_find_qr_code(m);
    assert(found == sub_matrix(m, sx, sy, size));
    let want = four_corners_outline(size);
    assert forall|i: int| 0 <= i < size implies #[trigger] found[i] =~= want[i] by {
        assert forall|j: int| 0 <= j < size implies #[trigger] found[i][j] == want[i][j] by {
            assert(found[i][j] == m[sx + i][sy + j]);
        }
    }
    assert(found =~= want);
}

/// `q` turned clockwise by `k` quarter turns (`k` from 0 to 3).
pub open spec fn turned(q: Seq<Seq<u8>>, k: int) -> Seq<Seq<u8>> {
    if k == 1 {
        rot90(q)
    } else if k == 2 {
        rot180(q)
    } else if k == 3 {
        rot270(q)
    } else {
        q
    }
}

/// `m` holds `q` turned by `k` quarter turns in the block whose top-left
/// cell is `(r, c)`.
pub open spec fn holds_turned(m: Seq<Seq<u8>>, q: Seq<Seq<u8>>, k: int, r: int, c: int) -> bool {
    forall|i: int, j: int| 0 <= i < q.len() && 0 <= j < q.len() ==> #[trigger] m[r + i][c + j] == turned(q, k)[i][j]
}

/// The top-left cells of the three finder patterns of an upright code of
/// side `n` once turned by `k` quarter turns and placed at `(r, c)`, in
/// row-major order.
pub open spec fn turned_corners(n: int, r: int, c: int, k: int) -> Seq<Position> {
    let f = r + n - 7;
    let g = c + n - 7;
    if k == 1 {
        seq![at(r, c), at(r, g), at(f, g)]
    } else if k == 2 {
        seq![at(r, g), at(f, c), at(f, g)]
    } else if k == 3 {
        seq![at(r, c), at(f, c), at(f, g)]
    } else {
        seq![at(r, c), at(r, g), at(f, c)]
    }
}

/// The block that holds the turned code is the turned code.
proof fn lemma_block_is_turned(m: Seq<Seq<u8>>, q: Seq<Seq<u8>>, k: int, r: int, c: int)
    requires
        is_square(q),
        holds_turned(m, q, k, r, c),
    ensures
        sub_matrix(m, r, c, q.len() as int) == turned(q, k),
{
    let n = q.len() as int;
    let t = turned(q, k);
    let b = sub_matrix(m, r, c, n);
    assert forall|i: int| 0 <= i < n implies #[trigger] b[i] =~= t[i] by {
        assert(t[i].len() == n);
        assert forall|j: int| 0 <= j < n implies #[trigger] b[i][j] == t[i][j] by {
            assert(m[r + i][c + j] == t[i][j]);
        }
    }
    assert(b =~= t);
}

/// A 32x32 matrix that holds an upright code `q` (side at least 8), turned
/// clockwise by `k` quarter turns and placed at `(r, c)`, and whose only
/// finder patterns are the three of that code: `find_qr_code` cuts the code
/// out and undoes the turn, giving back `q`.
pub proof fn lemma_find_undoes_the_turn(m: Seq<Seq<u8>>, q: Seq<Seq<u8>>, k: int, r: int, c: int)
    requires
        m.len() == 32,
        forall|y: int| 0 <= y < 32 ==> #[trigger] m[y].len() == 32,
        is_square(q),
        8 <= q.len(),
        0 <= r,
        0 <= c,
        r + q.len() <= 32,
        c + q.len() <= 32,
        0 <= k < 4,
        holds_turned(m, q, k, r, c),
        position_patterns(m) == turned_corners(q.len() as int, r, c, k),
    ensures
        find_qr_code_ok(m),
        spec_find_qr_code(m) == q,
{
    let n = q.len() as int;
    let f = r + n - 7;
    let g = c + n - 7;
    let ps = position_patterns(m);
    lemma_block_is_turned(m, q, k, r, c);
    assert(prune(ps) == Some(ps));
    let (cn, rest) = corner_and_rest(m);
    if k == 1 {
        assert(corner_index(ps) == Some(1int));
        assert(ps.remove(1) =~= seq![at(r, c), at(f, g)]);
        assert(cn == at(r, g));
        let l = layout_of(rest, cn);
        assert(l.start_row == r && l.start_col == c && l.size == n);
        assert(rotation_of(l) == 90);
        lemma_rot90_rot270_inverse(q);
    } else if k == 2 {
        assert(corner_index(ps) == Some(2int));
        assert(ps.remove(2) =~= seq![at(r, g), at(f, c)]);
        assert(cn == at(f, g));
        let l = layout_of(rest, cn);
        assert(l.start_row == r && l.start_col == c && l.size == n);
        assert(rotation_of(l) == 180);
        lemma_rot180_involution(q);
    } else if k == 3 {
        assert(corner_index(ps) == Some(1int));
        assert(ps.remove(1) =~= seq![at(r, c), at(f, g)]);
        assert(cn == at(f, c));
        let l = layout_of(rest, cn);
        assert(l.start_row == r && l.start_col == c && l.size == n);
        assert(rotation_of(l) == 270);
        lemma_rot90_rot270_inverse(q);
    } else {
        assert(corner_index(ps) == Some(0int));
        assert(ps.remove(0) =~= seq![at(r, g), at(f, c)]);
        assert(cn == at(r, c));
        let l = layout_of(rest, cn);
        assert(l.start_row == r && l.start_col == c && l.size == n);
        assert(rotation_of(l) == 0);
    }
}

} // verus!
