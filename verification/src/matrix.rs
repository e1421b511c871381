//! Placement order of the data bits in the two supported QR-code sizes.
//!
//! Data bits are laid out in two-column strips that are walked alternately
//! upwards and downwards, right to left, skipping the function patterns.

use vstd::prelude::*;

verus! {

/// A cell of a matrix.
#[derive(Clone, Copy, Debug, PartialEq, Eq)]
pub struct Position {
    pub col: u8,
    pub row: u8,
}

/// Cell of the `k`-th bit of a two-column strip whose right column is
/// `col` and whose first row is `row`; the strip runs upwards when `up`.
pub open spec fn strip_cell(k: int, up: bool, col: int, row: int) -> (int, int) {
    if up {
        (row - k / 2, col - k % 2)
    } else {
        (row + k / 2, col - k % 2)
    }
}

/// `(row, col)` of the `index`-th data bit of a 21x21 code; `(0, 0)` past the last bit.
#[verifier::opaque]
pub open spec fn position_version1(index: int) -> (int, int) {
    if 0 <= index < 26 { strip_cell(index, true, 20, 20) }
    else if 26 <= index < 52 { strip_cell(index - 26, false, 18, 8) }
    else if 52 <= index < 78 { strip_cell(index - 52, true, 16, 20) }
    else if 78 <= index < 104 { strip_cell(index - 78, false, 14, 8) }
    else if 104 <= index < 132 { strip_cell(index - 104, true, 12, 20) }
    else if 132 <= index < 144 { strip_cell(index - 132, true, 12, 5) }
    else if 144 <= index < 156 { strip_cell(index - 144, false, 10, 0) }
    else if 156 <= index < 184 { strip_cell(index - 156, false, 10, 7) }
    else if 184 <= index < 194 { strip_cell(index - 184, true, 8, 12) }
    else if 194 <= index < 204 { strip_cell(index - 194, false, 5, 8) }
    else if 204 <= index < 214 { strip_cell(index - 204, true, 3, 12) }
    else if 214 <= index < 224 { strip_cell(index - 214, false, 1, 8) }
    else { (0, 0) }
}

/// `(row, col)` of the `index`-th data bit of a 25x25 code; `(0, 0)` past the last bit.
#[verifier::opaque]
pub open spec fn position_version2(index: int) -> (int, int) {
    if 0 <= index < 34 { strip_cell(index, true, 24, 24) }
    else if 34 <= index < 68 { strip_cell(index - 34, false, 22, 8) }
    else if 68 <= index < 76 { strip_cell(index - 68, true, 20, 24) }
    else if 76 <= index < 92 { strip_cell(index - 76, true, 20, 15) }
    else if 92 <= index < 108 { strip_cell(index - 92, false, 18, 8) }
    else if 108 <= index < 116 { strip_cell(index - 108, false, 18, 21) }
    else if 116 <= index < 124 { strip_cell(index - 116, true, 16, 24) }
    else if 124 <= index < 142 { strip_cell(index - 124, true, 16, 15) }
    else if 142 <= index < 154 { strip_cell(index - 142, true, 16, 5) }
    else if 154 <= index < 166 { strip_cell(index - 154, false, 14, 0) }
    else if 166 <= index < 202 { strip_cell(index - 166, false, 14, 7) }
    else if 202 <= index < 238 { strip_cell(index - 202, true, 12, 24) }
    else if 238 <= index < 250 { strip_cell(index - 238, true, 12, 5) }
    else if 250 <= index < 262 { strip_cell(index - 250, false, 10, 0) }
    else if 262 <= index < 298 { strip_cell(index - 262, false, 10, 7) }
    else if 298 <= index < 316 { strip_cell(index - 298, true, 8, 16) }
    else if 316 <= index < 334 { strip_cell(index - 316, false, 5, 8) }
    else if 334 <= index < 352 { strip_cell(index - 334, true, 3, 16) }
    else if 352 <= index < 370 { strip_cell(index - 352, false, 1, 8) }
    else { (0, 0) }
}

/// Exec counterpart of `strip_cell`.
fn strip_position(k: u64, up: bool, col: u64, row: u64) -> (p: Position)
    requires
        k / 2 <= row || !up,
        k % 2 <= col,
        row + k / 2 < 256,
        col < 256,
    ensures
        (p.row as int, p.col as int) == strip_cell(k as int, up, col as int, row as int),
{
    let left = k % 2;
    let half = k / 2;
    if up {
        Position { col: (col - left) as u8, row: (row - half) as u8 }
    } else {
        Position { col: (col - left) as u8, row: (row + half) as u8 }
    }
}

/// Cell of the `index`-th data bit of a 21x21 code.
pub fn get_matrix_position_version1(index: u64) -> (p: Position)
    ensures
        (p.row as int, p.col as int) == position_version1(index as int),
{
    reveal(position_version1);
    if index < 26 { strip_position(index, true, 20, 20) }
    else if index < 52 { strip_position(index - 26, false, 18, 8) }
    else if index < 78 { strip_position(index - 52, true, 16, 20) }
    else if index < 104 { strip_position(index - 78, false, 14, 8) }
    else if index < 132 { strip_position(index - 104, true, 12, 20) }
    else if index < 144 { strip_position(index - 132, true, 12, 5) }
    else if index < 156 { strip_position(index - 144, false, 10, 0) }
    else if index < 184 { strip_position(index - 156, false, 10, 7) }
    else if index < 194 { strip_position(index - 184, true, 8, 12) }
    else if index < 204 { strip_position(index - 194, false, 5, 8) }
    else if index < 214 { strip_position(index - 204, true, 3, 12) }
    else if index < 224 { strip_position(index - 214, false, 1, 8) }
    else { Position { col: 0, row: 0 } }
}

/// Cell of the `index`-th data bit of a 25x25 code.
pub fn get_matrix_position_version2(index: u64) -> (p: Position)
    ensures
        (p.row as int, p.col as int) == position_version2(index as int),
{
    reveal(position_version2);
    if index < 34 { strip_position(index, true, 24, 24) }
    else if index < 68 { strip_position(index - 34, false, 22, 8) }
    else if index < 76 { strip_position(index - 68, true, 20, 24) }
    else if index < 92 { strip_position(index - 76, true, 20, 15) }
    else if index < 108 { strip_position(index - 92, false, 18, 8) }
    else if index < 116 { strip_position(index - 108, false, 18, 21) }
    else if index < 124 { strip_position(index - 116, true, 16, 24) }
    else if index < 142 { strip_position(index - 124, true, 16, 15) }
    else if index < 154 { strip_position(index - 142, true, 16, 5) }
    else if index < 166 { strip_position(index - 154, false, 14, 0) }
    else if index < 202 { strip_position(index - 166, false, 14, 7) }
    else if index < 238 { strip_position(index - 202, true, 12, 24) }
    else if index < 250 { strip_position(index - 238, true, 12, 5) }
    else if index < 262 { strip_position(index - 250, false, 10, 0) }
    else if index < 298 { strip_position(index - 262, false, 10, 7) }
    else if index < 316 { strip_position(index - 298, true, 8, 16) }
    else if index < 334 { strip_position(index - 316, false, 5, 8) }
    else if index < 352 { strip_position(index - 334, true, 3, 16) }
    else if index < 370 { strip_position(index - 352, false, 1, 8) }
    else { Position { col: 0, row: 0 } }
}

/// Every data bit of a 21x21 code lies inside the matrix.
pub proof fn lemma_position_version1_in_bounds(index: int)
    requires
        0 <= index < 224,
    ensures
        0 <= position_version1(index).0 < 21,
        0 <= position_version1(index).1 < 21,
{
    reveal(position_version1);
}

/// Every data bit of a 25x25 code lies inside the matrix.
pub proof fn lemma_position_version2_in_bounds(index: int)
    requires
        0 <= index < 370,
    ensures
        0 <= position_version2(index).0 < 25,
        0 <= position_version2(index).1 < 25,
{
    reveal(position_version2);
}

} // verus!
