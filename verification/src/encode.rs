//! Encoding a short ASCII message as a whitened QR matrix rendered in hex.

use vstd::prelude::*;
use vstd::string::StringSliceAdditionalSpecFns;
use crate::grid::{new_zero_grid, set_cell, zero_grid, set_cell_spec, lemma_grid_view};
use crate::hexfmt::{flatten, hex_words, qr_code_matrix_to_hex_string};
use crate::keystream::{whiten, xor_with_logistic_map, rows_cover_dim};
use crate::matrix::{
    position_version1, position_version2, get_matrix_position_version1,
    get_matrix_position_version2, lemma_position_version1_in_bounds,
    lemma_position_version2_in_bounds,
};

verus! {

/// Bit pattern written, repeated, after the payload.
pub const FILLER: u16 = 0b1110110000010001;

/// Number of set bits of `b`.
pub open spec fn ones(b: nat) -> nat
    decreases b,
{
    if b == 0 {
        0
    } else {
        b % 2 + ones(b / 2)
    }
}

/// Parity byte of `b`: 1 when `b` has an odd number of set bits.
pub open spec fn parity(b: u8) -> u8 {
    (ones(b as nat) % 2) as u8
}

/// Each byte of `msg` followed by its parity byte.
pub open spec fn with_parity(msg: Seq<u8>) -> Seq<u8>
    decreases msg.len(),
{
    if msg.len() == 0 {
        Seq::empty()
    } else {
        with_parity(msg.drop_last()) + seq![msg.last(), parity(msg.last())]
    }
}

/// A parity byte follows each message byte.
proof fn lemma_with_parity_len(msg: Seq<u8>)
    ensures
        with_parity(msg).len() == 2 * msg.len(),
    decreases msg.len(),
{
    if msg.len() > 0 {
        lemma_with_parity_len(msg.drop_last());
    }
}

/// The payload of a message: its length (mod 256), then each byte with its parity byte.
pub open spec fn payload_of(msg: Seq<u8>) -> Seq<u8> {
    seq![(msg.len() % 256) as u8] + with_parity(msg)
}

/// Side of the matrix used for a message of `len` bytes.
pub open spec fn matrix_dim(len: int) -> int {
    if len <= 13 {
        21
    } else {
        25
    }
}

/// Number of data cells of a matrix of side `dim`.
pub open spec fn data_length(dim: int) -> int {
    if dim == 21 {
        224
    } else {
        370
    }
}

/// Cell of the `ind`-th data bit of a matrix of side `dim`.
pub open spec fn data_position(dim: int, ind: int) -> (int, int) {
    if dim == 21 {
        position_version1(ind)
    } else {
        position_version2(ind)
    }
}

/// The `ind`-th data bit: bits of the payload, most significant first,
/// then the filler pattern repeated.
pub open spec fn data_bit(payload: Seq<u8>, ind: int) -> u8 {
    if ind / 8 < payload.len() {
        ((payload[ind / 8] >> ((7 - ind % 8) as u8)) & 1u8) as u8
    } else {
        ((FILLER >> ((15 - (ind - 8 * payload.len()) % 16) as u16)) & 1u16) as u8
    }
}

/// The zero matrix after the first `n` data bits were written, in order.
#[verifier::opaque]
pub open spec fn write_data(payload: Seq<u8>, dim: int, n: int) -> Seq<Seq<u8>>
    decreases n,
{
    if n <= 0 {
        zero_grid(dim, dim)
    } else {
        let (r, c) = data_position(dim, n - 1);
        set_cell_spec(write_data(payload, dim, n - 1), r, c, data_bit(payload, n - 1))
    }
}

/// 7x7 finder pattern: dark border, light ring, dark 3x3 core.
pub open spec fn finder_cell(i: int, j: int) -> bool {
    i == 0 || i == 6 || j == 0 || j == 6 || (2 <= i <= 4 && 2 <= j <= 4)
}

/// The fixed dark cells of a code of side `dim`: three finder patterns,
/// the two timing lines and, for side 25, the alignment pattern.
pub open spec fn template_cell(dim: int, r: int, c: int) -> bool {
    if 0 <= r < 7 && 0 <= c < 7 {
        finder_cell(r, c)
    } else if 0 <= r < 7 && dim - 7 <= c < dim {
        finder_cell(r, c - (dim - 7))
    } else if dim - 7 <= r < dim && 0 <= c < 7 {
        finder_cell(r - (dim - 7), c)
    } else if r == 6 && 8 <= c <= dim - 9 {
        c % 2 == 0
    } else if c == 6 && 8 <= r <= dim - 9 {
        r % 2 == 0
    } else if dim == 25 && 16 <= r <= 20 && 16 <= c <= 20 {
        r == 16 || r == 20 || c == 16 || c == 20 || (r == 18 && c == 18)
    } else {
        false
    }
}

/// Side of the layout used in a matrix of side `dim`: the small layout for
/// side 21, the large one (side 25) for any other side.
pub open spec fn layout_side(dim: int) -> int {
    if dim == 21 {
        21
    } else {
        25
    }
}

/// The unwhitened code of side `dim` carrying `payload`.
pub open spec fn qr_matrix(payload: Seq<u8>, dim: int) -> Seq<Seq<u8>> {
    Seq::new(
        dim as nat,
        |r: int|
            Seq::new(
                dim as nat,
                |c: int|
                    if template_cell(layout_side(dim), r, c) {
                        1u8
                    } else {
                        write_data(payload, dim, data_length(dim))[r][c]
                    },
            ),
    )
}

/// The hex rendering of the whitened code of `msg`.
pub open spec fn spec_encode(msg: Seq<u8>) -> Seq<char> {
    hex_words(flatten(whiten(qr_matrix(payload_of(msg), matrix_dim(msg.len() as int)))))
}

/// Side of the code for `message`.
pub fn get_matrix_dim(message: &str) -> (dim: usize)
    requires
        message.spec_bytes().len() <= 22,
    ensures
        dim == matrix_dim(message.spec_bytes().len() as int),
{
    if message.len() <= 13 {
        21
    } else {
        25
    }
}

/// Number of set bits of `b`.
pub fn count_ones(b: u8) -> (n: u32)
    ensures
        n == ones(b as nat),
        n <= 8,
{
    let mut v: u8 = b;
    let mut n: u32 = 0;
    while v > 0
        invariant
            n + ones(v as nat) == ones(b as nat),
            n + 8 <= 16,
            v < 256,
            n <= 8 - (if v >= 128 { 8int } else if v >= 64 { 7int } else if v >= 32 { 6int } else if v >= 16 { 5int } else if v >= 8 { 4int } else if v >= 4 { 3int } else if v >= 2 { 2int } else if v >= 1 { 1int } else { 0int }),
        decreases v,
    {
        n = n + (v % 2) as u32;
        v = v / 2;
    }
    n
}

/// The payload of `message`: its byte length (mod 256), then each byte
/// followed by its parity byte.
pub fn create_bytes_from_raw_string(message: &str) -> (payload: Vec<u8>)
    ensures
        payload@ == payload_of(message.spec_bytes()),
{
    let bytes = message.as_bytes();
    let ghost msg = message.spec_bytes();
    let mut payload: Vec<u8> = Vec::new();
    payload.push((bytes.len() % 256) as u8);
    let mut i: usize = 0;
    while i < bytes.len()
        invariant
            bytes@ == msg,
            i <= msg.len(),
            payload@ == seq![(msg.len() % 256) as u8] + with_parity(msg.take(i as int)),
        decreases msg.len() - i,
    {
        let c = bytes[i];
        payload.push(c);
        let error_code = (count_ones(c) % 2) as u8;
        payload.push(error_code);
        proof {
            assert(msg.take(i + 1).drop_last() =~= msg.take(i as int));
        }
        i = i + 1;
        assert(payload@ =~= seq![(msg.len() % 256) as u8] + with_parity(msg.take(i as int)));
    }
    assert(msg.take(msg.len() as int) =~= msg);
    payload
}

/// Whether cell `(r, c)` is a fixed dark cell of a code of side `dim`.
pub fn is_template_cell(dim: usize, r: usize, c: usize) -> (b: bool)
    requires
        dim == 21 || dim == 25,
    ensures
        b == template_cell(dim as int, r as int, c as int),
{
    if r < 7 && c < 7 {
        is_finder_cell(r, c)
    } else if r < 7 && dim - 7 <= c && c < dim {
        is_finder_cell(r, c - (dim - 7))
    } else if dim - 7 <= r && r < dim && c < 7 {
        is_finder_cell(r - (dim - 7), c)
    } else if r == 6 && 8 <= c && c <= dim - 9 {
        c % 2 == 0
    } else if c == 6 && 8 <= r && r <= dim - 9 {
        r % 2 == 0
    } else if dim == 25 && 16 <= r && r <= 20 && 16 <= c && c <= 20 {
        r == 16 || r == 20 || c == 16 || c == 20 || (r == 18 && c == 18)
    } else {
        false
    }
}

/// Whether `(i, j)` of a 7x7 finder pattern is dark.
fn is_finder_cell(i: usize, j: usize) -> (b: bool)
    ensures
        b == finder_cell(i as int, j as int),
{
    i == 0 || i == 6 || j == 0 || j == 6 || (2 <= i && i <= 4 && 2 <= j && j <= 4)
}

/// Writing one more data bit sets its cell.
proof fn lemma_write_data_step(payload: Seq<u8>, dim: int, n: int)
    requires
        0 <= n,
    ensures
        write_data(payload, dim, n + 1) == set_cell_spec(
            write_data(payload, dim, n),
            data_position(dim, n).0,
            data_position(dim, n).1,
            data_bit(payload, n),
        ),
{
    reveal(write_data);
}

/// Writing data bits keeps the matrix `dim` x `dim`.
pub(crate) proof fn lemma_write_data_shape(payload: Seq<u8>, dim: int, n: int)
    requires
        dim == 21 || dim >= 25,
        0 <= n <= data_length(dim),
    ensures
        write_data(payload, dim, n).len() == dim,
        forall|r: int| 0 <= r < dim ==> #[trigger] write_data(payload, dim, n)[r].len() == dim,
    decreases n,
{
    reveal(write_data);
    if n > 0 {
        lemma_write_data_shape(payload, dim, n - 1);
        if dim == 21 {
            lemma_position_version1_in_bounds(n - 1);
        } else {
            lemma_position_version2_in_bounds(n - 1);
        }
    }
}

/// Cell of the `ind`-th data bit of a code of side `dim`.
fn data_cell(dim: usize, ind: usize) -> (yx: (usize, usize))
    requires
        dim == 21 || dim >= 25,
        ind < data_length(dim as int),
    ensures
        (yx.0 as int, yx.1 as int) == data_position(dim as int, ind as int),
        yx.0 < dim,
        yx.1 < dim,
{
    proof {
        if dim == 21 {
            lemma_position_version1_in_bounds(ind as int);
        } else {
            lemma_position_version2_in_bounds(ind as int);
        }
    }
    let pos = if dim == 21 {
        get_matrix_position_version1(ind as u64)
    } else {
        get_matrix_position_version2(ind as u64)
    };
    (pos.row as usize, pos.col as usize)
}

/// The `ind`-th data bit, given the current position in the filler pattern.
fn data_bit_exec(payload: &[u8], ind: usize, filler_index: usize) -> (b: u8)
    requires
        ind < 8 * 1024,
        filler_index == (if 8 * payload@.len() <= ind { (ind - 8 * payload@.len()) % 16 } else { 0 }),
    ensures
        b == data_bit(payload@, ind as int),
{
    let char_ind = ind / 8;
    let bit_ind = ind % 8;
    if char_ind >= payload.len() {
        ((FILLER >> ((15 - filler_index) as u16)) & 1u16) as u8
    } else {
        (payload[char_ind] >> ((7 - bit_ind) as u8)) & 1u8
    }
}

/// Lays `payload` out in a code of side `dim`, pads it with the filler
/// pattern, and adds the fixed dark cells.
pub fn create_qr_matrix_from_bytes(payload: &[u8], dim: usize) -> (qr_code: Vec<Vec<u8>>)
    requires
        dim == 21 || dim >= 25,
    ensures
        qr_code.deep_view() == qr_matrix(payload@, dim as int),
{
    let mut qr_code = new_zero_grid(dim, dim);
    proof {
        reveal(write_data);
    }
    let mut filler_index: usize = 0;
    let length_to_fill: usize = if dim == 21 { 224 } else { 370 };
    let ghost p = payload@;
    let mut ind: usize = 0;
    while ind < length_to_fill
        invariant
            p == payload@,
            dim == 21 || dim >= 25,
            length_to_fill == data_length(dim as int),
            ind <= length_to_fill,
            qr_code.deep_view() == write_data(p, dim as int, ind as int),
            filler_index < 16,
            filler_index == (if 8 * p.len() <= ind { (ind - 8 * p.len()) % 16 } else { 0 }),
        decreases length_to_fill - ind,
    {
        let (y, x) = data_cell(dim, ind);
        let bit = data_bit_exec(payload, ind, filler_index);
        if ind / 8 >= payload.len() {
            proof {
                let k = ind - 8 * p.len();
                assert(0 <= k);
                assert((k + 1) % 16 == (k % 16 + 1) % 16) by (nonlinear_arith)
                    requires
                        k >= 0,
                ;
            }
            filler_index = (filler_index + 1) % 16;
        }
        proof {
            lemma_write_data_shape(p, dim as int, ind as int);
            lemma_write_data_step(p, dim as int, ind as int);
            lemma_grid_view(&qr_code);
            assert(write_data(p, dim as int, ind as int)[y as int].len() == dim);
            assert(qr_code@[y as int]@.len() == dim);
        }
        set_cell(&mut qr_code, y, x, bit);
        ind = ind + 1;
    }
    proof {
        lemma_write_data_shape(p, dim as int, length_to_fill as int);
    }
    let ghost written = qr_code.deep_view();
    let mut i: usize = 0;
    while i < dim
        invariant
            dim == 21 || dim >= 25,
            written == write_data(p, dim as int, data_length(dim as int)),
            written.len() == dim,
            forall|r: int| 0 <= r < dim ==> #[trigger] written[r].len() == dim,
            i <= dim,
            qr_code.deep_view().len() == dim,
            forall|r: int| 0 <= r < i ==> #[trigger] qr_code.deep_view()[r] == qr_matrix(p, dim as int)[r],
            forall|r: int| i <= r < dim ==> #[trigger] qr_code.deep_view()[r] == written[r],
        decreases dim - i,
    {
        let mut j: usize = 0;
        while j < dim
            invariant
                dim == 21 || dim >= 25,
                written == write_data(p, dim as int, data_length(dim as int)),
                written.len() == dim,
                forall|r: int| 0 <= r < dim ==> #[trigger] written[r].len() == dim,
                i < dim,
                j <= dim,
                qr_code.deep_view().len() == dim,
                forall|r: int| 0 <= r < i ==> #[trigger] qr_code.deep_view()[r] == qr_matrix(p, dim as int)[r],
                forall|r: int| i < r < dim ==> #[trigger] qr_code.deep_view()[r] == written[r],
                qr_code.deep_view()[i as int].len() == dim,
                forall|c: int| 0 <= c < j ==> #[trigger] qr_code.deep_view()[i as int][c] == qr_matrix(p, dim as int)[i as int][c],
                forall|c: int| j <= c < dim ==> #[trigger] qr_code.deep_view()[i as int][c] == written[i as int][c],
            decreases dim - j,
        {
            proof {
                lemma_grid_view(&qr_code);
            }
            let ghost before = qr_code.deep_view();
            let ghost target = qr_matrix(p, dim as int)[i as int][j as int];
            proof {
                let row = qr_matrix(p, dim as int)[i as int];
                assert(row.len() == dim);
                if template_cell(layout_side(dim as int), i as int, j as int) {
                    assert(target == 1u8);
                } else {
                    assert(target == write_data(p, dim as int, data_length(dim as int))[i as int][j as int]);
                    assert(target == written[i as int][j as int]);
                }
            }
            let side: usize = if dim == 21 { 21 } else { 25 };
            if is_template_cell(side, i, j) {
                assert(qr_code@[i as int]@.len() == dim);
                set_cell(&mut qr_code, i, j, 1u8);
            }
            proof {
                assert(qr_code.deep_view()[i as int][j as int] == target);
                assert forall|c: int| 0 <= c < dim && c != j implies #[trigger] qr_code.deep_view()[i as int][c] == before[i as int][c] by {}
                assert forall|r: int| 0 <= r < dim && r != i implies #[trigger] qr_code.deep_view()[r] == before[r] by {}
            }
            j = j + 1;
        }
        assert(qr_code.deep_view()[i as int] =~= qr_matrix(p, dim as int)[i as int]);
        i = i + 1;
    }
    assert(qr_code.deep_view() =~= qr_matrix(p, dim as int));
    qr_code
}

/// Encodes `message` (at most 22 bytes) as the hex rendering of its whitened QR code.
pub fn encode(message: &str) -> (hex: String)
    requires
        message.spec_bytes().len() <= 22,
    ensures
        hex@ == spec_encode(message.spec_bytes()),
{
    let payload = create_bytes_from_raw_string(message);
    proof {
        lemma_with_parity_len(message.spec_bytes());
    }
    let dim = get_matrix_dim(message);
    let mut qr_code = create_qr_matrix_from_bytes(payload.as_slice(), dim);
    proof {
        lemma_grid_view(&qr_code);
        assert(rows_cover_dim(qr_code.deep_view()));
        assert(qr_code@.len() == dim);
        assert(qr_code@.len() * qr_code@.len() <= 625) by (nonlinear_arith)
            requires
                qr_code@.len() <= 25,
        ;
    }
    xor_with_logistic_map(&mut qr_code);
    qr_code_matrix_to_hex_string(&qr_code)
}

} // verus!
