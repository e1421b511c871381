//! Whitening of a QR matrix with the logistic-map keystream.

use vstd::prelude::*;
use crate::grid::{lemma_grid_view, lemma_row_view};

verus! {

/// Bytes `floor(255 * x_n)` of the logistic map `x_{n+1} = 4 x_n (1 - x_n)`,
/// `x_0 = 0.1`, evaluated in IEEE-754 double precision, for `n < 128`:
/// enough for every matrix of at most 32x32 cells. The map itself is
/// floating-point arithmetic, which this library does not hold; the table
/// is taken as given here and compared with the map by a test.
pub const KEYSTREAM: [u8; 128] = [
    25, 91, 235, 73, 209, 149, 247, 28, 102, 245, 37, 128, 254, 0, 0, 1,
    3, 15, 59, 181, 209, 150, 246, 32, 112, 251, 13, 51, 165, 232, 81, 222,
    114, 252, 10, 39, 132, 254, 1, 6, 24, 90, 233, 80, 220, 120, 254, 2,
    11, 42, 142, 251, 14, 54, 171, 224, 108, 249, 22, 81, 222, 113, 251, 12,
    46, 150, 246, 32, 114, 252, 10, 38, 131, 254, 0, 3, 13, 52, 166, 231,
    85, 227, 97, 240, 53, 169, 226, 100, 243, 44, 146, 249, 21, 79, 219, 122,
    254, 1, 6, 26, 94, 238, 62, 187, 197, 177, 216, 131, 254, 1, 4, 16,
    60, 183, 205, 159, 238, 61, 187, 199, 173, 221, 116, 253, 7, 28, 100, 243,
];

/// Number of keystream bits available in the table.
pub open spec fn keystream_capacity() -> int {
    1024int
}

/// Bit `k` of a keystream given as bytes: bit `k % 8` (least significant
/// first) of byte `k / 8`.
pub open spec fn stream_bit(stream: Seq<u8>, k: int) -> u8 {
    ((stream[k / 8] >> ((k % 8) as u8)) & 1u8) as u8
}

/// The `k`-th bit of the table keystream.
pub open spec fn keystream_bit(k: int) -> u8 {
    stream_bit(KEYSTREAM@, k)
}

/// Every row of `m` has at least `m.len()` cells.
pub open spec fn rows_cover_dim(m: Seq<Seq<u8>>) -> bool {
    forall|y: int| 0 <= y < m.len() ==> #[trigger] m[y].len() >= m.len()
}

/// The matrix `m` whitened with the keystream `stream`: cell `(y, x)` with
/// `x < n`, where `n` is the number of rows, is XORed with keystream bit
/// `y * n + x`; other cells are kept.
pub open spec fn whiten_with(m: Seq<Seq<u8>>, stream: Seq<u8>) -> Seq<Seq<u8>> {
    Seq::new(
        m.len(),
        |y: int|
            Seq::new(
                m[y].len(),
                |x: int|
                    if x < m.len() {
                        m[y][x] ^ stream_bit(stream, y * m.len() + x)
                    } else {
                        m[y][x]
                    },
            ),
    )
}

/// The matrix `m` whitened with the table keystream.
pub open spec fn whiten(m: Seq<Seq<u8>>) -> Seq<Seq<u8>> {
    whiten_with(m, KEYSTREAM@)
}

/// Reads bit `bit` of byte `pos` of the keystream `stream`, that is bit
/// `8 * pos + bit` of the stream.
fn stream_bit_exec(stream: &[u8], pos: usize, bit: usize) -> (b: u8)
    requires
        pos < stream@.len(),
        bit < 8,
    ensures
        b == stream_bit(stream@, pos * 8 + bit),
        b <= 1,
{
    assert((pos * 8 + bit) / 8 == pos && (pos * 8 + bit) % 8 == bit) by (nonlinear_arith)
        requires
            bit < 8,
    ;
    let byte = stream[pos];
    let shift = bit as u8;
    let b = (byte >> shift) & 1u8;
    assert(b <= 1) by (bit_vector)
        requires
            b == (byte >> shift) & 1u8,
    ;
    b
}

/// XORs the square part of `qr_code` with the keystream `stream`, given as
/// bytes read least significant bit first; the stream must hold a bit for
/// every cell of the square part. A keystream of any length can be handed
/// in, so matrices of any size can be whitened.
pub fn xor_with_keystream(qr_code: &mut Vec<Vec<u8>>, stream: &[u8])
    requires
        rows_cover_dim(old(qr_code).deep_view()),
        old(qr_code)@.len() * old(qr_code)@.len() <= stream@.len() * 8,
    ensures
        final(qr_code).deep_view() == whiten_with(old(qr_code).deep_view(), stream@),
{
    let ghost m0 = qr_code.deep_view();
    let ghost ks = stream@;
    proof {
        lemma_grid_view(qr_code);
    }
    let dim = qr_code.len();
    let stream_len = stream.len();
    let mut y_index: usize = 0;
    let mut pos: usize = 0;
    let mut bit: usize = 0;
    while y_index < dim
        invariant
            dim == m0.len(),
            ks == stream@,
            stream_len == ks.len(),
            rows_cover_dim(m0),
            dim * dim <= ks.len() * 8,
            y_index <= dim,
            bit < 8,
            pos * 8 + bit == y_index * dim,
            qr_code@.len() == dim,
            forall|y: int| 0 <= y < y_index ==> #[trigger] qr_code.deep_view()[y] == whiten_with(m0, ks)[y],
            forall|y: int| y_index <= y < dim ==> #[trigger] qr_code.deep_view()[y] == m0[y],
        decreases dim - y_index,
    {
        proof {
            lemma_grid_view(qr_code);
            assert(qr_code.deep_view()[y_index as int] == m0[y_index as int]);
        }
        let row_len = qr_code[y_index].len();
        let mut row: Vec<u8> = Vec::new();
        let mut x_index: usize = 0;
        while x_index < row_len
            invariant
                dim == m0.len(),
                ks == stream@,
                stream_len == ks.len(),
                rows_cover_dim(m0),
                dim * dim <= ks.len() * 8,
                y_index < dim,
                bit < 8,
                pos * 8 + bit == y_index * dim + (if x_index < dim { x_index as int } else { dim as int }),
                qr_code@.len() == dim,
                qr_code.deep_view()[y_index as int] == m0[y_index as int],
                row_len == m0[y_index as int].len(),
                x_index <= row_len,
                row@.len() == x_index,
                forall|x: int| 0 <= x < x_index ==> #[trigger] row@[x] == whiten_with(m0, ks)[y_index as int][x],
            decreases row_len - x_index,
        {
            let cell = qr_code[y_index][x_index];
            assert(cell == m0[y_index as int][x_index as int]);
            if x_index < dim {
                proof {
                    assert(y_index * dim + x_index < dim * dim) by (nonlinear_arith)
                        requires
                            y_index < dim,
                            x_index < dim,
                    ;
                }
                let logistic_bit = stream_bit_exec(stream, pos, bit);
                row.push(cell ^ logistic_bit);
                if bit == 7 {
                    bit = 0;
                    pos = pos + 1;
                } else {
                    bit = bit + 1;
                }
            } else {
                row.push(cell);
            }
            x_index = x_index + 1;
        }
        assert(row@ =~= whiten_with(m0, ks)[y_index as int]);
        let ghost before = qr_code.deep_view();
        qr_code.set(y_index, row);
        proof {
            lemma_grid_view(qr_code);
            assert forall|y: int| 0 <= y < dim && y != y_index implies #[trigger] qr_code.deep_view()[y] == before[y] by {}
            assert(y_index * dim + dim == (y_index + 1) * dim) by (nonlinear_arith);
        }
        y_index = y_index + 1;
    }
    assert(qr_code.deep_view() =~= whiten_with(m0, ks));
}

/// XORs the square part of `qr_code` with the logistic-map keystream of
/// the table `KEYSTREAM`, which covers matrices of at most 32x32 cells: the
/// map that continues it is floating-point arithmetic. Every matrix the QR
/// service whitens (21x21, 25x25, 32x32) is within that size. For a larger
/// matrix, `xor_with_keystream` takes the keystream as an argument.
pub fn xor_with_logistic_map(qr_code: &mut Vec<Vec<u8>>)
    requires
        rows_cover_dim(old(qr_code).deep_view()),
        old(qr_code)@.len() * old(qr_code)@.len() <= keystream_capacity(),
    ensures
        final(qr_code).deep_view() == whiten(old(qr_code).deep_view()),
{
    let table: &[u8] = &KEYSTREAM;
    assert(table@ == KEYSTREAM@);
    xor_with_keystream(qr_code, table);
}

/// Whitening twice with the same keystream restores the matrix, whatever
/// its size and whatever the keystream.
pub proof fn lemma_whiten_with_involution(m: Seq<Seq<u8>>, stream: Seq<u8>)
    ensures
        whiten_with(whiten_with(m, stream), stream) == m,
{
    let w = whiten_with(m, stream);
    assert forall|y: int, x: int| 0 <= y < m.len() && 0 <= x < m[y].len() && x < m.len() implies
        #[trigger] whiten_with(w, stream)[y][x] == m[y][x] by {
        let a = m[y][x];
        let b = stream_bit(stream, y * m.len() + x);
        assert((a ^ b) ^ b == a) by (bit_vector);
    }
    assert forall|y: int| 0 <= y < m.len() implies #[trigger] whiten_with(w, stream)[y] =~= m[y] by {}
    assert(whiten_with(w, stream) =~= m);
}

/// Whitening twice with the table keystream restores the matrix, whatever
/// its size.
pub proof fn lemma_whiten_involution(m: Seq<Seq<u8>>)
    ensures
        whiten(whiten(m)) == m,
{
    lemma_whiten_with_involution(m, KEYSTREAM@);
}

} // verus!
