//! What a reader of the code gets back from what the encoder laid out.

use vstd::prelude::*;
use crate::decode::{decode_ok, recovered_code, chunk_value, hex_chunks, hex_matrix, hex_matrix_ok, is_0x_at, pad8, split_scan, byte_at, candidates, char_of, decoded_text, first_stop, lemma_first_stop_skip, lemma_utf8_len_push, read_cells, utf8_len};
use crate::encode::{
    data_bit, data_length, data_position, layout_side, lemma_write_data_shape, matrix_dim, parity, payload_of,
    qr_matrix, template_cell, with_parity, write_data,
};
use crate::find::position_patterns;
use crate::grid::set_cell_spec;
use crate::keystream::{keystream_bit, lemma_whiten_involution, whiten};
use crate::outline::{holds_turned, lemma_find_undoes_the_turn, turned_corners};
use crate::rotate::is_square;
use crate::hexfmt::{flatten, hex_digit, hex_digits, hex_words, pack_bits, format_word};
use crate::numparse::{all_digits, digit_value, digits_value, parse_unsigned, pow16};
use crate::matrix::{lemma_position_version1_in_bounds, lemma_position_version2_in_bounds};
use crate::matrix::{position_version1, position_version2};

verus! {

/// Index of the data bit placed at `(r, c)` in a 21x21 code.
pub open spec fn data_index_v1(r: int, c: int) -> int {
    if c == 20 || c == 19 {
        2 * (20 - r) + (20 - c)
    } else if c == 18 || c == 17 {
        26 + 2 * (r - 8) + (18 - c)
    } else if c == 16 || c == 15 {
        52 + 2 * (20 - r) + (16 - c)
    } else if c == 14 || c == 13 {
        78 + 2 * (r - 8) + (14 - c)
    } else if c == 12 || c == 11 {
        if r >= 7 {
            104 + 2 * (20 - r) + (12 - c)
        } else {
            132 + 2 * (5 - r) + (12 - c)
        }
    } else if c == 10 || c == 9 {
        if r <= 5 {
            144 + 2 * r + (10 - c)
        } else {
            156 + 2 * (r - 7) + (10 - c)
        }
    } else if c == 8 || c == 7 {
        184 + 2 * (12 - r) + (8 - c)
    } else if c == 5 || c == 4 {
        194 + 2 * (r - 8) + (5 - c)
    } else if c == 3 || c == 2 {
        204 + 2 * (12 - r) + (3 - c)
    } else {
        214 + 2 * (r - 8) + (1 - c)
    }
}

/// Index of the data bit placed at `(r, c)` in a 25x25 code.
pub open spec fn data_index_v2(r: int, c: int) -> int {
    if c == 24 || c == 23 {
        2 * (24 - r) + (24 - c)
    } else if c == 22 || c == 21 {
        34 + 2 * (r - 8) + (22 - c)
    } else if c == 20 || c == 19 {
        if r >= 21 {
            68 + 2 * (24 - r) + (20 - c)
        } else {
            76 + 2 * (15 - r) + (20 - c)
        }
    } else if c == 18 || c == 17 {
        if r <= 15 {
            92 + 2 * (r - 8) + (18 - c)
        } else {
            108 + 2 * (r - 21) + (18 - c)
        }
    } else if c == 16 || c == 15 {
        if r >= 21 {
            116 + 2 * (24 - r) + (16 - c)
        } else if r >= 7 {
            124 + 2 * (15 - r) + (16 - c)
        } else {
            142 + 2 * (5 - r) + (16 - c)
        }
    } else if c == 14 || c == 13 {
        if r <= 5 {
            154 + 2 * r + (14 - c)
        } else {
            166 + 2 * (r - 7) + (14 - c)
        }
    } else if c == 12 || c == 11 {
        if r >= 7 {
            202 + 2 * (24 - r) + (12 - c)
        } else {
            238 + 2 * (5 - r) + (12 - c)
        }
    } else if c == 10 || c == 9 {
        if r <= 5 {
            250 + 2 * r + (10 - c)
        } else {
            262 + 2 * (r - 7) + (10 - c)
        }
    } else if c == 8 || c == 7 {
        298 + 2 * (16 - r) + (8 - c)
    } else if c == 5 || c == 4 {
        316 + 2 * (r - 8) + (5 - c)
    } else if c == 3 || c == 2 {
        334 + 2 * (16 - r) + (3 - c)
    } else {
        352 + 2 * (r - 8) + (1 - c)
    }
}

/// Division by two with remainder.
proof fn lemma_half(k: int)
    requires
        k >= 0,
    ensures
        k == 2 * (k / 2) + k % 2,
        0 <= k % 2 < 2,
{
}

/// The placement of the data bits of a 21x21 code can be undone.
proof fn lemma_index_v1(i: int)
    requires
        0 <= i < 224,
    ensures
        data_index_v1(position_version1(i).0, position_version1(i).1) == i,
{
    reveal(position_version1);
    let base: int = if i < 26 { 0 } else if i < 52 { 26 } else if i < 78 { 52 } else if i < 104 { 78 }
        else if i < 132 { 104 } else if i < 144 { 132 } else if i < 156 { 144 } else if i < 184 { 156 }
        else if i < 194 { 184 } else if i < 204 { 194 } else if i < 214 { 204 } else { 214 };
    lemma_half(i - base);
}

/// The placement of the data bits of a 25x25 code can be undone.
proof fn lemma_index_v2(i: int)
    requires
        0 <= i < 370,
    ensures
        data_index_v2(position_version2(i).0, position_version2(i).1) == i,
{
    reveal(position_version2);
    let base: int = if i < 34 { 0 } else if i < 68 { 34 } else if i < 76 { 68 } else if i < 92 { 76 }
        else if i < 108 { 92 } else if i < 116 { 108 } else if i < 124 { 116 } else if i < 142 { 124 }
        else if i < 154 { 142 } else if i < 166 { 154 } else if i < 202 { 166 } else if i < 238 { 202 }
        else if i < 250 { 238 } else if i < 262 { 250 } else if i < 298 { 262 } else if i < 316 { 298 }
        else if i < 334 { 316 } else if i < 352 { 334 } else { 352 };
    lemma_half(i - base);
}

/// No data bit of a 21x21 code lands on a fixed dark cell.
proof fn lemma_free_v1(i: int)
    requires
        0 <= i < 224,
    ensures
        !template_cell(21, position_version1(i).0, position_version1(i).1),
{
    reveal(position_version1);
    let base: int = if i < 26 { 0 } else if i < 52 { 26 } else if i < 78 { 52 } else if i < 104 { 78 }
        else if i < 132 { 104 } else if i < 144 { 132 } else if i < 156 { 144 } else if i < 184 { 156 }
        else if i < 194 { 184 } else if i < 204 { 194 } else if i < 214 { 204 } else { 214 };
    lemma_half(i - base);
}

/// No data bit of a 25x25 code lands on a fixed dark cell.
proof fn lemma_free_v2(i: int)
    requires
        0 <= i < 370,
    ensures
        !template_cell(25, position_version2(i).0, position_version2(i).1),
{
    reveal(position_version2);
    let base: int = if i < 34 { 0 } else if i < 68 { 34 } else if i < 76 { 68 } else if i < 92 { 76 }
        else if i < 108 { 92 } else if i < 116 { 108 } else if i < 124 { 116 } else if i < 142 { 124 }
        else if i < 154 { 142 } else if i < 166 { 154 } else if i < 202 { 166 } else if i < 238 { 202 }
        else if i < 250 { 238 } else if i < 262 { 250 } else if i < 298 { 262 } else if i < 316 { 298 }
        else if i < 334 { 316 } else if i < 352 { 334 } else { 352 };
    lemma_half(i - base);
}

/// Two data bits of a code never share a cell.
proof fn lemma_positions_distinct(dim: int, i: int, j: int)
    requires
        dim == 21 || dim == 25,
        0 <= i < data_length(dim),
        0 <= j < data_length(dim),
        i != j,
    ensures
        data_position(dim, i) != data_position(dim, j),
{
    if dim == 21 {
        lemma_index_v1(i);
        lemma_index_v1(j);
    } else {
        lemma_index_v2(i);
        lemma_index_v2(j);
    }
}

/// A data bit lies inside the code and off its fixed dark cells.
proof fn lemma_position_free(dim: int, i: int)
    requires
        dim == 21 || dim == 25,
        0 <= i < data_length(dim),
    ensures
        0 <= data_position(dim, i).0 < dim,
        0 <= data_position(dim, i).1 < dim,
        !template_cell(dim, data_position(dim, i).0, data_position(dim, i).1),
{
    if dim == 21 {
        lemma_position_version1_in_bounds(i);
        lemma_free_v1(i);
    } else {
        lemma_position_version2_in_bounds(i);
        lemma_free_v2(i);
    }
}

/// After the first `n` data bits were written, the cell of bit `i < n`
/// holds that bit.
proof fn lemma_written_bit(p: Seq<u8>, dim: int, n: int, i: int)
    requires
        dim == 21 || dim == 25,
        0 <= i < n <= data_length(dim),
    ensures
        write_data(p, dim, n)[data_position(dim, i).0][data_position(dim, i).1] == data_bit(p, i),
    decreases n,
{
    reveal(write_data);
    lemma_write_data_shape(p, dim, n - 1);
    lemma_position_free(dim, n - 1);
    lemma_position_free(dim, i);
    let m = write_data(p, dim, n - 1);
    let (r, c) = data_position(dim, n - 1);
    assert(write_data(p, dim, n) == set_cell_spec(m, r, c, data_bit(p, n - 1)));
    if i < n - 1 {
        lemma_written_bit(p, dim, n - 1, i);
        lemma_positions_distinct(dim, i, n - 1);
    }
}

/// One more bit shifted into the packed prefix.
proof fn lemma_pack_step(s: Seq<u8>, k: int)
    requires
        0 <= k < s.len(),
    ensures
        pack_bits(s.take(k + 1)) == ((pack_bits(s.take(k)) << 1u32) | (s[k] as u32)) as u32,
{
    assert(s.take(k + 1).drop_last() =~= s.take(k));
    assert(s.take(k + 1).last() == s[k]);
}

/// Packing the eight bits of a byte, most significant first, gives the byte.
proof fn lemma_pack_byte(s: Seq<u8>, b: u8)
    requires
        s.len() == 8,
        forall|j: int| 0 <= j < 8 ==> #[trigger] s[j] == ((b >> ((7 - j) as u8)) & 1u8),
    ensures
        pack_bits(s) == b as u32,
{
    assert(pack_bits(s.take(0)) == 0) by {
        assert(s.take(0) =~= Seq::<u8>::empty());
    }
    assert(s.take(8) =~= s);
    lemma_pack_step(s, 0);
    lemma_pack_step(s, 1);
    lemma_pack_step(s, 2);
    lemma_pack_step(s, 3);
    lemma_pack_step(s, 4);
    lemma_pack_step(s, 5);
    lemma_pack_step(s, 6);
    lemma_pack_step(s, 7);
    let v0 = pack_bits(s.take(1));
    let v1 = pack_bits(s.take(2));
    let v2 = pack_bits(s.take(3));
    let v3 = pack_bits(s.take(4));
    let v4 = pack_bits(s.take(5));
    let v5 = pack_bits(s.take(6));
    let v6 = pack_bits(s.take(7));
    let v7 = pack_bits(s.take(8));
    let s0 = s[0];
    let s1 = s[1];
    let s2 = s[2];
    let s3 = s[3];
    let s4 = s[4];
    let s5 = s[5];
    let s6 = s[6];
    let s7 = s[7];
    assert(s0 == ((b >> 7u8) & 1u8));
    assert(s1 == ((b >> 6u8) & 1u8));
    assert(s2 == ((b >> 5u8) & 1u8));
    assert(s3 == ((b >> 4u8) & 1u8));
    assert(s4 == ((b >> 3u8) & 1u8));
    assert(s5 == ((b >> 2u8) & 1u8));
    assert(s6 == ((b >> 1u8) & 1u8));
    assert(s7 == ((b >> 0u8) & 1u8));
    assert(v7 == b as u32) by (bit_vector)
        requires
            v0 == ((0u32 << 1u32) | (s0 as u32)),
            v1 == ((v0 << 1u32) | (s1 as u32)),
            v2 == ((v1 << 1u32) | (s2 as u32)),
            v3 == ((v2 << 1u32) | (s3 as u32)),
            v4 == ((v3 << 1u32) | (s4 as u32)),
            v5 == ((v4 << 1u32) | (s5 as u32)),
            v6 == ((v5 << 1u32) | (s6 as u32)),
            v7 == ((v6 << 1u32) | (s7 as u32)),
            s0 == ((b >> 7u8) & 1u8),
            s1 == ((b >> 6u8) & 1u8),
            s2 == ((b >> 5u8) & 1u8),
            s3 == ((b >> 4u8) & 1u8),
            s4 == ((b >> 3u8) & 1u8),
            s5 == ((b >> 2u8) & 1u8),
            s6 == ((b >> 1u8) & 1u8),
            s7 == ((b >> 0u8) & 1u8),
    ;
}

/// Reading the code along the data order gives the bits the encoder wrote.
proof fn lemma_read_bit(p: Seq<u8>, dim: int, i: int)
    requires
        dim == 21 || dim == 25,
        0 <= i < data_length(dim),
    ensures
        read_cells(qr_matrix(p, dim), dim)[i] == data_bit(p, i),
{
    lemma_position_free(dim, i);
    lemma_written_bit(p, dim, data_length(dim), i);
    assert(layout_side(dim) == dim);
}

/// Reading eight cells of the code gives back a byte of the payload.
proof fn lemma_read_byte(p: Seq<u8>, dim: int, k: int)
    requires
        dim == 21 || dim == 25,
        0 <= k < p.len(),
        8 * k + 8 <= data_length(dim),
    ensures
        byte_at(read_cells(qr_matrix(p, dim), dim), k) == p[k] as u32,
{
    let cells = read_cells(qr_matrix(p, dim), dim);
    let s = cells.subrange(8 * k, 8 * k + 8);
    assert forall|j: int| 0 <= j < 8 implies #[trigger] s[j] == ((p[k] >> ((7 - j) as u8)) & 1u8) by {
        lemma_read_bit(p, dim, 8 * k + j);
        assert((8 * k + j) / 8 == k);
        assert((8 * k + j) % 8 == j);
    }
    lemma_pack_byte(s, p[k]);
}

/// A message byte sits before its parity byte.
proof fn lemma_with_parity_at(msg: Seq<u8>, t: int)
    requires
        0 <= t < msg.len(),
    ensures
        with_parity(msg).len() == 2 * msg.len(),
        with_parity(msg)[2 * t] == msg[t],
        with_parity(msg)[2 * t + 1] == parity(msg[t]),
    decreases msg.len(),
{
    let d = msg.drop_last();
    if t < msg.len() - 1 {
        lemma_with_parity_at(d, t);
    } else if msg.len() > 1 {
        lemma_with_parity_at(d, 0);
    } else {
        assert(d.len() == 0);
        assert(with_parity(d) =~= Seq::<u8>::empty());
    }
}

/// The characters of a message of single-byte characters.
pub open spec fn ascii_text(msg: Seq<u8>) -> Seq<char> {
    Seq::new(msg.len(), |i: int| msg[i] as char)
}

/// Reading the code that carries a message of 1 to 22 ASCII bytes gives
/// the message back: the encoder's layout and the decoder's reading agree.
pub proof fn lemma_read_back_message(msg: Seq<u8>)
    requires
        1 <= msg.len() <= 22,
        forall|i: int| 0 <= i < msg.len() ==> #[trigger] msg[i] < 128,
    ensures
        decoded_text(qr_matrix(payload_of(msg), matrix_dim(msg.len() as int))) == ascii_text(msg),
{
    let len = msg.len() as int;
    let dim = matrix_dim(len);
    let p = payload_of(msg);
    let qr = qr_matrix(p, dim);
    let cells = read_cells(qr, dim);
    let cand = candidates(cells, dim);
    lemma_with_parity_at(msg, 0);
    assert(p.len() == 2 * len + 1);
    assert(qr.len() == dim);
    // the length byte
    lemma_read_byte(p, dim, 0);
    assert(byte_at(cells, 0) == len);
    // the characters
    assert(cand.len() >= len);
    assert forall|t: int| 0 <= t < len implies #[trigger] cand[t] == msg[t] as char by {
        lemma_with_parity_at(msg, t);
        assert(p[2 * t + 1] == msg[t]);
        lemma_read_byte(p, dim, 2 * t + 1);
    }
    // the announced length is reached after exactly `len` characters
    assert forall|t: int| 0 <= t <= len implies #[trigger] utf8_len(cand.take(t)) == t by {
        lemma_ascii_prefix_len(cand, t, len, msg);
    }
    lemma_first_stop_skip(cand, len, len - 1);
    assert(utf8_len(cand.take(len)) == len);
    assert(first_stop(cand, len, len - 1) == len);
    assert(cand.take(len) =~= ascii_text(msg));
}

/// A prefix of single-byte characters takes one byte per character.
proof fn lemma_ascii_prefix_len(cand: Seq<char>, t: int, len: int, msg: Seq<u8>)
    requires
        0 <= t <= len <= cand.len(),
        msg.len() == len,
        forall|i: int| 0 <= i < msg.len() ==> #[trigger] msg[i] < 128,
        forall|i: int| 0 <= i < len ==> #[trigger] cand[i] == msg[i] as char,
    ensures
        utf8_len(cand.take(t)) == t,
    decreases t,
{
    if t > 0 {
        lemma_ascii_prefix_len(cand, t - 1, len, msg);
        assert(cand.take(t) =~= cand.take(t - 1).push(cand[t - 1]));
        lemma_utf8_len_push(cand.take(t - 1), cand[t - 1]);
        assert(msg[t - 1] < 128);
        assert((cand[t - 1] as u32) < 128);
    } else {
        assert(cand.take(0) =~= Seq::<char>::empty());
    }
}

/// The digits of `v` are hex digits that read back as `v`, and there are
/// at most `k` of them when `v < 16^k`.
proof fn lemma_hex_digits_value(v: nat, k: nat)
    requires
        k >= 1,
        v < pow16(k),
    ensures
        all_digits(hex_digits(v), 16),
        digits_value(hex_digits(v), 16) == v,
        1 <= hex_digits(v).len() <= k,
        forall|i: int| 0 <= i < hex_digits(v).len() ==> #[trigger] hex_digits(v)[i] != 'x',
    decreases v,
{
    if v >= 16 {
        assert(k >= 2) by {
            if k == 1 {
                assert(pow16(1) == 16 * pow16(0));
            }
        }
        assert(pow16(k) == 16 * pow16((k - 1) as nat));
        lemma_hex_digits_value(v / 16, (k - 1) as nat);
        let d = hex_digits(v / 16);
        let c = hex_digit((v % 16) as int);
        assert(hex_digits(v) == d.push(c));
        assert(d.push(c).drop_last() =~= d);
        assert(d.push(c).last() == c);
        assert(digit_value(c) == v % 16);
        assert(digits_value(d.push(c), 16) == digits_value(d, 16) * 16 + digit_value(c));
        assert(v == (v / 16) * 16 + v % 16);
    } else {
        let c = hex_digit(v as int);
        assert(digit_value(c) == v);
        assert(hex_digits(v) == seq![c]);
        assert(seq![c].drop_last() =~= Seq::<char>::empty());
        assert(digits_value(seq![c], 16) == digits_value(Seq::<char>::empty(), 16) * 16 + digit_value(c));
    }
}

/// Leading zeros do not change the value of hex digits.
proof fn lemma_leading_zeros(n: nat, d: Seq<char>)
    requires
        all_digits(d, 16),
    ensures
        all_digits(Seq::new(n, |i: int| '0') + d, 16),
        digits_value(Seq::new(n, |i: int| '0') + d, 16) == digits_value(d, 16),
    decreases d.len() + n,
{
    let z = Seq::new(n, |i: int| '0');
    if d.len() == 0 {
        assert(z + d =~= z);
        if n > 0 {
            lemma_leading_zeros((n - 1) as nat, d);
            assert(z.drop_last() =~= Seq::new((n - 1) as nat, |i: int| '0'));
            assert((z + d).drop_last() =~= Seq::new((n - 1) as nat, |i: int| '0') + d);
        }
    } else {
        lemma_leading_zeros(n, d.drop_last());
        assert((z + d).drop_last() =~= z + d.drop_last());
    }
}

/// A word written by the encoder reads back, once padded, as its value.
proof fn lemma_word_reads_back(v: u32)
    ensures
        parse_unsigned(pad8(hex_digits(v as nat)), 16, 0xffff_ffff) == Some(v as int),
{
    reveal_with_fuel(pow16, 9);
    lemma_hex_digits_value(v as nat, 8);
    let d = hex_digits(v as nat);
    let p = pad8(d);
    if d.len() < 8 {
        lemma_leading_zeros((8 - d.len()) as nat, d);
        assert(p[0] == '0');
    } else {
        assert(p == d);
        assert(0 <= digit_value(d[0]) < 16);
    }
}

/// The bit of a packed cell sequence at position `j`, most significant first.
proof fn lemma_shift_step(x: u32, b: u32, k: u32)
    by (bit_vector)
    requires
        b <= 1,
        k <= 31,
    ensures
        k == 0 ==> ((((x << 1u32) | b) >> k) & 1u32) == b,
        k >= 1 ==> ((((x << 1u32) | b) >> k) & 1u32) == ((x >> ((k - 1) as u32)) & 1u32),
{
}

/// Packed cells give each cell back by a shift, most significant first.
proof fn lemma_unpack_bits(t: Seq<u8>, j: int)
    requires
        t.len() <= 32,
        0 <= j < t.len(),
        forall|q: int| 0 <= q < t.len() ==> #[trigger] t[q] <= 1,
    ensures
        ((pack_bits(t) >> ((t.len() - 1 - j) as u32)) & 1u32) == t[j] as u32,
    decreases t.len(),
{
    let n = t.len() as int;
    let x = pack_bits(t.drop_last());
    let b = t.last() as u32;
    assert(pack_bits(t) == ((x << 1u32) | b) as u32);
    let k = (n - 1 - j) as u32;
    lemma_shift_step(x, b, k);
    if j < n - 1 {
        lemma_unpack_bits(t.drop_last(), j);
    }
}

/// Scanning from `a` over a run free of `x` up to the next `"0x"` at `b`,
/// or up to the end, yields the run as one piece.
proof fn lemma_scan_piece(s: Seq<char>, a: int, b: int, i: int)
    requires
        0 <= a <= i <= b <= s.len(),
        a < b,
        forall|q: int| a <= q < b ==> #[trigger] s[q] != 'x',
        b == s.len() || is_0x_at(s, b),
    ensures
        split_scan(s, a, i) == if b == s.len() {
            seq![s.subrange(a, s.len() as int)]
        } else {
            seq![s.subrange(a, b)] + split_scan(s, b + 2, b + 2)
        },
    decreases b - i,
{
    if i < b && i + 1 < s.len() {
        if i + 1 < b {
            assert(s[i + 1] != 'x');
        } else {
            assert(s[b] == '0');
        }
        assert(!is_0x_at(s, i));
        lemma_scan_piece(s, a, b, i + 1);
    }
}

/// The words of the cells `f`, 32 to a word, as the encoder writes their digits.
pub open spec fn words_of(f: Seq<u8>) -> Seq<Seq<char>> {
    Seq::new((f.len() / 32) as nat, |w: int| hex_digits(pack_bits(f.subrange(32 * w, 32 * w + 32)) as nat))
}

/// Where the hex text of `f` ends `s` from `o` on, it starts with `"0x"`
/// there, and the scan after it yields the digits of each word.
proof fn lemma_scan_words(s: Seq<char>, o: int, f: Seq<u8>)
    requires
        f.len() % 32 == 0,
        f.len() >= 32,
        0 <= o,
        o + hex_words(f).len() == s.len(),
        s.subrange(o, s.len() as int) == hex_words(f),
    ensures
        is_0x_at(s, o),
        split_scan(s, o + 2, o + 2) == words_of(f),
    decreases f.len(),
{
    let w0 = pack_bits(f.take(32));
    let d = hex_digits(w0 as nat);
    reveal_with_fuel(pow16, 9);
    lemma_hex_digits_value(w0 as nat, 8);
    let fw = format_word(w0);
    let b = o + 2 + d.len();
    let rest = f.skip(32);
    if f.len() == 32 {
        assert(f.take(32) =~= f);
        assert(hex_words(f) == fw);
    } else {
        assert(hex_words(f) == fw + hex_words(rest));
    }
    assert(s[o] == hex_words(f)[0]);
    assert(s[o + 1] == hex_words(f)[1]);
    assert forall|q: int| o + 2 <= q < b implies #[trigger] s[q] != 'x' by {
        assert(s[q] == hex_words(f)[q - o]);
        assert(hex_words(f)[q - o] == d[q - o - 2]);
    }
    assert forall|q: int| 0 <= q < d.len() implies #[trigger] s.subrange(o + 2, b)[q] == d[q] by {
        assert(s.subrange(o, s.len() as int)[q + 2] == s[o + 2 + q]);
        assert(hex_words(f)[q + 2] == d[q]);
    }
    assert(s.subrange(o + 2, b) =~= d);
    if f.len() == 32 {
        lemma_scan_piece(s, o + 2, b, o + 2);
        assert(words_of(f) =~= seq![d]);
    } else {
        assert forall|q: int| 0 <= q < hex_words(rest).len() implies #[trigger] s.subrange(b, s.len() as int)[q] == hex_words(rest)[q] by {
            assert(s.subrange(o, s.len() as int)[b - o + q] == s[b + q]);
            assert(hex_words(f)[b - o + q] == hex_words(rest)[q]);
        }
        assert(s.subrange(b, s.len() as int) =~= hex_words(rest));
        lemma_scan_words(s, b, rest);
        lemma_scan_piece(s, o + 2, b, o + 2);
        assert forall|w: int| 0 <= w < words_of(rest).len() implies #[trigger] words_of(rest)[w] == words_of(f)[w + 1] by {
            assert(rest.subrange(32 * w, 32 * w + 32) =~= f.subrange(32 * (w + 1), 32 * (w + 1) + 32));
        }
        assert(f.subrange(0, 32) =~= f.take(32));
        assert(words_of(f) =~= seq![d] + words_of(rest));
    }
}

/// The cells of rows of 32 cells, row after row.
proof fn lemma_flatten_cells(m: Seq<Seq<u8>>)
    requires
        forall|i: int| 0 <= i < m.len() ==> #[trigger] m[i].len() == 32,
    ensures
        flatten(m).len() == 32 * m.len(),
        forall|i: int, j: int| 0 <= i < m.len() && 0 <= j < 32 ==> flatten(m)[32 * i + j] == #[trigger] m[i][j],
    decreases m.len(),
{
    if m.len() > 0 {
        let d = m.drop_last();
        lemma_flatten_cells(d);
        assert forall|i: int, j: int| 0 <= i < m.len() && 0 <= j < 32 implies flatten(m)[32 * i + j] == #[trigger] m[i][j] by {
            if i < m.len() - 1 {
                assert(d[i][j] == m[i][j]);
            }
        }
    }
}

/// A 32x32 bit matrix written as hex text the way the encoder writes it
/// reads back, the way the decoder reads it, as the same matrix.
pub proof fn lemma_hex_text_reads_back(m: Seq<Seq<u8>>)
    requires
        m.len() == 32,
        forall|i: int| 0 <= i < 32 ==> #[trigger] m[i].len() == 32,
        forall|i: int, j: int| 0 <= i < 32 && 0 <= j < 32 ==> #[trigger] m[i][j] <= 1,
    ensures
        hex_matrix_ok(hex_words(flatten(m))),
        hex_matrix(hex_words(flatten(m))) == m,
{
    let f = flatten(m);
    lemma_flatten_cells(m);
    let s = hex_words(f);
    assert(s.subrange(0, s.len() as int) =~= s);
    lemma_scan_words(s, 0, f);
    assert(split_scan(s, 0, 0) == seq![s.subrange(0, 0)] + split_scan(s, 2, 2));
    assert(hex_chunks(s) =~= words_of(f));
    assert forall|k: int| 0 <= k < 32 implies #[trigger] parse_unsigned(pad8(hex_chunks(s)[k]), 16, 0xffff_ffff)
        == Some(pack_bits(f.subrange(32 * k, 32 * k + 32)) as int) by {
        lemma_word_reads_back(pack_bits(f.subrange(32 * k, 32 * k + 32)));
    }
    assert(hex_matrix_ok(s));
    assert forall|i: int| 0 <= i < 32 implies #[trigger] hex_matrix(s)[i] =~= m[i] by {
        let t = f.subrange(32 * i, 32 * i + 32);
        assert(chunk_value(s, i) == pack_bits(t) as int);
        assert forall|j: int| 0 <= j < 32 implies #[trigger] hex_matrix(s)[i][j] == m[i][j] by {
            assert forall|q: int| 0 <= q < t.len() implies #[trigger] t[q] <= 1 by {
                assert(t[q] == f[32 * i + q]);
                assert(f[32 * i + q] == m[i][q]);
            }
            lemma_unpack_bits(t, j);
            assert(t[j] == m[i][j]);
        }
    }
    assert(hex_matrix(s) =~= m);
}

/// A whitened bit matrix is still a bit matrix.
proof fn lemma_whitened_bits(m: Seq<Seq<u8>>)
    requires
        m.len() == 32,
        forall|i: int| 0 <= i < 32 ==> #[trigger] m[i].len() == 32,
        forall|i: int, j: int| 0 <= i < 32 && 0 <= j < 32 ==> #[trigger] m[i][j] <= 1,
    ensures
        whiten(m).len() == 32,
        forall|i: int| 0 <= i < 32 ==> #[trigger] whiten(m)[i].len() == 32,
        forall|i: int, j: int| 0 <= i < 32 && 0 <= j < 32 ==> #[trigger] whiten(m)[i][j] <= 1,
{
    assert forall|i: int, j: int| 0 <= i < 32 && 0 <= j < 32 implies #[trigger] whiten(m)[i][j] <= 1 by {
        let a = m[i][j];
        let k = i * 32 + j;
        let byte = crate::keystream::KEYSTREAM@[k / 8];
        let sh = (k % 8) as u8;
        let b = keystream_bit(k);
        assert(b == (byte >> sh) & 1u8);
        assert((byte >> sh) & 1u8 <= 1) by (bit_vector);
        assert(a <= 1 && b <= 1 ==> a ^ b <= 1) by (bit_vector);
    }
}

/// The round trip of the QR service. Take the code that carries a message
/// of 1 to 22 ASCII bytes, turn it by `k` quarter turns and place it at
/// `(r, c)` in a 32x32 bit matrix whose only finder patterns are the
/// code's three; whiten the matrix and write it as hex text the way the
/// encoder does. Then `decode` accepts that text with any decimal time
/// stamp that fits in a `u64`, and the text it reads is the message.
pub proof fn lemma_decode_gives_back_the_message(msg: Seq<u8>, m: Seq<Seq<u8>>, k: int, r: int, c: int, timestamp: Seq<char>)
    requires
        1 <= msg.len() <= 22,
        forall|i: int| 0 <= i < msg.len() ==> #[trigger] msg[i] < 128,
        m.len() == 32,
        forall|i: int| 0 <= i < 32 ==> #[trigger] m[i].len() == 32,
        forall|i: int, j: int| 0 <= i < 32 && 0 <= j < 32 ==> #[trigger] m[i][j] <= 1,
        0 <= k < 4,
        0 <= r,
        0 <= c,
        r + matrix_dim(msg.len() as int) <= 32,
        c + matrix_dim(msg.len() as int) <= 32,
        holds_turned(m, qr_matrix(payload_of(msg), matrix_dim(msg.len() as int)), k, r, c),
        position_patterns(m) == turned_corners(matrix_dim(msg.len() as int), r, c, k),
        parse_unsigned(timestamp, 10, 0xffff_ffff_ffff_ffff) is Some,
    ensures
        decode_ok(hex_words(flatten(whiten(m))), timestamp),
        decoded_text(recovered_code(hex_words(flatten(whiten(m))))) == ascii_text(msg),
{
    let dim = matrix_dim(msg.len() as int);
    let q = qr_matrix(payload_of(msg), dim);
    let x = whiten(m);
    let hex = hex_words(flatten(x));
    lemma_whitened_bits(m);
    lemma_hex_text_reads_back(x);
    lemma_whiten_involution(m);
    assert(whiten(hex_matrix(hex)) == m);
    assert(is_square(q));
    lemma_find_undoes_the_turn(m, q, k, r, c);
    assert(recovered_code(hex) == q);
    lemma_read_back_message(msg);
}

} // verus!
