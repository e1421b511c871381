//! Decoding the message of a QR code hidden in a whitened 32x32 bit matrix.

use vstd::prelude::*;
use vstd::string::StringExecFns;
use crate::encode::{data_length, data_position};
use crate::find::{find_qr_code, find_qr_code_ok, find_qr_code_would_succeed, spec_find_qr_code};
use crate::grid::{lemma_grid_view, zero_grid};
use crate::hexfmt::pack_bits;
use crate::keystream::{whiten, xor_with_logistic_map, rows_cover_dim};
use crate::matrix::{
    get_matrix_position_version1, get_matrix_position_version2,
    lemma_position_version1_in_bounds, lemma_position_version2_in_bounds,
};
use crate::numparse::{parse_unsigned, parse_unsigned_exec};
use crate::rotate::{is_square, rot180, rot270, rot90};
use crate::find::{sub_matrix, corner_and_rest, layout_of, rotation_of};
use crate::text::{chars_to_string, str_to_chars};

verus! {

/// The result of decoding: the team, the request's time stamp, and the text
/// read from the code.
pub struct Data {
    pub team_name: String,
    pub timestamp: u64,
    pub decoded_qrcode: String,
}

/// `"0x"` starts at index `i` of `s`.
pub open spec fn is_0x_at(s: Seq<char>, i: int) -> bool {
    0 <= i && i + 1 < s.len() && s[i] == '0' && s[i + 1] == 'x'
}

/// The pieces of `s[start..]` between the occurrences of `"0x"`, found
/// left to right without overlap; `i` is where the scan for the next
/// occurrence resumes.
pub open spec fn split_scan(s: Seq<char>, start: int, i: int) -> Seq<Seq<char>>
    decreases s.len() - i,
{
    if i + 1 >= s.len() {
        seq![s.subrange(start, s.len() as int)]
    } else if is_0x_at(s, i) {
        seq![s.subrange(start, i)] + split_scan(s, i + 2, i + 2)
    } else {
        split_scan(s, start, i + 1)
    }
}

/// The words of a hex message: what follows each `"0x"`.
pub open spec fn hex_chunks(s: Seq<char>) -> Seq<Seq<char>> {
    split_scan(s, 0, 0).drop_first()
}

/// `w` padded on the left with zeros to at least eight characters.
pub open spec fn pad8(w: Seq<char>) -> Seq<char> {
    if w.len() < 8 {
        Seq::new((8 - w.len()) as nat, |i: int| '0') + w
    } else {
        w
    }
}

/// Value of the `k`-th word of the message, read as a 32-bit hex number.
pub open spec fn chunk_value(s: Seq<char>, k: int) -> int {
    parse_unsigned(pad8(hex_chunks(s)[k]), 16, 0xffff_ffff).unwrap()
}

/// The message has exactly 32 words, each a valid 32-bit hex number.
pub open spec fn hex_matrix_ok(s: Seq<char>) -> bool {
    &&& hex_chunks(s).len() == 32
    &&& forall|k: int| 0 <= k < 32 ==> #[trigger] parse_unsigned(pad8(hex_chunks(s)[k]), 16, 0xffff_ffff) is Some
}

/// The 32x32 bit matrix whose `i`-th row holds the bits of the `i`-th word,
/// most significant first.
pub open spec fn hex_matrix(s: Seq<char>) -> Seq<Seq<u8>> {
    Seq::new(32, |i: int| Seq::new(32, |j: int| (((chunk_value(s, i) as u32) >> ((31 - j) as u32)) & 1u32) as u8))
}

/// The cells of a code of side `dim` read along the data order.
pub open spec fn read_cells(qr: Seq<Seq<u8>>, dim: int) -> Seq<u8> {
    Seq::new(data_length(dim) as nat, |i: int| qr[data_position(dim, i).0][data_position(dim, i).1])
}

/// The `k`-th byte read: eight cells shifted into a buffer.
pub open spec fn byte_at(cells: Seq<u8>, k: int) -> u32 {
    pack_bits(cells.subrange(8 * k, 8 * k + 8))
}

/// The character with the code of the low byte of `b`.
pub open spec fn char_of(b: u32) -> char {
    (b as u8) as char
}

/// Bytes taken by the UTF-8 encoding of `cs`, all of whose codes are below 256.
pub open spec fn utf8_len(cs: Seq<char>) -> int
    decreases cs.len(),
{
    if cs.len() == 0 {
        0
    } else {
        utf8_len(cs.drop_last()) + if (cs.last() as u32) < 128 { 1int } else { 2int }
    }
}

/// Number of bytes read in full before the cells run out.
pub open spec fn bytes_read(dim: int) -> int {
    (data_length(dim) - 1) / 8
}

/// The characters carried by the code: every other byte after the length byte.
pub open spec fn candidates(cells: Seq<u8>, dim: int) -> Seq<char> {
    Seq::new((bytes_read(dim) / 2) as nat, |t: int| char_of(byte_at(cells, 2 * t + 1)))
}

/// How many characters are kept: the first count from `t + 1` on whose
/// UTF-8 length reaches `len`, or all of them.
pub open spec fn first_stop(cand: Seq<char>, len: int, t: int) -> int
    decreases cand.len() - t,
{
    if t >= cand.len() {
        cand.len() as int
    } else if utf8_len(cand.take(t + 1)) == len {
        t + 1
    } else {
        first_stop(cand, len, t + 1)
    }
}

/// The text read from a code: its characters up to the announced length.
pub open spec fn decoded_text(qr: Seq<Seq<u8>>) -> Seq<char> {
    let dim = qr.len() as int;
    let cells = read_cells(qr, dim);
    let cand = candidates(cells, dim);
    cand.take(first_stop(cand, byte_at(cells, 0) as int, 0))
}

/// The code recovered from a hex message.
pub open spec fn recovered_code(s: Seq<char>) -> Seq<Seq<u8>> {
    spec_find_qr_code(whiten(hex_matrix(s)))
}

/// `decode` runs to completion on these inputs.
pub open spec fn decode_ok(hex: Seq<char>, timestamp: Seq<char>) -> bool {
    &&& hex_matrix_ok(hex)
    &&& find_qr_code_ok(whiten(hex_matrix(hex)))
    &&& (recovered_code(hex).len() == 21 || recovered_code(hex).len() >= 25)
    &&& parse_unsigned(timestamp, 10, 0xffff_ffff_ffff_ffff) is Some
}

/// The 32-bit value of a word, padded to eight characters.
fn parse_chunk(chunk: &Vec<char>) -> (r: Option<u32>)
    ensures
        match r {
            Some(v) => parse_unsigned(pad8(chunk@), 16, 0xffff_ffff) == Some(v as int),
            None => parse_unsigned(pad8(chunk@), 16, 0xffff_ffff) is None,
        },
{
    let mut padded: Vec<char> = Vec::new();
    if chunk.len() < 8 {
        let mut z: usize = 0;
        while z < 8 - chunk.len()
            invariant
                chunk@.len() < 8,
                z <= 8 - chunk@.len(),
                padded@ == Seq::new(z as nat, |i: int| '0'),
            decreases 8 - chunk@.len() - z,
        {
            padded.push('0');
            z = z + 1;
            assert(padded@ =~= Seq::new(z as nat, |i: int| '0'));
        }
    }
    let ghost pre = padded@;
    let mut k: usize = 0;
    while k < chunk.len()
        invariant
            k <= chunk@.len(),
            padded@ == pre + chunk@.take(k as int),
        decreases chunk@.len() - k,
    {
        padded.push(chunk[k]);
        k = k + 1;
        assert(padded@ =~= pre + chunk@.take(k as int));
    }
    assert(chunk@.take(chunk@.len() as int) =~= chunk@);
    assert(padded@ =~= pad8(chunk@));
    match parse_unsigned_exec(padded.as_slice(), 16, 0xffff_ffff) {
        Some(v) => Some(v as u32),
        None => None,
    }
}

/// A row of 32 cells holding the bits of `v`, most significant first.
fn bits_row(v: u32) -> (row: Vec<u8>)
    ensures
        row@ == Seq::new(32, |j: int| ((v >> ((31 - j) as u32)) & 1u32) as u8),
{
    let mut row: Vec<u8> = Vec::new();
    let mut j: u32 = 0;
    while j < 32
        invariant
            j <= 32,
            row@ == Seq::new(j as nat, |t: int| ((v >> ((31 - t) as u32)) & 1u32) as u8),
        decreases 32 - j,
    {
        row.push(((v >> (31 - j)) & 1u32) as u8);
        j = j + 1;
        assert(row@ =~= Seq::new(j as nat, |t: int| ((v >> ((31 - t) as u32)) & 1u32) as u8));
    }
    assert(row@ =~= Seq::new(32, |j: int| ((v >> ((31 - j) as u32)) & 1u32) as u8));
    row
}

/// Reads the 32x32 bit matrix written as 32 hex words, each after `0x`.
pub fn str_to_32_by_32_matrix(message: &str) -> (qr_code: Vec<Vec<u8>>)
    requires
        hex_matrix_ok(message@),
    ensures
        qr_code.deep_view() == hex_matrix(message@),
{
    let s = str_to_chars(message);
    let ghost sv = s@;
    let n = s.len();
    let mut qr_code: Vec<Vec<u8>> = Vec::new();
    let ghost mut pieces: Seq<Seq<char>> = Seq::empty();
    let mut chunk: Vec<char> = Vec::new();
    let mut seen_first = false;
    let mut start: usize = 0;
    let mut i: usize = 0;
    while i < n && n - i > 1
        invariant
            sv == s@,
            sv == message@,
            n == sv.len(),
            hex_matrix_ok(sv),
            start <= i <= n,
            i + 1 >= n ==> i == n || i + 1 == n,
            chunk@ == sv.subrange(start as int, i as int),
            pieces + split_scan(sv, start as int, i as int) == split_scan(sv, 0, 0),
            seen_first == (pieces.len() > 0),
            pieces.len() > 0 ==> qr_code@.len() == pieces.len() - 1,
            pieces.len() == 0 ==> qr_code@.len() == 0,
            pieces.len() <= 33,
            forall|k: int| 0 <= k < qr_code@.len() ==> #[trigger] qr_code@[k]@ == hex_matrix(sv)[k],
        decreases n - i,
    {
        if s[i] == '0' && s[i + 1] == 'x' {
            proof {
                assert(is_0x_at(sv, i as int));
                assert(split_scan(sv, start as int, i as int) == seq![sv.subrange(start as int, i as int)] + split_scan(sv, i + 2, i + 2));
                assert(pieces.push(sv.subrange(start as int, i as int)) + split_scan(sv, i + 2, i + 2) =~= split_scan(sv, 0, 0));
            }
            if seen_first {
                proof {
                    let k = pieces.len() - 1;
                    assert(hex_chunks(sv)[k] == split_scan(sv, 0, 0)[k + 1]);
                    assert(split_scan(sv, 0, 0)[k + 1] == chunk@);
                    assert(parse_unsigned(pad8(hex_chunks(sv)[k]), 16, 0xffff_ffff) is Some);
                }
                let v = match parse_chunk(&chunk) {
                    Some(v) => v,
                    None => {
                        proof {
                            assert(false);
                        }
                        0
                    },
                };
                let row = bits_row(v);
                proof {
                    let k = pieces.len() - 1;
                    assert(chunk_value(sv, k) == v as int);
                    assert(row@ =~= hex_matrix(sv)[k]);
                }
                qr_code.push(row);
            }
            proof {
                pieces = pieces.push(sv.subrange(start as int, i as int));
                lemma_split_len(sv, i + 2, i + 2);
                assert(pieces.len() <= split_scan(sv, 0, 0).len());
            }
            seen_first = true;
            chunk = Vec::new();
            i = i + 2;
            start = i;
            assert(chunk@ =~= sv.subrange(start as int, i as int));
        } else {
            chunk.push(s[i]);
            i = i + 1;
            assert(chunk@ =~= sv.subrange(start as int, i as int));
        }
    }
    // the last piece: everything from `start` on
    while i < n
        invariant
            sv == s@,
            n == sv.len(),
            start <= i <= n,
            chunk@ == sv.subrange(start as int, i as int),
        decreases n - i,
    {
        chunk.push(s[i]);
        i = i + 1;
        assert(chunk@ =~= sv.subrange(start as int, i as int));
    }
    proof {
        assert(pieces.push(sv.subrange(start as int, n as int)) =~= split_scan(sv, 0, 0));
        let k = pieces.len() - 1;
        assert(hex_chunks(sv)[k] == chunk@);
    }
    let v = match parse_chunk(&chunk) {
        Some(v) => v,
        None => {
            proof {
                assert(false);
            }
            0
        },
    };
    let row = bits_row(v);
    proof {
        let k = pieces.len() - 1;
        assert(row@ =~= hex_matrix(sv)[k]);
    }
    qr_code.push(row);
    proof {
        lemma_grid_view(&qr_code);
    }
    assert(qr_code.deep_view() =~= hex_matrix(sv));
    qr_code
}

/// Splitting yields at least one piece.
proof fn lemma_split_len(s: Seq<char>, start: int, i: int)
    requires
        0 <= start <= i,
    ensures
        split_scan(s, start, i).len() >= 1,
    decreases s.len() - i,
{
    if i + 1 >= s.len() {
    } else if is_0x_at(s, i) {
        lemma_split_len(s, i + 2, i + 2);
    } else {
        lemma_split_len(s, start, i + 1);
    }
}

/// Cell of the `ind`-th data bit in a code of side 21, or of side 25 or more.
fn read_position(dim: usize, ind: usize) -> (yx: (usize, usize))
    requires
        dim == 21 || dim >= 25,
        ind < data_length(dim as int),
    ensures
        (yx.0 as int, yx.1 as int) == data_position(dim as int, ind as int),
        yx.0 < dim,
        yx.1 < dim,
{
    proof {
        if dim == 21 {
            lemma_position_version1_in_bounds(ind as int);
        } else {
            lemma_position_version2_in_bounds(ind as int);
        }
    }
    let pos = if dim == 21 {
        get_matrix_position_version1(ind as u64)
    } else {
        get_matrix_position_version2(ind as u64)
    };
    (pos.row as usize, pos.col as usize)
}

/// Counts whose UTF-8 length misses `len` can be skipped.
pub(crate) proof fn lemma_first_stop_skip(cand: Seq<char>, len: int, k: int)
    requires
        0 <= k <= cand.len(),
        forall|t: int| 1 <= t <= k ==> utf8_len(#[trigger] cand.take(t)) != len,
    ensures
        first_stop(cand, len, 0) == first_stop(cand, len, k),
    decreases k,
{
    if k > 0 {
        lemma_first_stop_skip(cand, len, k - 1);
        assert(utf8_len(cand.take(k)) != len);
    }
}

/// One more character adds its UTF-8 length.
pub(crate) proof fn lemma_utf8_len_push(cs: Seq<char>, c: char)
    ensures
        utf8_len(cs.push(c)) == utf8_len(cs) + if (c as u32) < 128 { 1int } else { 2int },
{
    assert(cs.push(c).drop_last() =~= cs);
}

/// The code found is square.
proof fn lemma_find_result_square(m: Seq<Seq<u8>>)
    ensures
        is_square(spec_find_qr_code(m)),
{
    let (c, rest) = corner_and_rest(m);
    if c.row != 26 {
        let l = layout_of(rest, c);
        let block = sub_matrix(m, l.start_row, l.start_col, l.size);
        assert(is_square(block));
        assert(is_square(rot90(block)));
        assert(is_square(rot270(block)));
        assert(is_square(rot180(block)));
    }
}

/// Reads the text carried by a code of side 21, or of side 25 or more.
pub fn read_message(qr_code: &Vec<Vec<u8>>) -> (text: Vec<char>)
    requires
        qr_code@.len() == 21 || qr_code@.len() >= 25,
        is_square(qr_code.deep_view()),
    ensures
        text@ == decoded_text(qr_code.deep_view()),
{
    proof {
        lemma_grid_view(qr_code);
    }
    let ghost q = qr_code.deep_view();
    let matrix_dim = qr_code.len();
    let ghost dim = matrix_dim as int;
    let ghost cells = read_cells(q, dim);
    let ghost cand = candidates(cells, dim);
    let str_length: usize = if matrix_dim == 21 { 224 } else { 370 };
    let mut char_string: Vec<char> = Vec::new();
    let mut byte_len: usize = 0;
    let mut bit_buffer: u32 = 0;
    let mut bits_collected: usize = 0;
    let mut is_first = true;
    let mut is_correcting_byte = false;
    let mut true_length: usize = 0;
    let ghost mut p: int = 0;
    let mut ind: usize = 0;
    while ind < str_length
        invariant
            q == qr_code.deep_view(),
            forall|k: int| 0 <= k < qr_code@.len() ==> #[trigger] q[k] == qr_code@[k]@,
            dim == matrix_dim,
            matrix_dim == qr_code@.len(),
            matrix_dim == 21 || matrix_dim >= 25,
            is_square(q),
            cells == read_cells(q, dim),
            cand == candidates(cells, dim),
            str_length == data_length(dim),
            ind <= str_length,
            0 <= p,
            bits_collected == ind - 8 * p,
            bits_collected <= 8,
            bit_buffer == pack_bits(cells.subrange(8 * p, ind as int)),
            is_first == (p == 0),
            p >= 1 ==> is_correcting_byte == (p % 2 == 0),
            p == 0 ==> !is_correcting_byte,
            p >= 1 ==> true_length == byte_at(cells, 0) as int,
            p / 2 <= cand.len(),
            char_string@ == cand.take(p / 2),
            byte_len == utf8_len(char_string@),
            byte_len <= 2 * char_string@.len(),
            forall|t: int| 1 <= t <= p / 2 ==> utf8_len(#[trigger] cand.take(t)) != byte_at(cells, 0) as int,
        decreases str_length - ind,
    {
        if bits_collected == 8 {
            proof {
                assert(cells.subrange(8 * p, ind as int) == cells.subrange(8 * p, 8 * p + 8));
            }
            if is_first {
                true_length = bit_buffer as usize;
                is_first = false;
            } else {
                if is_correcting_byte {
                    is_correcting_byte = false;
                } else {
                    let c = (#[verifier::truncate] (bit_buffer as u8)) as char;
                    proof {
                        assert(p % 2 == 1);
                        assert(8 * p + 8 <= data_length(dim) - 1);
                        assert(p / 2 < cand.len());
                        assert(cand[p / 2] == char_of(byte_at(cells, 2 * (p / 2) + 1)));
                        assert(2 * (p / 2) + 1 == p);
                        assert(c == cand[p / 2]);
                        assert(cand.take(p / 2).push(c) =~= cand.take(p / 2 + 1));
                        lemma_utf8_len_push(char_string@, c);
                    }
                    char_string.push(c);
                    if (c as u32) < 128 {
                        byte_len = byte_len + 1;
                    } else {
                        byte_len = byte_len + 2;
                    }
                    is_correcting_byte = true;
                    if byte_len == true_length {
                        proof {
                            lemma_first_stop_skip(cand, byte_at(cells, 0) as int, p / 2);
                        }
                        return char_string;
                    }
                }
            }
            proof {
                p = p + 1;
            }
            bits_collected = 0;
            bit_buffer = 0;
            assert(cells.subrange(8 * p, ind as int) =~= Seq::<u8>::empty());
        }
        let (y, x) = read_position(matrix_dim, ind);
        assert(q[y as int].len() == matrix_dim);
        let cell = qr_code[y][x];
        proof {
            assert(cell == cells[ind as int]);
            assert(cells.subrange(8 * p, ind + 1).drop_last() =~= cells.subrange(8 * p, ind as int));
            assert(cells.subrange(8 * p, ind + 1).last() == cell);
            assert(pack_bits(cells.subrange(8 * p, ind + 1)) == ((pack_bits(cells.subrange(8 * p, ind as int)) << 1u32) | (cell as u32)) as u32);
        }
        bit_buffer = (bit_buffer << 1u32) | (cell as u32);
        bits_collected = bits_collected + 1;
        ind = ind + 1;
    }
    proof {
        assert(p == bytes_read(dim));
        assert(p / 2 == cand.len());
        lemma_first_stop_skip(cand, byte_at(cells, 0) as int, p / 2);
        assert(cand.take(p / 2) =~= cand);
    }
    char_string
}

/// Decodes the QR code hidden in the whitened 32x32 matrix written in hex.
pub fn decode(hex_message: &str, timestamp: &str) -> (data: Data)
    requires
        decode_ok(hex_message@, timestamp@),
    ensures
        data.team_name@ == "CCprojectFor3"@,
        data.timestamp as int == parse_unsigned(timestamp@, 10, 0xffff_ffff_ffff_ffff).unwrap(),
        data.decoded_qrcode@ == decoded_text(recovered_code(hex_message@)),
{
    let mut decoded_matrix = str_to_32_by_32_matrix(hex_message);
    proof {
        lemma_grid_view(&decoded_matrix);
        assert(rows_cover_dim(decoded_matrix.deep_view()));
    }
    xor_with_logistic_map(&mut decoded_matrix);
    let qr_code = find_qr_code(&decoded_matrix);
    proof {
        lemma_grid_view(&qr_code);
        lemma_find_result_square(whiten(hex_matrix(hex_message@)));
    }
    let text = read_message(&qr_code);
    let ts_chars = str_to_chars(timestamp);
    let ts = match parse_unsigned_exec(ts_chars.as_slice(), 10, 0xffff_ffff_ffff_ffff) {
        Some(v) => v,
        None => {
            proof {
                assert(false);
            }
            0
        },
    };
    Data {
        team_name: String::from_str("CCprojectFor3"),
        timestamp: ts,
        decoded_qrcode: chars_to_string(text.as_slice()),
    }
}

/// The pieces of the characters `s` between the occurrences of `"0x"`.
fn split_0x(s: &Vec<char>) -> (pieces: Vec<Vec<char>>)
    ensures
        pieces@.len() == split_scan(s@, 0, 0).len(),
        forall|k: int| 0 <= k < pieces@.len() ==> #[trigger] pieces@[k]@ == split_scan(s@, 0, 0)[k],
{
    let ghost sv = s@;
    let n = s.len();
    let mut pieces: Vec<Vec<char>> = Vec::new();
    let ghost mut pv: Seq<Seq<char>> = Seq::empty();
    let mut chunk: Vec<char> = Vec::new();
    let mut start: usize = 0;
    let mut i: usize = 0;
    while i < n && n - i > 1
        invariant
            sv == s@,
            n == sv.len(),
            start <= i <= n,
            chunk@ == sv.subrange(start as int, i as int),
            pv + split_scan(sv, start as int, i as int) == split_scan(sv, 0, 0),
            pieces@.len() == pv.len(),
            forall|k: int| 0 <= k < pieces@.len() ==> #[trigger] pieces@[k]@ == pv[k],
        decreases n - i,
    {
        if s[i] == '0' && s[i + 1] == 'x' {
            proof {
                assert(is_0x_at(sv, i as int));
                assert(pv.push(sv.subrange(start as int, i as int)) + split_scan(sv, i + 2, i + 2) =~= split_scan(sv, 0, 0));
                pv = pv.push(sv.subrange(start as int, i as int));
            }
            pieces.push(chunk);
            chunk = Vec::new();
            i = i + 2;
            start = i;
            assert(chunk@ =~= sv.subrange(start as int, i as int));
        } else {
            chunk.push(s[i]);
            i = i + 1;
            assert(chunk@ =~= sv.subrange(start as int, i as int));
        }
    }
    while i < n
        invariant
            sv == s@,
            n == sv.len(),
            start <= i <= n,
            chunk@ == sv.subrange(start as int, i as int),
        decreases n - i,
    {
        chunk.push(s[i]);
        i = i + 1;
        assert(chunk@ =~= sv.subrange(start as int, i as int));
    }
    proof {
        assert(pv.push(sv.subrange(start as int, n as int)) =~= split_scan(sv, 0, 0));
        pv = pv.push(sv.subrange(start as int, n as int));
    }
    pieces.push(chunk);
    pieces
}

/// Whether the message is 32 hex words, each after `0x`, that
/// `str_to_32_by_32_matrix` can read.
pub fn hex_matrix_would_parse(message: &str) -> (b: bool)
    ensures
        b == hex_matrix_ok(message@),
{
    let s = str_to_chars(message);
    let pieces = split_0x(&s);
    let ghost words = hex_chunks(message@);
    proof {
        lemma_split_len(message@, 0, 0);
        assert(words.len() == pieces@.len() - 1);
    }
    if pieces.len() != 33 {
        return false;
    }
    let mut k: usize = 1;
    while k < 33
        invariant
            pieces@.len() == 33,
            s@ == message@,
            words == hex_chunks(message@),
            words.len() == 32,
            forall|q: int| 0 <= q < 32 ==> #[trigger] words[q] == pieces@[q + 1]@,
            1 <= k <= 33,
            forall|q: int| 0 <= q < k - 1 ==> #[trigger] parse_unsigned(pad8(words[q]), 16, 0xffff_ffff) is Some,
        decreases 33 - k,
    {
        if parse_chunk(&pieces[k]).is_none() {
            assert(parse_unsigned(pad8(words[k - 1]), 16, 0xffff_ffff) is None);
            return false;
        }
        k = k + 1;
    }
    true
}

/// Decodes the hidden code where `decode` runs to completion on the
/// inputs; `None` where it would not.
pub fn decode_checked(hex_message: &str, timestamp: &str) -> (r: Option<Data>)
    ensures
        r is Some <==> decode_ok(hex_message@, timestamp@),
        r matches Some(data) ==> {
            &&& data.team_name@ == "CCprojectFor3"@
            &&& data.timestamp as int == parse_unsigned(timestamp@, 10, 0xffff_ffff_ffff_ffff).unwrap()
            &&& data.decoded_qrcode@ == decoded_text(recovered_code(hex_message@))
        },
{
    if !hex_matrix_would_parse(hex_message) {
        return None;
    }
    let mut m = str_to_32_by_32_matrix(hex_message);
    proof {
        lemma_grid_view(&m);
        assert(rows_cover_dim(m.deep_view()));
    }
    xor_with_logistic_map(&mut m);
    if !find_qr_code_would_succeed(&m) {
        return None;
    }
    let qr = find_qr_code(&m);
    proof {
        lemma_grid_view(&qr);
    }
    if !(qr.len() == 21 || qr.len() >= 25) {
        return None;
    }
    let ts_chars = str_to_chars(timestamp);
    if parse_unsigned_exec(ts_chars.as_slice(), 10, 0xffff_ffff_ffff_ffff).is_none() {
        return None;
    }
    Some(decode(hex_message, timestamp))
}

} // verus!
