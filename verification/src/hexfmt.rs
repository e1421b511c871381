//! Rendering a bit matrix as a sequence of `0x`-prefixed 32-bit hex words.

use vstd::prelude::*;
use crate::grid::lemma_grid_view;
use crate::text::chars_to_string;

verus! {

/// Lower-case hexadecimal digit of `d < 16`.
pub open spec fn hex_digit(d: int) -> char {
    if d < 10 {
        (('0' as int) + d) as char
    } else {
        (('a' as int) + d - 10) as char
    }
}

/// Lower-case hexadecimal digits of `v`, without leading zeros (`"0"` for zero).
pub open spec fn hex_digits(v: nat) -> Seq<char>
    decreases v,
{
    if v < 16 {
        seq![hex_digit(v as int)]
    } else {
        hex_digits(v / 16).push(hex_digit((v % 16) as int))
    }
}

/// `"0x"` followed by the digits of `v`.
pub open spec fn format_word(v: u32) -> Seq<char> {
    seq!['0', 'x'] + hex_digits(v as nat)
}

/// The cells of a matrix, row after row.
pub open spec fn flatten(m: Seq<Seq<u8>>) -> Seq<u8>
    decreases m.len(),
{
    if m.len() == 0 {
        Seq::empty()
    } else {
        flatten(m.drop_last()) + m.last()
    }
}

/// Cells shifted into a 32-bit buffer one after another, as `(acc << 1) | cell`.
pub open spec fn pack_bits(s: Seq<u8>) -> u32
    decreases s.len(),
{
    if s.len() == 0 {
        0
    } else {
        ((pack_bits(s.drop_last()) << 1u32) | (s.last() as u32)) as u32
    }
}

/// Each run of 32 cells, and the shorter run left at the end, rendered as a word.
pub open spec fn hex_words(s: Seq<u8>) -> Seq<char>
    decreases s.len(),
{
    if s.len() == 0 {
        Seq::empty()
    } else if s.len() <= 32 {
        format_word(pack_bits(s))
    } else {
        format_word(pack_bits(s.take(32))) + hex_words(s.skip(32))
    }
}

/// Lower-case hex digit of `d < 16`.
fn hex_digit_exec(d: u32) -> (c: char)
    requires
        d < 16,
    ensures
        c == hex_digit(d as int),
{
    if d < 10 {
        let b: u8 = 48u8 + (d as u8);
        b as char
    } else {
        let b: u8 = 97u8 + (d as u8) - 10u8;
        b as char
    }
}

/// Renders `bit_buffer` as `0x` followed by its lower-case hex digits,
/// without leading zeros.
pub fn format_bit_buffer(bit_buffer: u32) -> (r: String)
    ensures
        r@ == format_word(bit_buffer),
{
    let mut digits: Vec<char> = Vec::new();
    let mut v: u32 = bit_buffer;
    loop
        invariant_except_break
            hex_digits(bit_buffer as nat) == hex_digits(v as nat) + digits@.reverse(),
        ensures
            hex_digits(bit_buffer as nat) == digits@.reverse(),
        decreases v,
    {
        let d = v % 16;
        let c = hex_digit_exec(d);
        let ghost before = digits@;
        digits.push(c);
        proof {
            assert(digits@.reverse() =~= seq![c] + before.reverse());
        }
        if v < 16 {
            assert(hex_digits(bit_buffer as nat) =~= digits@.reverse());
            break;
        }
        v = v / 16;
        assert(hex_digits(bit_buffer as nat) =~= hex_digits(v as nat) + digits@.reverse());
    }
    let mut out: Vec<char> = Vec::new();
    out.push('0');
    out.push('x');
    let n = digits.len();
    let mut i: usize = n;
    while i > 0
        invariant
            i <= n,
            n == digits@.len(),
            out@ == seq!['0', 'x'] + digits@.reverse().take((n - i) as int),
        decreases i,
    {
        i = i - 1;
        out.push(digits[i]);
        assert(out@ =~= seq!['0', 'x'] + digits@.reverse().take((n - i) as int));
    }
    assert(digits@.reverse().take(n as int) =~= digits@.reverse());
    assert(out@ =~= format_word(bit_buffer));
    chars_to_string(out.as_slice())
}

/// Splitting off whole 32-cell runs does not change the rendering.
pub proof fn lemma_hex_words_split(s: Seq<u8>, q: int)
    requires
        0 <= q,
        32 * q <= s.len(),
    ensures
        hex_words(s) == hex_words(s.take(32 * q)) + hex_words(s.skip(32 * q)),
    decreases q,
{
    if q == 0 {
        assert(s.take(0) =~= Seq::<u8>::empty());
        assert(s.skip(0) =~= s);
        assert(hex_words(s) =~= hex_words(s.take(0)) + hex_words(s.skip(0)));
    } else {
        lemma_hex_words_split(s, q - 1);
        let t = s.take(32 * q);
        lemma_hex_words_split(t, q - 1);
        let rest = s.skip(32 * (q - 1));
        assert(t.take(32 * (q - 1)) =~= s.take(32 * (q - 1)));
        let chunk = t.skip(32 * (q - 1));
        assert(chunk.len() == 32);
        assert(rest.take(32) =~= chunk);
        assert(rest.skip(32) =~= s.skip(32 * q));
        if rest.len() == 32 {
            assert(s.skip(32 * q).len() == 0);
            assert(hex_words(s.skip(32 * q)) =~= Seq::<char>::empty());
            assert(rest =~= chunk);
        }
        assert(hex_words(s) =~= hex_words(s.take(32 * q)) + hex_words(s.skip(32 * q)));
    }
}

/// Flattening one more row appends its cells.
proof fn lemma_flatten_step(m: Seq<Seq<u8>>, y: int)
    requires
        0 <= y < m.len(),
    ensures
        flatten(m.take(y + 1)) == flatten(m.take(y)) + m[y],
{
    assert(m.take(y + 1).drop_last() =~= m.take(y));
}

/// Renders the cells of `qr_code`, row after row, as 32-bit hex words; a
/// final partial word holds the remaining cells in its low bits.
pub fn qr_code_matrix_to_hex_string(qr_code: &Vec<Vec<u8>>) -> (r: String)
    ensures
        r@ == hex_words(flatten(qr_code.deep_view())),
{
    let ghost m = qr_code.deep_view();
    proof {
        lemma_grid_view(qr_code);
    }
    let mut out: Vec<char> = Vec::new();
    let mut bit_buffer: u32 = 0;
    let mut bits_collected: usize = 0;
    let ghost mut done: Seq<u8> = Seq::empty();
    let mut y: usize = 0;
    while y < qr_code.len()
        invariant
            m == qr_code.deep_view(),
            m.len() == qr_code@.len(),
            forall|k: int| 0 <= k < m.len() ==> #[trigger] m[k] == qr_code@[k]@,
            y <= m.len(),
            done == flatten(m.take(y as int)),
            bits_collected < 32,
            bits_collected <= done.len(),
            (done.len() - bits_collected) % 32 == 0,
            out@ == hex_words(done.take(done.len() - bits_collected)),
            bit_buffer == pack_bits(done.skip(done.len() - bits_collected)),
        decreases m.len() - y,
    {
        let row = &qr_code[y];
        let mut x: usize = 0;
        while x < row.len()
            invariant
                m == qr_code.deep_view(),
                y < m.len(),
                m[y as int] == row@,
                x <= row@.len(),
                done == flatten(m.take(y as int)) + row@.take(x as int),
                bits_collected < 32,
                bits_collected <= done.len(),
                (done.len() - bits_collected) % 32 == 0,
                out@ == hex_words(done.take(done.len() - bits_collected)),
                bit_buffer == pack_bits(done.skip(done.len() - bits_collected)),
            decreases row@.len() - x,
        {
            let bit = row[x];
            let ghost old_done = done;
            let ghost start = done.len() - bits_collected;
            proof {
                done = done.push(bit);
                assert(done =~= flatten(m.take(y as int)) + row@.take(x + 1));
                assert(done.skip(start).drop_last() =~= old_done.skip(start));
                assert(done.skip(start).last() == bit);
                assert(done.take(start) =~= old_done.take(start));
            }
            bit_buffer = (bit_buffer << 1u32) | (bit as u32);
            bits_collected = bits_collected + 1;
            if bits_collected == 32 {
                let word = format_bit_buffer(bit_buffer);
                let ghost before = out@;
                let mut k: usize = 0;
                let wlen = word.as_str().unicode_len();
                let ws = word.as_str();
                while k < wlen
                    invariant
                        wlen == ws@.len(),
                        k <= wlen,
                        out@ == before + ws@.take(k as int),
                    decreases wlen - k,
                {
                    out.push(ws.get_char(k));
                    k = k + 1;
                    assert(out@ =~= before + ws@.take(k as int));
                }
                proof {
                    assert(ws@.take(wlen as int) =~= ws@);
                    let whole = done.take(done.len() as int);
                    assert(whole =~= done);
                    lemma_hex_words_split(done, (start / 32) as int);
                    assert(done.skip(start).len() == 32);
                    assert(hex_words(done.skip(start)) == format_word(pack_bits(done.skip(start))));
                    assert(done.skip(done.len() as int) =~= Seq::<u8>::empty());
                }
                bit_buffer = 0;
                bits_collected = 0;
            }
            x = x + 1;
        }
        proof {
            lemma_flatten_step(m, y as int);
            assert(row@.take(row@.len() as int) =~= row@);
        }
        y = y + 1;
    }
    assert(m.take(m.len() as int) =~= m);
    if bits_collected > 0 {
        let word = format_bit_buffer(bit_buffer);
        let ghost before = out@;
        let ws = word.as_str();
        let wlen = ws.unicode_len();
        let mut k: usize = 0;
        while k < wlen
            invariant
                wlen == ws@.len(),
                k <= wlen,
                out@ == before + ws@.take(k as int),
            decreases wlen - k,
        {
            out.push(ws.get_char(k));
            k = k + 1;
            assert(out@ =~= before + ws@.take(k as int));
        }
        proof {
            assert(ws@.take(wlen as int) =~= ws@);
            let start = done.len() - bits_collected;
            lemma_hex_words_split(done, (start / 32) as int);
        }
    } else {
        assert(done.take(done.len() as int) =~= done);
    }
    chars_to_string(out.as_slice())
}

} // verus!
