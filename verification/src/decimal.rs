//! Decimal rendering of integers.

use vstd::prelude::*;

verus! {

/// Decimal digit `d < 10`.
pub open spec fn dec_digit(d: int) -> char {
    (('0' as int) + d) as char
}

/// Decimal digits of `v`, without leading zeros (`"0"` for zero).
pub open spec fn dec_digits(v: nat) -> Seq<char>
    decreases v,
{
    if v < 10 {
        seq![dec_digit(v as int)]
    } else {
        dec_digits(v / 10).push(dec_digit((v % 10) as int))
    }
}

/// Decimal digit for `d < 10`.
pub fn dec_digit_exec(d: u64) -> (c: char)
    requires
        d < 10,
    ensures
        c == dec_digit(d as int),
{
    let b: u8 = 48u8 + (d as u8);
    b as char
}

/// The decimal digits of `v`, as `to_string` writes them.
pub fn u64_to_decimal(v: u64) -> (ds: Vec<char>)
    ensures
        ds@ == dec_digits(v as nat),
{
    let mut rev: Vec<char> = Vec::new();
    let mut w: u64 = v;
    loop
        invariant_except_break
            dec_digits(v as nat) == dec_digits(w as nat) + rev@.reverse(),
        ensures
            dec_digits(v as nat) == rev@.reverse(),
        decreases w,
    {
        let c = dec_digit_exec(w % 10);
        let ghost before = rev@;
        rev.push(c);
        proof {
            assert(rev@.reverse() =~= seq![c] + before.reverse());
        }
        if w < 10 {
            assert(dec_digits(v as nat) =~= rev@.reverse());
            break;
        }
        w = w / 10;
        assert(dec_digits(v as nat) =~= dec_digits(w as nat) + rev@.reverse());
    }
    let n = rev.len();
    let mut out: Vec<char> = Vec::new();
    let mut i: usize = n;
    while i > 0
        invariant
            i <= n,
            n == rev@.len(),
            out@ == rev@.reverse().take((n - i) as int),
        decreases i,
    {
        i = i - 1;
        out.push(rev[i]);
        assert(out@ =~= rev@.reverse().take((n - i) as int));
    }
    assert(rev@.reverse().take(n as int) =~= rev@.reverse());
    out
}

/// The decimal text `to_string` gives for an integer.
pub open spec fn int_to_decimal(v: int) -> Seq<char> {
    if v < 0 {
        seq!['-'] + dec_digits((-v) as nat)
    } else {
        dec_digits(v as nat)
    }
}

/// The decimal digits of `v`, with a leading `-` when negative.
pub fn i64_to_decimal(v: i64) -> (ds: Vec<char>)
    ensures
        ds@ == int_to_decimal(v as int),
{
    if v >= 0 {
        return u64_to_decimal(v as u64);
    }
    let m: u64 = if v == i64::MIN {
        9223372036854775808u64
    } else {
        (-v) as u64
    };
    assert(m as int == -(v as int));
    let digits = u64_to_decimal(m);
    let mut out: Vec<char> = Vec::new();
    out.push('-');
    let mut j: usize = 0;
    while j < digits.len()
        invariant
            j <= digits@.len(),
            out@ == seq!['-'] + digits@.take(j as int),
        decreases digits@.len() - j,
    {
        out.push(digits[j]);
        j = j + 1;
        assert(out@ =~= seq!['-'] + digits@.take(j as int));
    }
    assert(digits@.take(digits@.len() as int) =~= digits@);
    out
}

} // verus!
