//! Signed integers of any size written in a radix, as `num::BigInt` reads
//! and writes them, and adding ten minutes to a time stamp.

use vstd::prelude::*;
use vstd::arithmetic::power::pow;
use crate::decimal::{dec_digit, dec_digits, dec_digit_exec, int_to_decimal, u64_to_decimal};
use crate::numparse::{all_digits, digit_value, digits_value, parse_unsigned, parse_unsigned_exec};
use crate::text::{chars_to_string, str_to_chars};

verus! {

/// `s` with every underscore removed.
pub open spec fn remove_underscores(s: Seq<char>) -> Seq<char>
    decreases s.len(),
{
    if s.len() == 0 {
        Seq::empty()
    } else if s.last() == '_' {
        remove_underscores(s.drop_last())
    } else {
        remove_underscores(s.drop_last()).push(s.last())
    }
}

/// Whether the text of `s` is negative, as `BigInt::from_str_radix` decides:
/// a leading `-` not followed by `+`.
pub open spec fn bigint_negative(s: Seq<char>) -> bool {
    s.len() >= 1 && s[0] == '-' && !(s.len() >= 2 && s[1] == '+')
}

/// The magnitude part of `s`: the sign removed as `BigInt::from_str_radix`
/// and `BigUint::from_str_radix` remove it.
pub open spec fn bigint_magnitude(s: Seq<char>) -> Seq<char> {
    let t = if bigint_negative(s) { s.skip(1) } else { s };
    if t.len() >= 1 && t[0] == '+' && !(t.len() >= 2 && t[1] == '+') {
        t.skip(1)
    } else {
        t
    }
}

/// `c` is an underscore or a digit below `radix`.
pub open spec fn is_bigint_char(c: char, radix: int) -> bool {
    c == '_' || (0 <= digit_value(c) < radix)
}

/// What `BigInt::from_str_radix(s, radix)` gives: `None` for an error.
pub open spec fn bigint_parse(s: Seq<char>, radix: int) -> Option<int> {
    let u = bigint_magnitude(s);
    if u.len() == 0 || u[0] == '_' || !(forall|i: int| 0 <= i < u.len() ==> #[trigger] is_bigint_char(u[i], radix)) {
        None
    } else {
        let v = digits_value(remove_underscores(u), radix);
        Some(if bigint_negative(s) { -v } else { v })
    }
}

/// Ten minutes, in nanoseconds.
pub const TEN_MINUTES: u64 = 600000000000;

/// The time stamp ten minutes after `a`, or `N\A` when `a` is no integer.
pub open spec fn ten_minutes_later(a: Seq<char>) -> Seq<char> {
    match bigint_parse(a, 10) {
        Some(v) => int_to_decimal(v + TEN_MINUTES),
        None => seq!['N', '\\', 'A'],
    }
}

/// Value of the digits `ds`, least significant first.
pub open spec fn lsb_value(ds: Seq<u8>) -> int
    decreases ds.len(),
{
    if ds.len() == 0 {
        0
    } else {
        ds[0] + 10 * lsb_value(ds.drop_first())
    }
}

/// Every entry of `ds` is a decimal digit.
pub open spec fn all_dec(ds: Seq<u8>) -> bool {
    forall|i: int| 0 <= i < ds.len() ==> #[trigger] ds[i] < 10
}

/// Appending a digit adds it at the next power of ten.
proof fn lemma_lsb_push(ds: Seq<u8>, d: u8)
    ensures
        lsb_value(ds.push(d)) == lsb_value(ds) + d * pow(10, ds.len()),
    decreases ds.len(),
{
    if ds.len() == 0 {
        assert(ds.push(d).drop_first() =~= Seq::<u8>::empty());
        assert(lsb_value(Seq::<u8>::empty()) == 0);
        vstd::arithmetic::power::lemma_pow0(10);
        assert(lsb_value(ds.push(d)) == d);
    } else {
        lemma_lsb_push(ds.drop_first(), d);
        assert(ds.push(d).drop_first() =~= ds.drop_first().push(d));
        assert(ds.push(d)[0] == ds[0]);
        vstd::arithmetic::power::lemma_pow_adds(10, 1, (ds.len() - 1) as nat);
        vstd::arithmetic::power::lemma_pow1(10);
        let p = pow(10, (ds.len() - 1) as nat);
        assert(10 * (lsb_value(ds.drop_first()) + d * p) == 10 * lsb_value(ds.drop_first()) + d * (10 * p)) by (nonlinear_arith);
    }
}

/// Decimal digits are worth less than ten to the power of their count.
proof fn lemma_lsb_bounds(ds: Seq<u8>)
    requires
        all_dec(ds),
    ensures
        0 <= lsb_value(ds) < pow(10, ds.len()),
    decreases ds.len(),
{
    vstd::arithmetic::power::lemma_pow0(10);
    if ds.len() > 0 {
        lemma_lsb_bounds(ds.drop_first());
        vstd::arithmetic::power::lemma_pow_adds(10, 1, (ds.len() - 1) as nat);
        vstd::arithmetic::power::lemma_pow1(10);
        let p = pow(10, (ds.len() - 1) as nat);
        let r = lsb_value(ds.drop_first());
        assert(ds[0] + 10 * r < 10 * p) by (nonlinear_arith)
            requires
                ds[0] < 10,
                r < p,
                0 <= r,
        ;
    }
}

/// The digits of `ds` from index `k` on; empty past the end.
pub open spec fn tail_from(ds: Seq<u8>, k: int) -> Seq<u8> {
    if k >= ds.len() {
        Seq::empty()
    } else {
        ds.skip(k)
    }
}

/// Nothing is left past the end of the digits.
proof fn lemma_lsb_skip_end(ds: Seq<u8>, k: int)
    requires
        k >= ds.len(),
    ensures
        lsb_value(tail_from(ds, k)) == 0,
{
}

/// Digit `k` of `ds`, zero past the end.
pub open spec fn digit_or_zero(ds: Seq<u8>, k: int) -> int {
    if 0 <= k < ds.len() { ds[k] as int } else { 0 }
}

/// The digits from `k` on are digit `k` plus ten times those after it.
proof fn lemma_lsb_skip_any(ds: Seq<u8>, k: int)
    requires
        0 <= k,
    ensures
        lsb_value(tail_from(ds, k)) == digit_or_zero(ds, k) + 10 * lsb_value(tail_from(ds, k + 1)),
{
    if k < ds.len() {
        assert(ds.skip(k).drop_first() =~= tail_from(ds, k + 1));
        assert(ds.skip(k)[0] == ds[k]);
    }
}

/// `a + b` on digit vectors, least significant first.
fn add_digits(a: &Vec<u8>, b: &Vec<u8>) -> (out: Vec<u8>)
    requires
        all_dec(a@),
        all_dec(b@),
    ensures
        all_dec(out@),
        lsb_value(out@) == lsb_value(a@) + lsb_value(b@),
{
    let la = a.len();
    let lb = b.len();
    let m = if la > lb { la } else { lb };
    let mut out: Vec<u8> = Vec::new();
    let mut carry: u8 = 0;
    let mut k: usize = 0;
    proof {
        assert(a@.len() > 0 ==> a@.skip(0) =~= a@);
        assert(b@.len() > 0 ==> b@.skip(0) =~= b@);
        assert(lsb_value(tail_from(a@, 0)) == lsb_value(a@));
        assert(lsb_value(tail_from(b@, 0)) == lsb_value(b@));
        vstd::arithmetic::power::lemma_pow0(10);
    }
    while k < m
        invariant
            la == a@.len(),
            lb == b@.len(),
            m == if la > lb { la } else { lb },
            all_dec(a@),
            all_dec(b@),
            all_dec(out@),
            out@.len() == k,
            carry <= 1,
            k <= m,
            lsb_value(out@) + pow(10, k as nat) * (carry + lsb_value(tail_from(a@, k as int)) + lsb_value(tail_from(b@, k as int)))
                == lsb_value(a@) + lsb_value(b@),
        decreases m - k,
    {
        let da: u8 = if k < la { a[k] } else { 0 };
        let db: u8 = if k < lb { b[k] } else { 0 };
        let s: u8 = da + db + carry;
        let d = s % 10;
        proof {
            lemma_lsb_skip_any(a@, k as int);
            lemma_lsb_skip_any(b@, k as int);
            lemma_lsb_push(out@, d);
            vstd::arithmetic::power::lemma_pow_adds(10, k as nat, 1);
            vstd::arithmetic::power::lemma_pow1(10);
            let p = pow(10, k as nat);
            let ra = lsb_value(tail_from(a@, k + 1));
            let rb = lsb_value(tail_from(b@, k + 1));
            let c2 = s / 10;
            assert(p * (carry + (da + 10 * ra) + (db + 10 * rb)) == d * p + (p * 10) * (c2 + ra + rb)) by (nonlinear_arith)
                requires
                    s == da + db + carry,
                    d == s % 10,
                    c2 == s / 10,
            ;
        }
        out.push(d);
        carry = s / 10;
        k = k + 1;
    }
    proof {
        lemma_lsb_skip_end(a@, k as int);
        lemma_lsb_skip_end(b@, k as int);
        let p = pow(10, k as nat);
        assert(p * (carry + 0 + 0) == p * carry) by (nonlinear_arith);
        assert(lsb_value(out@) + p * carry == lsb_value(a@) + lsb_value(b@));
        assert(carry == 0 ==> p * carry == 0) by (nonlinear_arith);
        assert(carry * p == p * carry) by (nonlinear_arith);
    }
    if carry > 0 {
        proof {
            lemma_lsb_push(out@, carry);
        }
        out.push(carry);
    }
    out
}

/// `a - b` on digit vectors, least significant first, when `a >= b`.
fn sub_digits(a: &Vec<u8>, b: &Vec<u8>) -> (out: Vec<u8>)
    requires
        all_dec(a@),
        all_dec(b@),
        lsb_value(a@) >= lsb_value(b@),
    ensures
        all_dec(out@),
        lsb_value(out@) == lsb_value(a@) - lsb_value(b@),
{
    let la = a.len();
    let lb = b.len();
    let m = if la > lb { la } else { lb };
    let mut out: Vec<u8> = Vec::new();
    let mut borrow: u8 = 0;
    let mut k: usize = 0;
    proof {
        assert(a@.len() > 0 ==> a@.skip(0) =~= a@);
        assert(b@.len() > 0 ==> b@.skip(0) =~= b@);
        assert(lsb_value(tail_from(a@, 0)) == lsb_value(a@));
        assert(lsb_value(tail_from(b@, 0)) == lsb_value(b@));
        vstd::arithmetic::power::lemma_pow0(10);
    }
    while k < m
        invariant
            la == a@.len(),
            lb == b@.len(),
            m == if la > lb { la } else { lb },
            all_dec(a@),
            all_dec(b@),
            all_dec(out@),
            out@.len() == k,
            k <= m,
            borrow <= 1,
            lsb_value(out@) + pow(10, k as nat) * (lsb_value(tail_from(a@, k as int)) - lsb_value(tail_from(b@, k as int)) - borrow)
                == lsb_value(a@) - lsb_value(b@),
        decreases m - k,
    {
        let da: u8 = if k < la { a[k] } else { 0 };
        let db: u8 = if k < lb { b[k] } else { 0 };
        let d: u8;
        let nb: u8;
        if da >= db + borrow {
            d = da - db - borrow;
            nb = 0;
        } else {
            d = da + 10 - db - borrow;
            nb = 1;
        }
        proof {
            lemma_lsb_skip_any(a@, k as int);
            lemma_lsb_skip_any(b@, k as int);
            lemma_lsb_push(out@, d);
            vstd::arithmetic::power::lemma_pow_adds(10, k as nat, 1);
            vstd::arithmetic::power::lemma_pow1(10);
            let p = pow(10, k as nat);
            let ra = lsb_value(tail_from(a@, k + 1));
            let rb = lsb_value(tail_from(b@, k + 1));
            assert(p * ((da + 10 * ra) - (db + 10 * rb) - borrow) == d * p + (p * 10) * (ra - rb - nb)) by (nonlinear_arith)
                requires
                    d == da - db - borrow + 10 * nb,
            ;
        }
        out.push(d);
        borrow = nb;
        k = k + 1;
    }
    proof {
        lemma_lsb_skip_end(a@, k as int);
        lemma_lsb_skip_end(b@, k as int);
        lemma_lsb_bounds(out@);
        let p = pow(10, k as nat);
        assert(p * (0 - 0 - borrow) == -(p * borrow)) by (nonlinear_arith);
        assert(lsb_value(out@) - p * borrow == lsb_value(a@) - lsb_value(b@));
        if borrow == 1 {
            assert(p * borrow == p) by (nonlinear_arith)
                requires
                    borrow == 1,
            ;
        } else {
            assert(p * borrow == 0) by (nonlinear_arith)
                requires
                    borrow == 0,
            ;
        }
    }
    out
}

/// Digits without a leading zero render as themselves, most significant first.
proof fn lemma_dec_digits_of_lsb(ds: Seq<u8>)
    requires
        ds.len() >= 1,
        all_dec(ds),
        ds.last() != 0 || ds.len() == 1,
    ensures
        dec_digits(lsb_value(ds) as nat) == Seq::new(ds.len(), |i: int| dec_digit(ds[ds.len() - 1 - i] as int)),
    decreases ds.len(),
{
    let rest = ds.drop_first();
    if ds.len() == 1 {
        assert(rest =~= Seq::<u8>::empty());
        assert(dec_digits(lsb_value(ds) as nat) =~= Seq::new(ds.len(), |i: int| dec_digit(ds[ds.len() - 1 - i] as int)));
    } else {
        lemma_dec_digits_of_lsb(rest);
        assert(rest.last() == ds.last());
        lemma_lsb_bounds(rest);
        lemma_lsb_positive(rest);
        let v = lsb_value(ds);
        let r = lsb_value(rest);
        assert(v / 10 == r && v % 10 == ds[0]) by (nonlinear_arith)
            requires
                v == ds[0] + 10 * r,
                ds[0] < 10,
                r >= 0,
        ;
        assert(dec_digits(v as nat) =~= Seq::new(ds.len(), |i: int| dec_digit(ds[ds.len() - 1 - i] as int)));
    }
}

/// Digits whose most significant one is not zero are worth at least one.
proof fn lemma_lsb_positive(ds: Seq<u8>)
    requires
        ds.len() >= 1,
        all_dec(ds),
        ds.last() != 0,
    ensures
        lsb_value(ds) >= 1,
    decreases ds.len(),
{
    if ds.len() > 1 {
        assert(ds.drop_first().last() == ds.last());
        lemma_lsb_positive(ds.drop_first());
        lemma_lsb_bounds(ds.drop_first());
    } else {
        assert(ds.drop_first() =~= Seq::<u8>::empty());
        assert(lsb_value(ds.drop_first()) == 0);
        assert(ds[0] == ds.last());
    }
}

/// Zeros at the most significant end add nothing.
proof fn lemma_lsb_strip(ds: Seq<u8>, n: int)
    requires
        0 <= n <= ds.len(),
        forall|i: int| n <= i < ds.len() ==> #[trigger] ds[i] == 0,
    ensures
        lsb_value(ds) == lsb_value(ds.take(n)),
    decreases ds.len(),
{
    if ds.len() > n {
        lemma_lsb_push(ds.drop_last(), 0);
        assert(ds.drop_last().push(0) =~= ds);
        lemma_lsb_strip(ds.drop_last(), n);
        assert(ds.drop_last().take(n) =~= ds.take(n));
    } else {
        assert(ds.take(n) =~= ds);
    }
}

/// Decimal text of the value of `ds`, least significant digit first.
fn render_digits(ds: &Vec<u8>) -> (out: Vec<char>)
    requires
        all_dec(ds@),
    ensures
        out@ == dec_digits(lsb_value(ds@) as nat),
{
    let mut n: usize = ds.len();
    while n > 1 && ds[n - 1] == 0
        invariant
            n <= ds@.len(),
            ds@.len() > 0 ==> n >= 1,
            forall|i: int| n <= i < ds@.len() ==> #[trigger] ds@[i] == 0,
        decreases n,
    {
        n = n - 1;
    }
    if n == 0 {
        let mut out: Vec<char> = Vec::new();
        out.push('0');
        assert(ds@ =~= Seq::<u8>::empty());
        assert(out@ =~= dec_digits(0));
        return out;
    }
    proof {
        lemma_lsb_strip(ds@, n as int);
        lemma_dec_digits_of_lsb(ds@.take(n as int));
    }
    let mut out: Vec<char> = Vec::new();
    let mut i: usize = n;
    while i > 0
        invariant
            i <= n,
            n <= ds@.len(),
            all_dec(ds@),
            out@.len() == n - i,
            forall|k: int| 0 <= k < out@.len() ==> #[trigger] out@[k] == dec_digit(ds@[n - 1 - k] as int),
        decreases i,
    {
        i = i - 1;
        out.push(dec_digit_exec(ds[i] as u64));
    }
    assert(out@ =~= Seq::new(n as nat, |k: int| dec_digit(ds@.take(n as int)[n - 1 - k] as int)));
    out
}

/// Removing underscores works character by character.
proof fn lemma_remove_underscores_push(s: Seq<char>, c: char)
    ensures
        remove_underscores(s.push(c)) == if c == '_' { remove_underscores(s) } else { remove_underscores(s).push(c) },
{
    assert(s.push(c).drop_last() =~= s);
}

/// Decimal text read most significant first, and its digits stored least
/// significant first, have the same value.
proof fn lemma_digits_value_lsb(s: Seq<char>, ds: Seq<u8>)
    requires
        ds.len() == s.len(),
        forall|i: int| 0 <= i < s.len() ==> #[trigger] ds[i] as int == digit_value(s[s.len() - 1 - i]),
    ensures
        digits_value(s, 10) == lsb_value(ds),
    decreases s.len(),
{
    if s.len() > 0 {
        let s2 = s.drop_last();
        let ds2 = ds.drop_first();
        assert forall|i: int| 0 <= i < s2.len() implies #[trigger] ds2[i] as int == digit_value(s2[s2.len() - 1 - i]) by {
            assert(ds2[i] == ds[i + 1]);
        }
        lemma_digits_value_lsb(s2, ds2);
        assert(ds[0] as int == digit_value(s.last()));
    }
}

/// The digits of `v`, least significant first.
fn u64_digits(v: u64) -> (ds: Vec<u8>)
    ensures
        all_dec(ds@),
        lsb_value(ds@) == v,
{
    let mut ds: Vec<u8> = Vec::new();
    let mut w: u64 = v;
    proof {
        vstd::arithmetic::power::lemma_pow0(10);
    }
    while w > 0
        invariant
            all_dec(ds@),
            lsb_value(ds@) + pow(10, ds@.len()) * w == v,
        decreases w,
    {
        let d = (w % 10) as u8;
        proof {
            lemma_lsb_push(ds@, d);
            vstd::arithmetic::power::lemma_pow_adds(10, ds@.len(), 1);
            vstd::arithmetic::power::lemma_pow1(10);
            let p = pow(10, ds@.len());
            let w2 = w / 10;
            assert(p * w == d * p + (p * 10) * w2) by (nonlinear_arith)
                requires
                    d == w % 10,
                    w2 == w / 10,
            ;
        }
        ds.push(d);
        w = w / 10;
    }
    ds
}

/// Value of the decimal digit `c`.
fn digit_of_char(c: char) -> (d: u8)
    requires
        '0' <= c <= '9',
    ensures
        d as int == digit_value(c),
        d < 10,
{
    ((c as u32) - ('0' as u32)) as u8
}

/// Whether `c` is an underscore or a digit below `radix`.
fn is_bigint_char_exec(c: char, radix: u32) -> (b: bool)
    requires
        2 <= radix <= 36,
    ensures
        b == is_bigint_char(c, radix as int),
{
    if c == '_' {
        return true;
    }
    let v: u32 = if '0' <= c && c <= '9' {
        (c as u32) - ('0' as u32)
    } else if 'a' <= c && c <= 'z' {
        (c as u32) - ('a' as u32) + 10
    } else if 'A' <= c && c <= 'Z' {
        (c as u32) - ('A' as u32) + 10
    } else {
        return false;
    };
    v < radix
}

/// The sign and the digits, underscores removed, of the integer text `s`
/// in base `radix`; `None` when `BigInt::from_str_radix` rejects it.
fn bigint_digits(s: &Vec<char>, radix: u32) -> (r: Option<(bool, Vec<char>)>)
    requires
        2 <= radix <= 36,
    ensures
        match r {
            None => bigint_parse(s@, radix as int) is None,
            Some((neg, clean)) => {
                &&& bigint_parse(s@, radix as int) is Some
                &&& neg == bigint_negative(s@)
                &&& clean@ == remove_underscores(bigint_magnitude(s@))
                &&& clean@.len() > 0
                &&& all_digits(clean@, radix as int)
            },
        },
{
    let ghost sv = s@;
    let n = s.len();
    let neg = n >= 1 && s[0] == '-' && !(n >= 2 && s[1] == '+');
    let t_start: usize = if neg { 1 } else { 0 };
    let plus = n >= t_start + 1 && s[t_start] == '+' && !(n >= t_start + 2 && s[t_start + 1] == '+');
    let u_start: usize = if plus { t_start + 1 } else { t_start };
    let ghost u = bigint_magnitude(sv);
    proof {
        let t = if neg { sv.skip(1) } else { sv };
        assert(t =~= sv.skip(t_start as int));
        assert(u =~= sv.skip(u_start as int));
    }
    if u_start >= n || s[u_start] == '_' {
        assert(u.len() == 0 || u[0] == '_');
        return None;
    }
    let mut clean: Vec<char> = Vec::new();
    let mut i: usize = u_start;
    while i < n
        invariant
            u == sv.skip(u_start as int),
            u == bigint_magnitude(sv),
            sv == s@,
            n == sv.len(),
            u_start < n,
            u_start <= i <= n,
            2 <= radix <= 36,
            forall|j: int| 0 <= j < i - u_start ==> #[trigger] is_bigint_char(u[j], radix as int),
            clean@ == remove_underscores(u.take(i - u_start)),
            all_digits(clean@, radix as int),
        decreases n - i,
    {
        let c = s[i];
        proof {
            assert(u[i - u_start] == c);
            assert(u.take(i - u_start + 1) =~= u.take(i - u_start).push(c));
            lemma_remove_underscores_push(u.take(i - u_start), c);
        }
        if !is_bigint_char_exec(c, radix) {
            assert(!is_bigint_char(u[i - u_start], radix as int));
            return None;
        }
        if c != '_' {
            clean.push(c);
        }
        i = i + 1;
    }
    proof {
        assert(u.take(n - u_start) =~= u);
        lemma_remove_underscores_nonempty(u);
    }
    Some((neg, clean))
}

/// Digits are never worth less than zero.
proof fn lemma_digits_value_nonneg(s: Seq<char>, radix: int)
    requires
        radix >= 2,
        all_digits(s, radix),
    ensures
        digits_value(s, radix) >= 0,
    decreases s.len(),
{
    if s.len() > 0 {
        lemma_digits_value_nonneg(s.drop_last(), radix);
        let v = digits_value(s.drop_last(), radix);
        assert(0 <= digit_value(s[s.len() - 1]) < radix);
        assert(v * radix >= 0) by (nonlinear_arith)
            requires
                v >= 0,
                radix >= 2,
        ;
    }
}

/// Text that does not start with an underscore keeps a character.
proof fn lemma_remove_underscores_nonempty(u: Seq<char>)
    requires
        u.len() > 0,
        u[0] != '_',
    ensures
        remove_underscores(u).len() > 0,
    decreases u.len(),
{
    if u.len() > 1 {
        assert(u.drop_last()[0] == u[0]);
        lemma_remove_underscores_nonempty(u.drop_last());
    } else {
        assert(u.drop_last() =~= Seq::<char>::empty());
    }
}

/// Whether `BigInt::from_str_radix(s, radix)` accepts `s`.
pub fn bigint_parses(s: &str, radix: u32) -> (b: bool)
    requires
        2 <= radix <= 36,
    ensures
        b == bigint_parse(s@, radix as int) is Some,
{
    let cs = str_to_chars(s);
    bigint_digits(&cs, radix).is_some()
}

/// Whether the integer written in hex as `h` equals `r`; `h` must be text
/// that `BigInt::from_str_radix(h, 16)` accepts.
pub fn bigint_hex_equals(h: &str, r: u64) -> (b: bool)
    requires
        bigint_parse(h@, 16) is Some,
    ensures
        b == (bigint_parse(h@, 16).unwrap() == r as int),
{
    let s = str_to_chars(h);
    match bigint_digits(&s, 16) {
        None => false,
        Some((neg, clean)) => {
            proof {
                assert(0 <= digit_value(clean@[0]) < 16);
                assert(clean@[0] != '+');
                lemma_digits_value_nonneg(clean@, 16);
            }
            match parse_unsigned_exec(clean.as_slice(), 16, 0xffff_ffff_ffff_ffff) {
                None => {
                    false
                },
                Some(m) => {
                    if neg {
                        m == 0 && r == 0
                    } else {
                        m == r
                    }
                },
            }
        },
    }
}

/// Renders `ten_minutes_later` of the time stamp `a`.
pub fn add_ten_minutes(a: &String) -> (r: String)
    ensures
        r@ == ten_minutes_later(a@),
{
    let s = str_to_chars(a.as_str());
    match bigint_digits(&s, 10) {
        None => {
            let mut out: Vec<char> = Vec::new();
            out.push('N');
            out.push('\\');
            out.push('A');
            assert(out@ =~= seq!['N', '\\', 'A']);
            chars_to_string(out.as_slice())
        },
        Some((neg, clean)) => {
            let ghost v = digits_value(clean@, 10);
            let len = clean.len();
            let mut ds: Vec<u8> = Vec::new();
            let mut i: usize = len;
            while i > 0
                invariant
                    i <= len,
                    len == clean@.len(),
                    all_digits(clean@, 10),
                    ds@.len() == len - i,
                    all_dec(ds@),
                    forall|k: int| 0 <= k < ds@.len() ==> #[trigger] ds@[k] as int == digit_value(clean@[len - 1 - k]),
                decreases i,
            {
                i = i - 1;
                let c = clean[i];
                assert(0 <= digit_value(clean@[i as int]) < 10);
                let d = digit_of_char(c);
                ds.push(d);
            }
            proof {
                lemma_digits_value_lsb(clean@, ds@);
                lemma_digits_value_nonneg(clean@, 10);
            }
            let k_digits = u64_digits(TEN_MINUTES);
            let mut out: Vec<char> = Vec::new();
            if !neg {
                let sum = add_digits(&ds, &k_digits);
                out = render_digits(&sum);
                assert(out@ == int_to_decimal(v + TEN_MINUTES));
            } else {
                proof {
                    assert(0 <= digit_value(clean@[0]) < 10);
                    assert(clean@[0] != '+');
                }
                match parse_unsigned_exec(clean.as_slice(), 10, TEN_MINUTES) {
                    Some(m) => {
                        let rest = TEN_MINUTES - m;
                        out = u64_to_decimal(rest);
                        assert(out@ == int_to_decimal(-v + TEN_MINUTES));
                    },
                    None => {
                        let diff = sub_digits(&ds, &k_digits);
                        let digits = render_digits(&diff);
                        out.push('-');
                        let mut j: usize = 0;
                        while j < digits.len()
                            invariant
                                j <= digits@.len(),
                                out@ == seq!['-'] + digits@.take(j as int),
                            decreases digits@.len() - j,
                        {
                            out.push(digits[j]);
                            j = j + 1;
                            assert(out@ =~= seq!['-'] + digits@.take(j as int));
                        }
                        assert(digits@.take(digits@.len() as int) =~= digits@);
                        assert(out@ == int_to_decimal(-v + TEN_MINUTES));
                    },
                }
            }
            chars_to_string(out.as_slice())
        },
    }
}

} // verus!
