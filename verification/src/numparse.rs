//! Parsing unsigned integers the way `from_str_radix` of std does.

use vstd::prelude::*;

verus! {

/// Value of the digit `c` in bases up to 36, or -1 when `c` is no digit.
pub open spec fn digit_value(c: char) -> int {
    if '0' <= c <= '9' {
        c as int - '0' as int
    } else if 'a' <= c <= 'z' {
        c as int - 'a' as int + 10
    } else if 'A' <= c <= 'Z' {
        c as int - 'A' as int + 10
    } else {
        -1
    }
}

/// Every character of `s` is a digit below `radix`.
pub open spec fn all_digits(s: Seq<char>, radix: int) -> bool {
    forall|i: int| 0 <= i < s.len() ==> 0 <= #[trigger] digit_value(s[i]) < radix
}

/// Value of the digits `s` in base `radix`, most significant first.
pub open spec fn digits_value(s: Seq<char>, radix: int) -> int
    decreases s.len(),
{
    if s.len() == 0 {
        0
    } else {
        digits_value(s.drop_last(), radix) * radix + digit_value(s.last())
    }
}

/// Powers of 16.
pub open spec fn pow16(k: nat) -> int
    decreases k,
{
    if k == 0 {
        1
    } else {
        16 * pow16((k - 1) as nat)
    }
}

/// What `from_str_radix` of an unsigned type with maximum `max` gives for
/// `s`: one optional leading `+`, then at least one digit, and a value that
/// does not exceed `max`.
pub open spec fn parse_unsigned(s: Seq<char>, radix: int, max: int) -> Option<int> {
    let d = if s.len() > 0 && s[0] == '+' { s.skip(1) } else { s };
    if d.len() == 0 || !all_digits(d, radix) || digits_value(d, radix) > max {
        None
    } else {
        Some(digits_value(d, radix))
    }
}

/// Dropping the last digit does not increase the value, which is never negative.
pub proof fn lemma_digits_value_monotone(s: Seq<char>, radix: int)
    requires
        2 <= radix,
        s.len() > 0,
        all_digits(s, radix),
    ensures
        digits_value(s, radix) >= digits_value(s.drop_last(), radix),
        digits_value(s.drop_last(), radix) >= 0,
    decreases s.len(),
{
    if s.len() > 1 {
        lemma_digits_value_monotone(s.drop_last(), radix);
    }
    let v = digits_value(s.drop_last(), radix);
    let d = digit_value(s.last());
    assert(v * radix + d >= v) by (nonlinear_arith)
        requires
            v >= 0,
            d >= 0,
            radix >= 2,
    ;
}

/// Digit value of `c`, or `None` when it is no digit below `radix`.
fn digit_of(c: char, radix: u32) -> (r: Option<u32>)
    requires
        2 <= radix <= 36,
    ensures
        match r {
            Some(d) => d == digit_value(c) && d < radix,
            None => !(0 <= digit_value(c) < radix),
        },
{
    let v: u32 = if '0' <= c && c <= '9' {
        (c as u32) - ('0' as u32)
    } else if 'a' <= c && c <= 'z' {
        (c as u32) - ('a' as u32) + 10
    } else if 'A' <= c && c <= 'Z' {
        (c as u32) - ('A' as u32) + 10
    } else {
        return None;
    };
    if v < radix {
        Some(v)
    } else {
        None
    }
}

/// Parses `s` like `from_str_radix` of an unsigned type whose maximum is `max`.
pub fn parse_unsigned_exec(s: &[char], radix: u32, max: u64) -> (r: Option<u64>)
    requires
        2 <= radix <= 36,
    ensures
        match r {
            Some(v) => parse_unsigned(s@, radix as int, max as int) == Some(v as int),
            None => parse_unsigned(s@, radix as int, max as int) is None,
        },
{
    let ghost d = if s@.len() > 0 && s@[0] == '+' { s@.skip(1) } else { s@ };
    let mut i: usize = 0;
    if s.len() > 0 && s[0] == '+' {
        i = 1;
    }
    if i >= s.len() {
        return None;
    }
    let start = i;
    let mut acc: u64 = 0;
    let mut over = false;
    while i < s.len()
        invariant
            start <= i <= s@.len(),
            d == s@.skip(start as int),
            d == (if s@.len() > 0 && s@[0] == '+' { s@.skip(1) } else { s@ }),
            start == 0 || start == 1,
            2 <= radix <= 36,
            all_digits(d.take(i - start), radix as int),
            over ==> digits_value(d.take(i - start), radix as int) > max,
            !over ==> acc == digits_value(d.take(i - start), radix as int),
            !over ==> acc <= max,
        decreases s@.len() - i,
    {
        let c = s[i];
        let ghost t = d.take(i - start + 1);
        assert(t.drop_last() =~= d.take(i - start));
        match digit_of(c, radix) {
            None => {
                assert(d[i - start] == c);
                assert(!(0 <= digit_value(d[i - start]) < radix));
                assert(!all_digits(d, radix as int));
                assert(d == (if s@.len() > 0 && s@[0] == '+' { s@.skip(1) } else { s@ }));
                assert(parse_unsigned(s@, radix as int, max as int) is None);
                return None;
            },
            Some(v) => {
                proof {
                    assert(t.last() == c);
                    assert(all_digits(t, radix as int));
                    lemma_digits_value_monotone(t, radix as int);
                }
                if !over {
                    if v as u64 > max {
                        over = true;
                    } else if acc > (max - v as u64) / (radix as u64) {
                        proof {
                            let q = (max - v) / (radix as int);
                            assert(acc * radix + v > max) by (nonlinear_arith)
                                requires
                                    acc > q,
                                    q == (max - v) / (radix as int),
                                    radix >= 2,
                                    v >= 0,
                                    max >= v,
                            ;
                        }
                        over = true;
                    } else {
                        proof {
                            assert(acc * radix + v <= max) by (nonlinear_arith)
                                requires
                                    acc <= (max - v) / (radix as int),
                                    radix >= 2,
                                    v >= 0,
                                    max >= v,
                            ;
                        }
                        acc = acc * (radix as u64) + (v as u64);
                    }
                }
            },
        }
        i = i + 1;
    }
    assert(d.take(i - start) =~= d);
    if over {
        None
    } else {
        Some(acc)
    }
}

} // verus!
