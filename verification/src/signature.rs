//! The signing key opens every signature it makes: for a number `m` below
//! the modulus, `(m^D mod N)^E mod N = m`. The proof goes through Fermat's
//! little theorem for the two prime factors of `N`.

use vstd::prelude::*;
use vstd::arithmetic::power::pow;
use crate::chain::{D, E, N};
use crate::rsa::rsa_spec;

verus! {

/// Binomial coefficient, by Pascal's rule.
pub open spec fn binom(n: nat, k: nat) -> nat
    decreases n,
{
    if k == 0 {
        1
    } else if n == 0 {
        0
    } else {
        binom((n - 1) as nat, (k - 1) as nat) + binom((n - 1) as nat, k)
    }
}

/// There is no way to choose more elements than there are.
proof fn lemma_binom_zero(n: nat, k: nat)
    requires
        k > n,
    ensures
        binom(n, k) == 0,
    decreases n,
{
    if n > 0 {
        lemma_binom_zero((n - 1) as nat, (k - 1) as nat);
        lemma_binom_zero((n - 1) as nat, k);
    }
}

/// There are `n` ways to choose one element.
proof fn lemma_binom_one(n: nat)
    ensures
        binom(n, 1) == n,
    decreases n,
{
    if n > 0 {
        lemma_binom_one((n - 1) as nat);
        assert(binom((n - 1) as nat, 0) == 1);
        assert(binom(n, 1) == binom((n - 1) as nat, 0) + binom((n - 1) as nat, 1));
    }
}

/// Choosing `k` elements and marking one of them is choosing the marked
/// one, then `k - 1` of the others.
proof fn lemma_binom_absorb(n: nat, k: nat)
    requires
        n >= 1,
        k >= 1,
    ensures
        k * binom(n, k) == n * binom((n - 1) as nat, (k - 1) as nat),
    decreases n,
{
    if k == 1 {
        lemma_binom_one(n);
        assert(binom((n - 1) as nat, 0) == 1);
    } else if n == 1 {
        lemma_binom_zero(1, k);
        lemma_binom_zero(0, (k - 1) as nat);
    } else {
        let n1 = (n - 1) as nat;
        let k1 = (k - 1) as nat;
        lemma_binom_absorb(n1, k1);
        lemma_binom_absorb(n1, k);
        let a = binom(n1, k1);
        let b = binom(n1, k);
        let c = binom((n1 - 1) as nat, (k1 - 1) as nat);
        let d = binom((n1 - 1) as nat, k1);
        assert(binom(n, k) == a + b);
        assert(a == c + d);
        assert(k1 * a == n1 * c);
        assert(k * b == n1 * d);
        assert(k * (a + b) == n * a) by (nonlinear_arith)
            requires
                k1 * a == n1 * c,
                k * b == n1 * d,
                a == c + d,
                k1 == k - 1,
                n1 == n - 1,
        ;
    }
}

/// The first `m` terms of the binomial expansion of `(a + 1)^n`.
pub open spec fn binom_sum(a: int, n: nat, m: nat) -> int
    decreases m,
{
    if m == 0 {
        0
    } else {
        binom_sum(a, n, (m - 1) as nat) + binom(n, (m - 1) as nat) * pow(a, (m - 1) as nat)
    }
}

/// One more factor `a + 1` shifts the expansion by Pascal's rule.
proof fn lemma_binom_sum_step(a: int, n: nat, m: nat)
    ensures
        binom_sum(a, n + 1, m + 1) == a * binom_sum(a, n, m) + binom_sum(a, n, m + 1),
    decreases m,
{
    reveal(pow);
    if m > 0 {
        let m1 = (m - 1) as nat;
        lemma_binom_sum_step(a, n, m1);
        let s0 = binom_sum(a, n, m1);
        let c0 = binom(n, m1);
        let c1 = binom(n, m);
        let p0 = pow(a, m1);
        let p1 = pow(a, m);
        assert(p1 == a * p0);
        assert(binom((n + 1) as nat, m) == c0 + c1);
        assert(binom_sum(a, n + 1, m + 1) == binom_sum(a, n + 1, m) + (c0 + c1) * p1);
        assert(binom_sum(a, n, m) == s0 + c0 * p0);
        assert(binom_sum(a, n, m + 1) == binom_sum(a, n, m) + c1 * p1);
        assert(a * (s0 + c0 * p0) == a * s0 + c0 * p1) by (nonlinear_arith)
            requires
                p1 == a * p0,
        ;
        assert((c0 + c1) * p1 == c0 * p1 + c1 * p1) by (nonlinear_arith);
        assert(binom_sum(a, n + 1, m) == a * s0 + binom_sum(a, n, m));
        assert(a * binom_sum(a, n, m) == a * s0 + c0 * p1);
    } else {
        assert(binom((n + 1) as nat, 0) == 1);
        assert(binom(n, 0) == 1);
        assert(pow(a, 0) == 1);
        assert(binom_sum(a, n + 1, 1) == binom_sum(a, n + 1, 0) + binom((n + 1) as nat, 0) * pow(a, 0));
        assert(binom_sum(a, n, 1) == binom_sum(a, n, 0) + binom(n, 0) * pow(a, 0));
        assert(a * binom_sum(a, n, 0) == 0);
    }
}

/// The binomial theorem for `(a + 1)^n`.
proof fn lemma_binomial(a: int, n: nat)
    ensures
        pow(a + 1, n) == binom_sum(a, n, n + 1),
    decreases n,
{
    reveal(pow);
    if n == 0 {
        assert(binom(0, 0) == 1);
        assert(binom_sum(a, 0, 1) == binom_sum(a, 0, 0) + binom(0, 0) * pow(a, 0));
    } else {
        let n1 = (n - 1) as nat;
        lemma_binomial(a, n1);
        lemma_binom_sum_step(a, n1, n);
        lemma_binom_zero(n1, n);
        assert(binom_sum(a, n1, n + 1) == binom_sum(a, n1, n) + binom(n1, n) * pow(a, n));
        assert(binom(n1, n) * pow(a, n) == 0);
        let s = binom_sum(a, n1, n);
        assert(pow(a + 1, n) == (a + 1) * pow(a + 1, n1));
        assert((a + 1) * s == a * s + s) by (nonlinear_arith);
    }
}

/// A common divisor `g > 0` of `a` and `b` with `a * x + b * y == g`.
proof fn lemma_bezout(a: int, b: int) -> (r: (int, int, int))
    requires
        a > 0,
        b >= 0,
    ensures
        r.0 > 0,
        a % r.0 == 0,
        b % r.0 == 0,
        a * r.1 + b * r.2 == r.0,
    decreases b,
{
    if b == 0 {
        (a, 1, 0)
    } else {
        let q = a / b;
        let rem = a % b;
        assert(a == b * q + rem && 0 <= rem < b) by {
            vstd::arithmetic::div_mod::lemma_fundamental_div_mod(a, b);
        }
        let (g, x, y) = lemma_bezout(b, rem);
        let kb = b / g;
        let kr = rem / g;
        assert(b == g * kb) by {
            vstd::arithmetic::div_mod::lemma_fundamental_div_mod(b, g);
        }
        assert(rem == g * kr) by {
            vstd::arithmetic::div_mod::lemma_fundamental_div_mod(rem, g);
        }
        assert(a == g * (kb * q + kr)) by (nonlinear_arith)
            requires
                a == b * q + rem,
                b == g * kb,
                rem == g * kr,
        ;
        assert(a % g == 0) by {
            vstd::arithmetic::div_mod::lemma_mod_multiples_basic(kb * q + kr, g);
            assert((kb * q + kr) * g == g * (kb * q + kr)) by (nonlinear_arith);
        }
        assert(a * y + b * (x - q * y) == g) by (nonlinear_arith)
            requires
                b * x + rem * y == g,
                a == b * q + rem,
        ;
        (g, y, x - q * y)
    }
}

/// `p` is a prime number.
pub open spec fn is_prime(p: int) -> bool {
    p > 1 && forall|d: int| 1 < d < p ==> #[trigger] (p % d) != 0
}

/// No number between 1 and 1231697 divides 1231697.
proof fn lemma_first_factor_divisors(d: u32)
    by (bit_vector)
    requires
        2 <= d < 1231697,
    ensures
        1231697u32 % d != 0,
{
}

/// No number between 1 and 1268093 divides 1268093.
proof fn lemma_second_factor_divisors(d: u32)
    by (bit_vector)
    requires
        2 <= d < 1268093,
    ensures
        1268093u32 % d != 0,
{
}

/// The two factors of the modulus are prime, and the modulus is their product.
proof fn lemma_factors_prime()
    ensures
        is_prime(1231697),
        is_prime(1268093),
        N == 1231697 * 1268093,
{
    assert forall|d: int| 1 < d < 1231697 implies #[trigger] (1231697int % d) != 0 by {
        lemma_first_factor_divisors(d as u32);
    }
    assert forall|d: int| 1 < d < 1268093 implies #[trigger] (1268093int % d) != 0 by {
        lemma_second_factor_divisors(d as u32);
    }
}

/// There is one way to choose all elements.
proof fn lemma_binom_self(n: nat)
    ensures
        binom(n, n) == 1,
    decreases n,
{
    if n > 0 {
        lemma_binom_self((n - 1) as nat);
        lemma_binom_zero((n - 1) as nat, n);
    }
}

/// A prime `p` divides the coefficients `C(p, k)` for `0 < k < p`.
proof fn lemma_prime_divides_binom(p: nat, k: nat)
    requires
        is_prime(p as int),
        0 < k < p,
    ensures
        (binom(p, k) as int) % (p as int) == 0,
{
    lemma_binom_absorb(p, k);
    let (g, x, y) = lemma_bezout(k as int, p as int);
    let kg = (k as int) / g;
    assert(k == g * kg) by {
        vstd::arithmetic::div_mod::lemma_fundamental_div_mod(k as int, g);
    }
    assert(g <= k) by (nonlinear_arith)
        requires
            k == g * kg,
            g > 0,
            k > 0,
    ;
    assert(g == 1) by {
        if g > 1 {
            assert((p as int) % g != 0);
        }
    }
    let c = binom(p, k) as int;
    let c1 = binom((p - 1) as nat, (k - 1) as nat) as int;
    assert(c == (p as int) * (c1 * x + c * y)) by (nonlinear_arith)
        requires
            k * c == p * c1,
            (k as int) * x + (p as int) * y == 1,
    ;
    vstd::arithmetic::div_mod::lemma_mod_multiples_basic(c1 * x + c * y, p as int);
    assert((c1 * x + c * y) * (p as int) == (p as int) * (c1 * x + c * y)) by (nonlinear_arith);
}

/// The terms of the expansion of `(b + 1)^p` after the first and before
/// the last add up to a multiple of `p`.
proof fn lemma_middle_terms(p: nat, b: nat, m: nat)
    requires
        is_prime(p as int),
        1 <= m <= p,
    ensures
        binom_sum(b as int, p, m) % (p as int) == 1,
    decreases m,
{
    reveal(pow);
    if m == 1 {
        assert(binom_sum(b as int, p, 1) == binom_sum(b as int, p, 0) + binom(p, 0) * pow(b as int, 0));
        assert(binom_sum(b as int, p, 1) == 1);
        vstd::arithmetic::div_mod::lemma_small_mod(1, p);
    } else {
        let m1 = (m - 1) as nat;
        lemma_middle_terms(p, b, m1);
        lemma_prime_divides_binom(p, m1);
        let c = binom(p, m1) as int;
        let w = pow(b as int, m1);
        let rest = binom_sum(b as int, p, m1);
        assert(binom_sum(b as int, p, m) == rest + c * w);
        let kc = c / (p as int);
        assert(c == (p as int) * kc) by {
            vstd::arithmetic::div_mod::lemma_fundamental_div_mod(c, p as int);
        }
        assert(rest + c * w == (p as int) * (kc * w) + rest) by (nonlinear_arith)
            requires
                c == (p as int) * kc,
        ;
        vstd::arithmetic::div_mod::lemma_mod_multiples_vanish(kc * w, rest, p as int);
        assert(((p as int) * (kc * w) + rest) % (p as int) == rest % (p as int));
        assert(binom_sum(b as int, p, m) % (p as int) == rest % (p as int));
    }
}

/// Fermat's little theorem: `a^p` and `a` leave the same remainder modulo a prime `p`.
proof fn lemma_fermat(p: nat, a: nat)
    requires
        is_prime(p as int),
    ensures
        pow(a as int, p) % (p as int) == (a as int) % (p as int),
    decreases a,
{
    reveal(pow);
    let pi = p as int;
    if a == 0 {
        vstd::arithmetic::power::lemma_pow_positive(1, 0);
        assert(pow(0, p) == 0 * pow(0, (p - 1) as nat));
    } else {
        let b = (a - 1) as nat;
        lemma_fermat(p, b);
        lemma_binomial(b as int, p);
        lemma_binom_self(p);
        lemma_middle_terms(p, b, p);
        let low = binom_sum(b as int, p, p);
        let top = pow(b as int, p);
        assert(binom_sum(b as int, p, p + 1) == low + binom(p, p) * top);
        assert(pow(a as int, p) == low + top);
        vstd::arithmetic::div_mod::lemma_add_mod_noop(low, top, pi);
        vstd::arithmetic::div_mod::lemma_add_mod_noop(1, b as int, pi);
        vstd::arithmetic::div_mod::lemma_small_mod(1, p);
    }
}

/// Raising to one more multiple of `p - 1` keeps the remainder modulo a prime `p`.
proof fn lemma_fermat_power(p: nat, m: nat, j: nat)
    requires
        is_prime(p as int),
    ensures
        pow(m as int, 1 + j * ((p - 1) as nat)) % (p as int) == (m as int) % (p as int),
    decreases j,
{
    reveal(pow);
    let pi = p as int;
    let p1 = (p - 1) as nat;
    if j == 0 {
        assert(pow(m as int, 0) == 1);
        assert(pow(m as int, 1) == m * pow(m as int, 0));
        assert(1 + j * p1 == 1);
    } else {
        let j1 = (j - 1) as nat;
        lemma_fermat_power(p, m, j1);
        let e = 1 + j1 * p1;
        assert(1 + j * p1 == (e - 1) + p) by (nonlinear_arith)
            requires
                j1 == j - 1,
                e == 1 + j1 * p1,
                p1 == p - 1,
        ;
        let e1 = (e - 1) as nat;
        vstd::arithmetic::power::lemma_pow_adds(m as int, e1, p);
        vstd::arithmetic::power::lemma_pow_adds(m as int, e1, 1);
        assert(pow(m as int, 1) == m * pow(m as int, 0));
        lemma_fermat(p, m);
        let x = pow(m as int, e1);
        assert(pow(m as int, 0) == 1);
        assert(pow(m as int, e1 + p) == x * pow(m as int, p));
        assert(pow(m as int, e1 + 1) == x * m);
        assert(e1 + 1 == e);
        vstd::arithmetic::div_mod::lemma_mul_mod_noop_right(x, pow(m as int, p), pi);
        vstd::arithmetic::div_mod::lemma_mul_mod_noop_right(x, m as int, pi);
        assert((x * pow(m as int, p)) % pi == (x * (pow(m as int, p) % pi)) % pi);
        assert((x * (m as int)) % pi == (x * ((m as int) % pi)) % pi);
        assert(pow(m as int, (e1 + p) as nat) % pi == pow(m as int, e) % pi);
    }
}

/// A number that both factors divide is divided by the modulus.
proof fn lemma_both_factors_divide(z: int)
    requires
        z % 1231697 == 0,
        z % 1268093 == 0,
    ensures
        z % 1561906343821 == 0,
{
    let a = z / 1231697;
    let b = z / 1268093;
    assert(z == 1231697 * a) by {
        vstd::arithmetic::div_mod::lemma_fundamental_div_mod(z, 1231697);
    }
    assert(z == 1268093 * b) by {
        vstd::arithmetic::div_mod::lemma_fundamental_div_mod(z, 1268093);
    }
    assert(1231697 * 474298 + 1268093 * (-460685) == 1);
    let c = b * 474298 + a * (-460685);
    assert(a == 1268093 * c) by (nonlinear_arith)
        requires
            z == 1231697 * a,
            z == 1268093 * b,
            1231697 * 474298 + 1268093 * (-460685) == 1,
            c == b * 474298 + a * (-460685),
    ;
    assert(z == 1561906343821 * c) by (nonlinear_arith)
        requires
            z == 1231697 * a,
            a == 1268093 * c,
    ;
    vstd::arithmetic::div_mod::lemma_mod_multiples_basic(c, 1561906343821);
    assert(c * 1561906343821 == 1561906343821 * c) by (nonlinear_arith);
}

/// The key opens what it signs: for `m` below the modulus,
/// `((m^D mod N)^E) mod N == m`.
pub proof fn lemma_signature_opens(m: nat)
    requires
        m < N,
    ensures
        rsa_spec(rsa_spec(m, D as nat, N as nat) as nat, E as nat, N as nat) == m,
{
    lemma_factors_prime();
    let n = N as int;
    let s = rsa_spec(m, D as nat, N as nat);
    assert(0 <= s) by {
        vstd::arithmetic::div_mod::lemma_mod_bound(pow(m as int, D as nat), n);
    }
    vstd::arithmetic::power::lemma_pow_mod_noop(pow(m as int, D as nat), E as nat, n);
    vstd::arithmetic::power::lemma_pow_multiplies(m as int, D as nat, E as nat);
    let de = (D as nat) * (E as nat);
    assert(de == 1 + 306358718192362220 * 1231696);
    assert(de == 1 + 297565797877961360 * 1268092);
    lemma_fermat_power(1231697, m, 306358718192362220);
    lemma_fermat_power(1268093, m, 297565797877961360);
    let big = pow(m as int, de);
    vstd::arithmetic::div_mod::lemma_sub_mod_noop(big, m as int, 1231697);
    vstd::arithmetic::div_mod::lemma_sub_mod_noop(big, m as int, 1268093);
    assert((big - m) % 1231697 == 0) by {
        vstd::arithmetic::div_mod::lemma_mod_self_0(1231697);
    }
    assert((big - m) % 1268093 == 0) by {
        vstd::arithmetic::div_mod::lemma_mod_self_0(1268093);
    }
    lemma_both_factors_divide(big - m);
    vstd::arithmetic::div_mod::lemma_sub_mod_noop(big, m as int, n);
    vstd::arithmetic::div_mod::lemma_small_mod(m, N as nat);
}

} // verus!
