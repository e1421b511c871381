//! Modular exponentiation for the toy RSA signatures.

use vstd::prelude::*;
use vstd::arithmetic::power::pow;

verus! {

/// `message` raised to `e`, modulo `n`.
pub open spec fn rsa_spec(message: nat, e: nat, n: nat) -> int {
    pow(message as int, e) % (n as int)
}

/// Squaring the base halves the exponent, modulo `n`.
proof fn lemma_pow_step(b: int, e: nat, n: int)
    requires
        n > 0,
    ensures
        pow(b, 2 * e) % n == pow((b * b) % n, e) % n,
        pow(b, 2 * e + 1) % n == (b % n) * (pow((b * b) % n, e) % n) % n,
    decreases e,
{
    vstd::arithmetic::power::lemma_pow_multiplies(b, 2, e);
    assert(pow(b, 2) == b * b) by {
        vstd::arithmetic::power::lemma_pow1(b);
        vstd::arithmetic::power::lemma_pow_adds(b, 1, 1);
    }
    assert(pow(b, 2 * e) == pow(b * b, e));
    vstd::arithmetic::power::lemma_pow_mod_noop(b * b, e, n);
    assert(pow(b, 2 * e + 1) == pow(b, 2 * e) * b) by {
        vstd::arithmetic::power::lemma_pow_adds(b, 2 * e, 1);
        vstd::arithmetic::power::lemma_pow1(b);
    }
    vstd::arithmetic::div_mod::lemma_mul_mod_noop(pow(b, 2 * e), b, n);
    assert((pow(b, 2 * e) * b) % n == ((pow(b, 2 * e) % n) * (b % n)) % n);
    assert((pow(b, 2 * e) % n) * (b % n) == (b % n) * (pow(b, 2 * e) % n)) by (nonlinear_arith);
}

/// `message` raised to `e`, modulo `n`, by square-and-multiply.
pub fn rsa(message: u64, e: u64, n: u64) -> (r: u64)
    requires
        0 < n,
    ensures
        r == rsa_spec(message as nat, e as nat, n as nat),
        r < n,
{
    let ghost nn = n as int;
    let mut base: u128 = (message as u128) % (n as u128);
    let mut exp: u64 = e;
    let mut acc: u128 = 1 % (n as u128);
    proof {
        vstd::arithmetic::power::lemma_pow_mod_noop(message as int, e as nat, nn);
        let pm = pow(base as int, e as nat) % nn;
        assert(0 <= pm < nn) by {
            vstd::arithmetic::div_mod::lemma_mod_bound(pow(base as int, e as nat), nn);
        }
        if n == 1 {
            assert(acc == 0);
            assert(rsa_spec(message as nat, e as nat, n as nat) == 0);
        } else {
            vstd::arithmetic::div_mod::lemma_small_mod(1, nn as nat);
            assert(acc == 1);
            vstd::arithmetic::div_mod::lemma_small_mod(pm as nat, nn as nat);
            assert((acc as int * pm) % nn == pm);
        }
    }
    while exp > 0
        invariant
            0 < n,
            nn == n as int,
            base < n,
            acc < n,
            (acc as int * (pow(base as int, exp as nat) % nn)) % nn == rsa_spec(message as nat, e as nat, n as nat),
        decreases exp,
    {
        let ghost b = base as int;
        let ghost x = exp as nat;
        proof {
            lemma_pow_step(b, x / 2, nn);
            assert(b % nn == b) by {
                vstd::arithmetic::div_mod::lemma_small_mod(b as nat, nn as nat);
            }
        }
        if exp % 2 == 1 {
            proof {
                assert(x == 2 * (x / 2) + 1);
                let rest = pow((b * b) % nn, x / 2) % nn;
                assert(pow(b, x) % nn == (b * rest) % nn);
                let a = acc as int;
                vstd::arithmetic::div_mod::lemma_mul_mod_noop_right(a, b * rest, nn);
                vstd::arithmetic::div_mod::lemma_mul_mod_noop_left(a * b, rest, nn);
                assert(a * (b * rest) == (a * b) * rest) by (nonlinear_arith);
                assert((a * ((b * rest) % nn)) % nn == (((a * b) % nn) * rest) % nn);
            }
            assert(acc * base < 0x1_0000_0000_0000_0000 * 0x1_0000_0000_0000_0000) by (nonlinear_arith)
                requires
                    acc < 0x1_0000_0000_0000_0000,
                    base < 0x1_0000_0000_0000_0000,
            ;
            acc = (acc * base) % (n as u128);
        } else {
            proof {
                assert(x == 2 * (x / 2));
            }
        }
        assert(base * base < 0x1_0000_0000_0000_0000 * 0x1_0000_0000_0000_0000) by (nonlinear_arith)
            requires
                base < 0x1_0000_0000_0000_0000,
        ;
        base = (base * base) % (n as u128);
        exp = exp / 2;
        proof {
            let r = pow(base as int, exp as nat) % nn;
            assert(r == pow((b * b) % nn, x / 2) % nn);
        }
    }
    proof {
        vstd::arithmetic::power::lemma_pow0(base as int);
        assert(exp == 0);
        assert(pow(base as int, exp as nat) == 1);
        if n > 1 {
            vstd::arithmetic::div_mod::lemma_small_mod(1, nn as nat);
            vstd::arithmetic::div_mod::lemma_small_mod(acc as nat, nn as nat);
            assert(acc as int * 1 == acc as int);
        } else {
            assert(acc == 0);
            assert(acc as int * (pow(base as int, exp as nat) % nn) == 0);
        }
    }
    acc as u64
}

} // verus!
