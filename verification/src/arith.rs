//! Divisibility, greatest common divisors, primes and modular inverses.
//!
//! The definitions are those of elementary number theory; the lemmas lead up
//! to Bezout's identity, Euclid's lemma and the uniqueness of inverses.

use crate::uint::{has_inverse_mod, is_inverse_mod};
use vstd::arithmetic::div_mod::{
    lemma_add_mod_noop,
    lemma_fundamental_div_mod,
    lemma_mod_multiples_basic,
    lemma_mod_multiples_vanish,
    lemma_mul_mod_noop_general,
    lemma_small_mod,
};
use vstd::prelude::*;

verus! {

/// `d` divides `x`.
pub open spec fn divides(d: nat, x: int) -> bool {
    d > 0 && x % (d as int) == 0
}

/// `p` is a prime number: at least two, with no divisor but one and itself.
pub open spec fn is_prime(p: nat) -> bool {
    p >= 2 && forall|d: nat| #[trigger] divides(d, p as int) ==> d == 1 || d == p
}

/// The greatest common divisor, by Euclid's algorithm.
pub open spec fn gcd(a: nat, b: nat) -> nat
    decreases b,
{
    if b == 0 {
        a
    } else {
        gcd(b, a % b)
    }
}

/// `a` and `b` have no common divisor but one.
pub open spec fn coprime(a: nat, b: nat) -> bool {
    gcd(a, b) == 1
}

/// A number with remainder zero is its divisor times the quotient.
pub proof fn lemma_divides_quotient(d: int, x: int)
    requires
        d > 0,
        x % d == 0,
    ensures
        x == d * (x / d),
{
    lemma_fundamental_div_mod(x, d);
}

/// Every multiple of `d` has remainder zero.
pub proof fn lemma_multiple_divides(d: int, k: int)
    requires
        d > 0,
    ensures
        (d * k) % d == 0,
        (k * d) % d == 0,
{
    lemma_mod_multiples_basic(k, d);
    assert(d * k == k * d) by (nonlinear_arith);
}

/// Divisibility is kept by sums.
pub proof fn lemma_divides_sum(d: int, x: int, y: int)
    requires
        d > 0,
        x % d == 0,
        y % d == 0,
    ensures
        (x + y) % d == 0,
{
    lemma_add_mod_noop(x, y, d);
    lemma_small_mod(0, d as nat);
}

/// Divisibility is kept by multiples.
pub proof fn lemma_divides_scale(d: int, x: int, k: int)
    requires
        d > 0,
        x % d == 0,
    ensures
        (x * k) % d == 0,
        (k * x) % d == 0,
{
    lemma_mul_mod_noop_general(x, k, d);
    lemma_small_mod(0, d as nat);
    assert(0 * k == 0);
    assert(x * k == k * x) by (nonlinear_arith);
}

/// A divisor of a positive number is no greater than it.
pub proof fn lemma_divisor_bound(d: nat, x: nat)
    requires
        divides(d, x as int),
        x > 0,
    ensures
        d <= x,
{
    if d > x {
        lemma_small_mod(x, d);
    }
}

/// Products of congruent numbers are congruent.
pub proof fn lemma_mul_congruent(a: int, b: int, c: int, d: int, m: int)
    requires
        m > 0,
        a % m == b % m,
        c % m == d % m,
    ensures
        (a * c) % m == (b * d) % m,
{
    lemma_mul_mod_noop_general(a, c, m);
    lemma_mul_mod_noop_general(b, d, m);
}

/// Bezout's identity: the greatest common divisor is an integer combination
/// of the two numbers. The coefficients are returned.
pub proof fn lemma_bezout(a: nat, b: nat) -> (c: (int, int))
    ensures
        a * c.0 + b * c.1 == gcd(a, b),
    decreases b,
{
    if b == 0 {
        (1int, 0int)
    } else {
        let (x, y) = lemma_bezout(b, a % b);
        let q = (a / b) as int;
        let r = (a % b) as int;
        lemma_fundamental_div_mod(a as int, b as int);
        assert(a * y + b * (x - q * y) == b * x + r * y) by (nonlinear_arith)
            requires
                a == b * q + r,
        ;
        (y, x - q * y)
    }
}

/// The greatest common divisor divides both numbers, and is positive unless
/// both are zero.
pub proof fn lemma_gcd_divides(a: nat, b: nat)
    requires
        a > 0 || b > 0,
    ensures
        gcd(a, b) > 0,
        divides(gcd(a, b), a as int),
        divides(gcd(a, b), b as int),
    decreases b,
{
    if b == 0 {
        lemma_multiple_divides(a as int, 1);
        lemma_multiple_divides(a as int, 0);
    } else {
        lemma_gcd_divides(b, a % b);
        let g = gcd(a, b) as int;
        let q = (a / b) as int;
        lemma_fundamental_div_mod(a as int, b as int);
        lemma_divides_scale(g, b as int, q);
        lemma_divides_sum(g, b * q, (a % b) as int);
    }
}

/// Whatever divides both numbers divides their greatest common divisor.
pub proof fn lemma_common_divisor_divides_gcd(d: nat, a: nat, b: nat)
    requires
        divides(d, a as int),
        divides(d, b as int),
    ensures
        divides(d, gcd(a, b) as int),
{
    let (x, y) = lemma_bezout(a, b);
    lemma_divides_scale(d as int, a as int, x);
    lemma_divides_scale(d as int, b as int, y);
    lemma_divides_sum(d as int, a * x, b * y);
}

/// A modulus coprime to one factor of a product that it divides divides the
/// other factor.
pub proof fn lemma_coprime_cancel(m: nat, a: nat, b: int)
    requires
        m > 0,
        coprime(a, m),
        (a * b) % (m as int) == 0,
    ensures
        b % (m as int) == 0,
{
    let (x, y) = lemma_bezout(a, m);
    let mi = m as int;
    assert(b == (a * b) * x + mi * (b * y)) by (nonlinear_arith)
        requires
            a * x + mi * y == 1,
    ;
    lemma_divides_scale(mi, a * b, x);
    lemma_multiple_divides(mi, b * y);
    lemma_divides_sum(mi, (a * b) * x, mi * (b * y));
}

/// A prime is coprime to every number that it does not divide.
pub proof fn lemma_prime_coprime(p: nat, a: nat)
    requires
        is_prime(p),
        a % p != 0,
    ensures
        coprime(a, p),
{
    lemma_gcd_divides(a, p);
    let g = gcd(a, p);
    assert(divides(g, p as int));
    assert(g == 1 || g == p);
}

/// Euclid's lemma: a prime that divides a product divides one of the factors.
pub proof fn lemma_euclid(p: nat, a: nat, b: int)
    requires
        is_prime(p),
        (a * b) % (p as int) == 0,
    ensures
        a % p == 0 || b % (p as int) == 0,
{
    if a % p != 0 {
        lemma_prime_coprime(p, a);
        lemma_coprime_cancel(p, a, b);
    }
}

/// Two different primes are coprime.
pub proof fn lemma_distinct_primes_coprime(p: nat, q: nat)
    requires
        is_prime(p),
        is_prime(q),
        p != q,
    ensures
        coprime(p, q),
{
    if p % q == 0 {
        assert(divides(q, p as int));
    }
    lemma_prime_coprime(q, p);
}

/// What two coprime numbers both divide, their product divides.
pub proof fn lemma_coprime_product_divides(p: nat, q: nat, x: int)
    requires
        p > 0,
        q > 0,
        coprime(p, q),
        x % (p as int) == 0,
        x % (q as int) == 0,
    ensures
        x % ((p * q) as int) == 0,
{
    let k = x / (p as int);
    lemma_divides_quotient(p as int, x);
    lemma_coprime_cancel(q, p, k);
    let j = k / (q as int);
    lemma_divides_quotient(q as int, k);
    assert(x == (p * q) * j) by (nonlinear_arith)
        requires
            x == p * k,
            k == q * j,
    ;
    assert(p * q > 0) by (nonlinear_arith)
        requires
            p > 0,
            q > 0,
    ;
    lemma_multiple_divides((p * q) as int, j);
}

/// A number coprime to a product is not a multiple of a factor of it that is
/// greater than one.
pub proof fn lemma_coprime_product_factor(r: nat, p: nat, q: nat)
    requires
        p >= 2,
        q > 0,
        coprime(r, p * q),
    ensures
        r % p != 0,
{
    if r % p == 0 {
        lemma_multiple_divides(p as int, q as int);
        assert(divides(p, r as int));
        assert(divides(p, (p * q) as int));
        lemma_common_divisor_divides_gcd(p, r, p * q);
        assert(1int % (p as int) == 0);
        lemma_small_mod(1, p);
    }
}

/// An inverse modulo `m` below `m` is the only one.
pub proof fn lemma_inverse_unique(x: nat, y: nat, a: nat, m: nat)
    requires
        is_inverse_mod(x, a, m),
        is_inverse_mod(y, a, m),
    ensures
        x == y,
{
    let (xi, yi, ai, mi) = (x as int, y as int, a as int, m as int);
    // modulo m: x = x * (a * y) = (x * a) * y = y
    lemma_mul_mod_noop_general(xi, ai * yi, mi);
    lemma_mul_mod_noop_general(xi * ai, yi, mi);
    assert(xi * (ai * yi) == (xi * ai) * yi) by (nonlinear_arith);
    assert(yi * ai == ai * yi) by (nonlinear_arith);
    assert((xi * (1int % mi)) % mi == (xi * (ai * yi)) % mi);
    assert(((1int % mi) * yi) % mi == ((xi * ai) * yi) % mi);
    lemma_mul_mod_noop_general(xi, 1, mi);
    lemma_mul_mod_noop_general(1, yi, mi);
    assert(xi * 1 == xi);
    assert(1 * yi == yi);
    lemma_small_mod(x, m);
    lemma_small_mod(y, m);
}

/// A number coprime to the modulus has an inverse.
pub proof fn lemma_coprime_has_inverse(a: nat, m: nat)
    requires
        m > 0,
        coprime(a, m),
    ensures
        has_inverse_mod(a, m),
{
    let (x, y) = lemma_bezout(a, m);
    let mi = m as int;
    let inv = (x % mi) as nat;
    lemma_mul_mod_noop_general(x, a as int, mi);
    assert(x * a == mi * (-y) + 1) by (nonlinear_arith)
        requires
            a * x + mi * y == 1,
    ;
    lemma_mod_multiples_vanish(-y, 1, mi);
    assert(is_inverse_mod(inv, a, m));
}

} // verus!
