//! Fermat's little theorem, by way of the binomial theorem.
//!
//! The binomial coefficients are defined by Pascal's rule. A prime divides
//! every coefficient of its own row but the two at the ends, so raising to a
//! prime power is additive modulo that prime; the theorem follows by
//! induction on the base.

use crate::arith::{is_prime, lemma_divides_scale, lemma_euclid, lemma_multiple_divides};
use vstd::arithmetic::div_mod::{lemma_add_mod_noop, lemma_mod_equivalence, lemma_small_mod};
use vstd::arithmetic::power::{lemma_pow0, lemma_pow_positive, pow};
use vstd::prelude::*;

verus! {

/// The binomial coefficient "`n` choose `k`", by Pascal's rule.
pub open spec fn binom(n: nat, k: nat) -> nat
    decreases n,
{
    if k == 0 {
        1
    } else if n == 0 {
        0
    } else {
        binom((n - 1) as nat, (k - 1) as nat) + binom((n - 1) as nat, k)
    }
}

/// The first `k + 1` terms of the expansion of `(a + 1)^n` in powers of `a`.
pub open spec fn binom_sum(a: int, n: nat, k: nat) -> int
    decreases k,
{
    if k == 0 {
        1
    } else {
        binom_sum(a, n, (k - 1) as nat) + binom(n, k) * pow(a, k)
    }
}

/// A power with a positive exponent is the base times the next lower power.
pub proof fn lemma_pow_unfold(b: int, e: nat)
    requires
        e > 0,
    ensures
        pow(b, e) == b * pow(b, (e - 1) as nat),
{
    reveal(pow);
}

/// There is no way to choose more than there is.
pub proof fn lemma_binom_beyond(n: nat, k: nat)
    requires
        k > n,
    ensures
        binom(n, k) == 0,
    decreases n,
{
    if n > 0 {
        lemma_binom_beyond((n - 1) as nat, (k - 1) as nat);
        lemma_binom_beyond((n - 1) as nat, k);
    }
}

/// There is one way to choose everything.
pub proof fn lemma_binom_all(n: nat)
    ensures
        binom(n, n) == 1,
    decreases n,
{
    if n > 0 {
        lemma_binom_all((n - 1) as nat);
        lemma_binom_beyond((n - 1) as nat, n);
    }
}

/// There are `n` ways to choose one of `n`.
pub proof fn lemma_binom_one(n: nat)
    ensures
        binom(n, 1) == n,
    decreases n,
{
    if n > 0 {
        lemma_binom_one((n - 1) as nat);
        assert(binom((n - 1) as nat, 0) == 1);
    }
}

/// The absorption identity: `k * C(n, k) == n * C(n - 1, k - 1)`.
pub proof fn lemma_binom_absorption(n: nat, k: nat)
    requires
        n >= 1,
        k >= 1,
    ensures
        k * binom(n, k) == n * binom((n - 1) as nat, (k - 1) as nat),
    decreases n,
{
    if k == 1 {
        lemma_binom_one(n);
        assert(binom((n - 1) as nat, 0) == 1);
        assert(1 * binom(n, 1) == n * 1);
    } else if n == 1 {
        lemma_binom_beyond(1, k);
        lemma_binom_beyond(0, (k - 1) as nat);
        assert(k * 0 == 1 * 0);
    } else {
        let n1 = (n - 1) as nat;
        let n2 = (n - 2) as nat;
        let k1 = (k - 1) as nat;
        let k2 = (k - 2) as nat;
        lemma_binom_absorption(n1, k);
        lemma_binom_absorption(n1, k1);
        let x = binom(n1, k1) as int;
        let y = binom(n1, k) as int;
        let u = binom(n2, k2) as int;
        let v = binom(n2, k1) as int;
        assert(binom(n, k) == x + y);
        assert(x == u + v);
        assert(k * y == n1 * v);
        assert(k1 * x == n1 * u);
        assert(k * (x + y) == n * x) by (nonlinear_arith)
            requires
                x == u + v,
                k * y == n1 * v,
                k1 * x == n1 * u,
                k1 == k - 1,
                n1 == n - 1,
        ;
    }
}

/// A prime divides every binomial coefficient of its row but the first and
/// the last.
pub proof fn lemma_prime_divides_binom(p: nat, k: nat)
    requires
        is_prime(p),
        0 < k < p,
    ensures
        binom(p, k) % p == 0,
{
    lemma_binom_absorption(p, k);
    let c = binom(p, k) as int;
    lemma_multiple_divides(p as int, binom((p - 1) as nat, (k - 1) as nat) as int);
    assert((k * c) % (p as int) == 0);
    lemma_euclid(p, k, c);
    lemma_small_mod(k, p);
}

/// Pascal's rule, summed: one more row is the row plus `a` times the row.
pub proof fn lemma_binom_sum_row(a: int, n: nat, k: nat)
    ensures
        binom_sum(a, n + 1, k + 1) == binom_sum(a, n, k + 1) + a * binom_sum(a, n, k),
    decreases k,
{
    let c0 = binom(n, k) as int;
    let c1 = binom(n, k + 1) as int;
    assert(binom(n + 1, k + 1) == c0 + c1);
    lemma_pow_unfold(a, k + 1);
    let pk = pow(a, k);
    if k == 0 {
        lemma_pow0(a);
        assert(binom_sum(a, n + 1, 0) == 1);
        assert(binom_sum(a, n, 0) == 1);
        assert(binom_sum(a, n + 1, 1) == 1 + (c0 + c1) * pow(a, 1));
        assert(binom_sum(a, n, 1) == 1 + c1 * pow(a, 1));
        assert(c0 == 1);
        assert(1 + (1 + c1) * (a * pk) == 1 + c1 * (a * pk) + a * 1) by (nonlinear_arith)
            requires
                pk == 1,
        ;
    } else {
        lemma_binom_sum_row(a, n, (k - 1) as nat);
        let s_up = binom_sum(a, n + 1, k);
        let s1 = binom_sum(a, n, k);
        let s0 = binom_sum(a, n, (k - 1) as nat);
        assert(s_up == s1 + a * s0);
        assert(binom_sum(a, n + 1, k + 1) == s_up + (c0 + c1) * pow(a, k + 1));
        assert(binom_sum(a, n, k + 1) == s1 + c1 * pow(a, k + 1));
        assert(s1 == s0 + c0 * pk);
        assert(s1 + a * s0 + (c0 + c1) * (a * pk) == s1 + c1 * (a * pk) + a * (s0 + c0 * pk))
            by (nonlinear_arith);
    }
}

/// The binomial theorem for `(a + 1)^n`.
pub proof fn lemma_binomial_theorem(a: int, n: nat)
    ensures
        pow(a + 1, n) == binom_sum(a, n, n),
    decreases n,
{
    if n == 0 {
        lemma_pow0(a + 1);
    } else {
        let m = (n - 1) as nat;
        lemma_binomial_theorem(a, m);
        lemma_binom_sum_row(a, m, m);
        lemma_binom_beyond(m, n);
        lemma_pow_unfold(a + 1, n);
        let s = binom_sum(a, m, m);
        let t = pow(a, n);
        assert(binom_sum(a, m, n) == s + binom(m, n) * t);
        assert(0 * t == 0);
        assert(s + a * s == (a + 1) * s) by (nonlinear_arith);
    }
}

/// Modulo a prime, the terms of its row before the last sum to one.
pub proof fn lemma_binom_sum_mod_prime(a: int, p: nat, k: nat)
    requires
        is_prime(p),
        k < p,
    ensures
        binom_sum(a, p, k) % (p as int) == 1,
    decreases k,
{
    let pi = p as int;
    if k == 0 {
        lemma_small_mod(1, p);
    } else {
        lemma_binom_sum_mod_prime(a, p, (k - 1) as nat);
        lemma_prime_divides_binom(p, k);
        let c = binom(p, k) as int;
        let t = pow(a, k);
        lemma_divides_scale(pi, c, t);
        lemma_add_mod_noop(binom_sum(a, p, (k - 1) as nat), c * t, pi);
        lemma_small_mod(1, p);
    }
}

/// Raising to a prime power is additive modulo that prime:
/// `(a + 1)^p` and `a^p + 1` are congruent.
pub proof fn lemma_prime_power_of_successor(a: int, p: nat)
    requires
        is_prime(p),
    ensures
        pow(a + 1, p) % (p as int) == (pow(a, p) + 1) % (p as int),
{
    let pi = p as int;
    let k = (p - 1) as nat;
    lemma_binomial_theorem(a, p);
    lemma_binom_sum_mod_prime(a, p, k);
    lemma_binom_all(p);
    let s = binom_sum(a, p, k);
    let t = pow(a, p);
    assert(binom_sum(a, p, p) == s + 1 * t);
    assert(1 * t == t);
    lemma_add_mod_noop(s, t, pi);
    lemma_add_mod_noop(1, t, pi);
    lemma_small_mod(1, p);
}

/// Fermat's little theorem, in the form that holds of every base:
/// `a^p` and `a` are congruent modulo the prime `p`.
pub proof fn lemma_fermat(a: nat, p: nat)
    requires
        is_prime(p),
    ensures
        pow(a as int, p) % (p as int) == a % p,
    decreases a,
{
    let pi = p as int;
    if a == 0 {
        lemma_pow_unfold(0, p);
        assert(0 * pow(0, (p - 1) as nat) == 0);
        lemma_small_mod(0, p);
    } else {
        let b = (a - 1) as nat;
        lemma_fermat(b, p);
        lemma_prime_power_of_successor(b as int, p);
        lemma_add_mod_noop(pow(b as int, p), 1, pi);
        lemma_add_mod_noop(b as int, 1, pi);
    }
}

/// Fermat's little theorem: where the prime `p` does not divide `a`,
/// `a^(p - 1)` leaves the remainder one.
pub proof fn lemma_fermat_little(a: nat, p: nat)
    requires
        is_prime(p),
        a % p != 0,
    ensures
        pow(a as int, (p - 1) as nat) % (p as int) == 1,
{
    let pi = p as int;
    let ai = a as int;
    let x = pow(ai, (p - 1) as nat);
    lemma_fermat(a, p);
    lemma_pow_unfold(ai, p);
    lemma_small_mod(0, p);
    lemma_pow_positive(ai, (p - 1) as nat);
    // a * x and a are congruent, so p divides a * (x - 1)
    lemma_mod_equivalence(ai * x, ai, pi);
    assert(ai * (x - 1) == ai * x - ai) by (nonlinear_arith);
    lemma_euclid(p, a, x - 1);
    lemma_mod_equivalence(x, 1, pi);
    lemma_small_mod(1, p);
}

} // verus!
