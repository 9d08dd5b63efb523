//! The Paillier scheme as mathematics: what encryption, decryption and the
//! addition of ciphertexts compute, and why decryption undoes encryption.
//!
//! With two different primes `p` and `q`, `n = p * q` and
//! `t = (p - 1) * (q - 1)` coprime to `n`, a plaintext `m` is encrypted with
//! a blinding factor `r` as `r^n * (1 + n)^m` modulo `n^2`. Raising a
//! ciphertext to the power `t` removes the blinding, by Euler's theorem, and
//! leaves `1 + (m * t mod n) * n`, from which `m` is read off.

use crate::arith::{
    coprime,
    divides,
    is_prime,
    lemma_common_divisor_divides_gcd,
    lemma_coprime_has_inverse,
    lemma_coprime_product_divides,
    lemma_coprime_product_factor,
    lemma_distinct_primes_coprime,
    lemma_mul_congruent,
    lemma_multiple_divides,
};
use crate::fermat::{lemma_fermat_little, lemma_pow_unfold};
use crate::modexp::{mod_exp_fits, mod_pow};
use crate::uint::{has_inverse_mod, is_inverse_mod, width_bound, CryptoError};
use vstd::arithmetic::div_mod::{
    lemma_div_by_multiple,
    lemma_fundamental_div_mod,
    lemma_mod_bound,
    lemma_mod_equivalence,
    lemma_mod_multiples_vanish,
    lemma_mod_twice,
    lemma_mul_mod_noop_general,
    lemma_small_mod,
};
use vstd::arithmetic::power::{
    lemma1_pow,
    lemma_pow0,
    lemma_pow_distributes,
    lemma_pow_mod_noop,
    lemma_pow_multiplies,
    pow,
};
use vstd::prelude::*;

verus! {

/// Euler's totient of `p * q` for two different primes: `(p - 1) * (q - 1)`.
pub open spec fn totient(p: nat, q: nat) -> nat {
    ((p - 1) * (q - 1)) as nat
}

/// `p` and `q` make a key: two different primes whose product is coprime to
/// its totient.
pub open spec fn valid_primes(p: nat, q: nat) -> bool {
    is_prime(p) && is_prime(q) && p != q && coprime(totient(p, q), p * q)
}

/// What is checked of `p` and `q` when a key is built from them: they
/// differ, their product is odd and at least two, and the totient has an
/// inverse modulo it. Valid primes pass these checks. That `p` and `q` are primes is not
/// checked: it is for the caller to see to, and the laws of the scheme are
/// stated of valid primes only.
pub open spec fn key_checks(p: nat, q: nat) -> bool {
    p != q && p * q >= 2 && (p * q) % 2 == 1 && has_inverse_mod(totient(p, q), p * q)
}

/// How building a key from `p` and `q` ends.
pub open spec fn key_outcome(p: nat, q: nat) -> Result<(), CryptoError> {
    if (p * q) * (p * q) >= width_bound() {
        Err(CryptoError::ArithmeticOverflow)
    } else if !key_checks(p, q) {
        Err(CryptoError::InvalidModulus)
    } else {
        Ok(())
    }
}

/// `r` may blind a ciphertext under the modulus `n`: it lies in `[1, n)` and
/// is coprime to `n`.
pub open spec fn is_blinding_factor(n: nat, r: nat) -> bool {
    1 <= r < n && coprime(r, n)
}

/// The ciphertext of `m` under the modulus `n` with the blinding factor `r`.
pub open spec fn enc_value(n: nat, m: nat, r: nat) -> nat {
    (mod_pow(r, n, n * n) * mod_pow(1 + n, m, n * n)) % (n * n)
}

/// Whether that ciphertext is computed without overflow.
pub open spec fn enc_fits(n: nat, m: nat, r: nat) -> bool {
    &&& mod_exp_fits(r, n, n * n)
    &&& 1 + n < width_bound()
    &&& mod_exp_fits(1 + n, m, n * n)
    &&& mod_pow(r, n, n * n) * mod_pow(1 + n, m, n * n) < width_bound()
}

/// What encryption with a given blinding factor returns.
pub open spec fn enc_with_r_spec(n: nat, m: nat, r: nat) -> Result<nat, CryptoError> {
    if enc_fits(n, m, r) {
        Ok(enc_value(n, m, r))
    } else {
        Err(CryptoError::ArithmeticOverflow)
    }
}

/// The ciphertext `c` raised to the totient, modulo `n^2`.
pub open spec fn residue(p: nat, q: nat, c: nat) -> nat {
    mod_pow(c, totient(p, q), (p * q) * (p * q))
}

/// The inverse of `a` modulo `m` that lies below `m`, where there is one.
pub open spec fn mod_inverse(a: nat, m: nat) -> nat {
    choose|x: nat| is_inverse_mod(x, a, m)
}

/// The plaintext that a number `u` of the form `1 + k * n` stands for.
pub open spec fn plaintext_of_residue(p: nat, q: nat, u: nat) -> nat {
    (mod_inverse(totient(p, q), p * q) * (((u - 1) / ((p * q) as int)) as nat)) % (p * q)
}

/// The plaintext of the ciphertext `c` under the key of `p` and `q`.
pub open spec fn dec_value(p: nat, q: nat, c: nat) -> nat {
    plaintext_of_residue(p, q, residue(p, q, c))
}

/// What decryption returns.
pub open spec fn dec_spec(p: nat, q: nat, c: nat) -> Result<nat, CryptoError> {
    let n = p * q;
    let u = residue(p, q, c);
    if !mod_exp_fits(c, totient(p, q), n * n) || u == 0 {
        Err(CryptoError::ArithmeticOverflow)
    } else if (u - 1) % (n as int) != 0 {
        Err(CryptoError::InvalidCiphertext)
    } else if mod_inverse(totient(p, q), n) * ((u - 1) / (n as int)) >= width_bound() {
        Err(CryptoError::ArithmeticOverflow)
    } else {
        Ok(dec_value(p, q, c))
    }
}

/// The ciphertext of the sum of what `a` and `b` encrypt.
pub open spec fn add_value(n: nat, a: nat, b: nat) -> nat {
    (a * b) % (n * n)
}

/// What the addition of two ciphertexts returns.
pub open spec fn add_spec(n: nat, a: nat, b: nat) -> Result<nat, CryptoError> {
    if a * b < width_bound() {
        Ok(add_value(n, a, b))
    } else {
        Err(CryptoError::ArithmeticOverflow)
    }
}

/// What encryption with a random blinding factor may yield: what encryption
/// with some blinding factor yields, or `BlindingExhausted`.
pub open spec fn is_encryption_outcome(n: nat, m: nat, out: Result<nat, CryptoError>) -> bool {
    out == Err::<nat, CryptoError>(CryptoError::BlindingExhausted) || exists|r: nat|
        is_blinding_factor(n, r) && out == #[trigger] enc_with_r_spec(n, m, r)
}

/// What adding `v`, encrypted with the blinding factor `r`, to the
/// ciphertext `a` returns.
pub open spec fn add_u64_spec(n: nat, a: nat, v: nat, r: nat) -> Result<nat, CryptoError> {
    match enc_with_r_spec(n, v, r) {
        Ok(c) => add_spec(n, a, c),
        Err(e) => Err(e),
    }
}

/// What adding `v` with a random blinding factor may yield.
pub open spec fn is_add_u64_outcome(n: nat, a: nat, v: nat, out: Result<nat, CryptoError>) -> bool {
    out == Err::<nat, CryptoError>(CryptoError::BlindingExhausted) || exists|r: nat|
        is_blinding_factor(n, r) && out == #[trigger] add_u64_spec(n, a, v, r)
}

/// What `reveal_u64` returns for the ciphertext `c`: the low 64 bits of the
/// plaintext.
pub open spec fn reveal_spec(p: nat, q: nat, c: nat) -> Result<u64, CryptoError> {
    match dec_spec(p, q, c) {
        Ok(m) => Ok((m % 0x1_0000_0000_0000_0000) as u64),
        Err(e) => Err(e),
    }
}

/// The binomial theorem modulo `n^2`: `(1 + a * n)^k` is congruent to
/// `1 + k * a * n`.
pub proof fn lemma_one_plus_multiple_pow(n: int, a: int, k: nat)
    requires
        n >= 1,
    ensures
        pow(1 + a * n, k) % (n * n) == (1 + k * a * n) % (n * n),
    decreases k,
{
    let x = 1 + a * n;
    let nn = n * n;
    assert(nn > 0) by (nonlinear_arith)
        requires
            n >= 1,
            nn == n * n,
    ;
    if k == 0 {
        lemma_pow0(x);
        assert(0 * a * n == 0) by (nonlinear_arith);
    } else {
        let j = (k - 1) as nat;
        lemma_one_plus_multiple_pow(n, a, j);
        lemma_pow_unfold(x, k);
        lemma_mul_congruent(x, x, pow(x, j), 1 + j * a * n, nn);
        assert(x * (1 + j * a * n) == nn * (j * a * a) + (1 + k * a * n)) by (nonlinear_arith)
            requires
                x == 1 + a * n,
                nn == n * n,
                j == k - 1,
        ;
        lemma_mod_multiples_vanish(j * a * a, 1 + k * a * n, nn);
    }
}

/// The facts about a key that the proofs below start from.
pub proof fn lemma_key_facts(p: nat, q: nat)
    requires
        valid_primes(p, q),
    ensures
        p >= 2,
        q >= 2,
        p * q >= 6,
        (p * q) * (p * q) >= 36,
        1 <= totient(p, q) < p * q,
        totient(p, q) == (p - 1) * (q - 1),
        (p * q) % 2 == 1,
        has_inverse_mod(totient(p, q), p * q),
        is_inverse_mod(mod_inverse(totient(p, q), p * q), totient(p, q), p * q),
{
    let n = p * q;
    let t = totient(p, q);
    assert(n >= 6 && (p - 1) * (q - 1) >= 1 && (p - 1) * (q - 1) < n && n * n >= 36)
        by (nonlinear_arith)
        requires
            p >= 2,
            q >= 2,
            p != q,
            n == p * q,
    ;
    lemma_coprime_has_inverse(t, n);
    if n % 2 == 0 {
        // one of the primes is two, the other is odd, so two divides the totient too
        if p % 2 == 1 && q % 2 == 1 {
            let (a, b) = (p / 2, q / 2);
            assert(n == 2 * (2 * a * b + a + b) + 1) by (nonlinear_arith)
                requires
                    n == p * q,
                    p == 2 * a + 1,
                    q == 2 * b + 1,
            ;
        }
        if p % 2 == 0 {
            assert(divides(2, p as int));
            assert(q % 2 == 1) by {
                if q % 2 == 0 {
                    assert(divides(2, q as int));
                }
            }
        } else {
            assert(divides(2, q as int));
        }
        assert(t % 2 == 0) by (nonlinear_arith)
            requires
                t == (p - 1) * (q - 1),
                (p == 2 && q % 2 == 1) || (q == 2 && p % 2 == 1),
        ;
        assert(divides(2, t as int));
        assert(divides(2, n as int));
        lemma_common_divisor_divides_gcd(2, t, n);
    }
}

/// Valid primes pass the checks made when a key is built.
pub proof fn lemma_valid_primes_pass_checks(p: nat, q: nat)
    requires
        valid_primes(p, q),
    ensures
        key_checks(p, q),
{
    lemma_key_facts(p, q);
}

/// What the checks made when a key is built say of the totient.
pub proof fn lemma_checked_key_facts(p: nat, q: nat)
    requires
        key_checks(p, q),
    ensures
        p >= 1,
        q >= 1,
        totient(p, q) == (p - 1) * (q - 1),
        totient(p, q) < p * q,
        is_inverse_mod(mod_inverse(totient(p, q), p * q), totient(p, q), p * q),
{
    assert(p >= 1 && q >= 1 && (p - 1) * (q - 1) >= 0 && (p - 1) * (q - 1) < p * q)
        by (nonlinear_arith)
        requires
            p * q >= 2,
    ;
}

/// Euler's theorem for the product of two different primes: a number coprime
/// to `p * q`, raised to the totient, leaves the remainder one.
pub proof fn lemma_euler_semiprime(p: nat, q: nat, r: nat)
    requires
        is_prime(p),
        is_prime(q),
        p != q,
        coprime(r, p * q),
    ensures
        pow(r as int, totient(p, q)) % ((p * q) as int) == 1,
{
    let (pi, qi, ri) = (p as int, q as int, r as int);
    let p_pred = (p - 1) as nat;
    let q_pred = (q - 1) as nat;
    let t = totient(p, q);
    assert(p * q == q * p && p_pred * q_pred == q_pred * p_pred && p_pred * q_pred >= 0 && p * q >= 4)
        by (nonlinear_arith)
        requires
            p >= 2,
            q >= 2,
            p_pred == p - 1,
            q_pred == q - 1,
    ;
    assert(t == p_pred * q_pred);
    lemma_coprime_product_factor(r, p, q);
    lemma_coprime_product_factor(r, q, p);
    lemma_fermat_little(r, p);
    lemma_fermat_little(r, q);
    // modulo p
    lemma_pow_multiplies(ri, p_pred, q_pred);
    lemma_pow_mod_noop(pow(ri, p_pred), q_pred, pi);
    lemma1_pow(q_pred);
    lemma_small_mod(1, p);
    assert(pow(ri, t) % pi == 1);
    // modulo q
    lemma_pow_multiplies(ri, q_pred, p_pred);
    lemma_pow_mod_noop(pow(ri, q_pred), p_pred, qi);
    lemma1_pow(p_pred);
    lemma_small_mod(1, q);
    assert(pow(ri, t) % qi == 1);
    // together
    let x = pow(ri, t);
    lemma_mod_equivalence(x, 1, pi);
    lemma_mod_equivalence(x, 1, qi);
    lemma_distinct_primes_coprime(p, q);
    lemma_coprime_product_divides(p, q, x - 1);
    lemma_mod_equivalence(x, 1, (p * q) as int);
    lemma_small_mod(1, p * q);
}

/// The blinding vanishes: for `r` coprime to `n = p * q`, the number `r^n`
/// raised to the totient leaves the remainder one modulo `n^2`.
pub proof fn lemma_blinding_vanishes(p: nat, q: nat, r: nat)
    requires
        is_prime(p),
        is_prime(q),
        p != q,
        coprime(r, p * q),
    ensures
        pow(pow(r as int, p * q), totient(p, q)) % (((p * q) * (p * q)) as int) == 1,
{
    let n = p * q;
    let ni = n as int;
    let t = totient(p, q);
    let y = pow(r as int, t);
    assert(n >= 4 && ni * ni >= 16) by (nonlinear_arith)
        requires
            p >= 2,
            q >= 2,
            n == p * q,
            ni == n,
    ;
    lemma_euler_semiprime(p, q, r);
    lemma_pow_multiplies(r as int, n, t);
    lemma_pow_multiplies(r as int, t, n);
    assert(n * t == t * n) by (nonlinear_arith);
    assert(pow(pow(r as int, n), t) == pow(y, n));
    let a = y / ni;
    lemma_fundamental_div_mod(y, ni);
    assert(y == 1 + a * ni) by (nonlinear_arith)
        requires
            y == ni * a + 1,
    ;
    lemma_one_plus_multiple_pow(ni, a, n);
    assert(1 + n * a * ni == (ni * ni) * a + 1) by (nonlinear_arith)
        requires
            ni == n,
    ;
    lemma_mod_multiples_vanish(a, 1, ni * ni);
    lemma_small_mod(1, (ni * ni) as nat);
}

/// A number of the form `1 + k * n`, reduced modulo `n^2`, is
/// `1 + (k mod n) * n`.
pub proof fn lemma_one_plus_multiple_reduced(n: int, k: int)
    requires
        n >= 2,
    ensures
        (1 + k * n) % (n * n) == 1 + (k % n) * n,
        0 <= k % n < n,
{
    let nn = n * n;
    let low = k % n;
    lemma_fundamental_div_mod(k, n);
    lemma_mod_bound(k, n);
    assert(1 + k * n == nn * (k / n) + (1 + low * n)) by (nonlinear_arith)
        requires
            k == n * (k / n) + low,
            nn == n * n,
    ;
    assert(0 <= 1 + low * n < nn) by (nonlinear_arith)
        requires
            0 <= low < n,
            n >= 2,
            nn == n * n,
    ;
    lemma_mod_multiples_vanish(k / n, 1 + low * n, nn);
    lemma_small_mod((1 + low * n) as nat, nn as nat);
}

/// What raising to the totient leaves of a blinded power of `1 + n`: if `c`
/// is congruent to `rho * (1 + n)^m` modulo `n^2` and `rho` raised to the
/// totient is congruent to one, then `c` raised to the totient is congruent
/// to `1 + (m * t mod n) * n`.
pub proof fn lemma_residue_of_blinded(p: nat, q: nat, c: int, rho: int, m: nat)
    requires
        valid_primes(p, q),
        c % (((p * q) * (p * q)) as int) == (rho * pow((1 + p * q) as int, m)) % (((p * q) * (p
            * q)) as int),
        pow(rho, totient(p, q)) % (((p * q) * (p * q)) as int) == 1,
    ensures
        pow(c, totient(p, q)) % (((p * q) * (p * q)) as int) == 1 + ((m * totient(p, q)) % (p
            * q)) * (p * q),
{
    lemma_key_facts(p, q);
    let n = (p * q) as int;
    let nn = n * n;
    let t = totient(p, q);
    let g = pow(1 + n, m);
    assert(nn == (p * q) * (p * q));
    lemma_pow_mod_noop(c, t, nn);
    lemma_pow_mod_noop(rho * g, t, nn);
    assert(pow(c, t) % nn == pow(rho * g, t) % nn);
    lemma_pow_distributes(rho, g, t);
    lemma_pow_multiplies(1 + n, m, t);
    assert(pow(g, t) == pow(1 + n, m * t));
    lemma_one_plus_multiple_pow(n, 1, m * t);
    assert(1 + 1 * n == 1 + n);
    assert((m * t) * 1 * n == (m * t) * n) by (nonlinear_arith);
    lemma_small_mod(1, nn as nat);
    lemma_mul_congruent(pow(rho, t), 1, pow(g, t), 1 + (m * t) * n, nn);
    assert(1 * (1 + (m * t) * n) == 1 + (m * t) * n);
    lemma_one_plus_multiple_reduced(n, (m * t) as int);
}

/// From the residue `1 + (m * t mod n) * n`, decryption reads off `m mod n`.
pub proof fn lemma_plaintext_of_residue(p: nat, q: nat, m: nat, u: nat)
    requires
        valid_primes(p, q),
        u == 1 + ((m * totient(p, q)) % (p * q)) * (p * q),
    ensures
        u >= 1,
        (u - 1) % ((p * q) as int) == 0,
        (u - 1) / ((p * q) as int) < p * q,
        plaintext_of_residue(p, q, u) == m % (p * q),
{
    lemma_key_facts(p, q);
    let n = (p * q) as int;
    let t = totient(p, q) as int;
    let mi = m as int;
    let k = (mi * t) % n;
    let inv = mod_inverse(totient(p, q), p * q) as int;
    lemma_mod_bound(mi * t, n);
    lemma_div_by_multiple(k, n);
    lemma_multiple_divides(n, k);
    assert((u - 1) / n == k);
    // inv * ((m * t) mod n) = inv * (m * t) = m * (inv * t) = m, all modulo n
    lemma_mul_mod_noop_general(inv, mi * t, n);
    assert(inv * (mi * t) == mi * (inv * t)) by (nonlinear_arith);
    lemma_mul_mod_noop_general(mi, inv * t, n);
    lemma_small_mod(1, n as nat);
    assert((inv * t) % n == 1);
    assert(mi * 1 == mi);
    lemma_mod_twice(mi, n);
    assert((inv * k) % n == mi % n);
}

} // verus!
