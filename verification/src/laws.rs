//! What holds of the scheme as a whole: decryption undoes encryption,
//! multiplying ciphertexts adds plaintexts, the blinding factor does not
//! show in the plaintext, and keys of at most half the width never overflow.

use crate::arith::{
    coprime,
    gcd,
    lemma_coprime_has_inverse,
    lemma_divides_quotient,
    lemma_mul_congruent,
    lemma_multiple_divides,
};
use crate::modexp::{lemma_steps_fit_half_width, mod_exp_fits, mod_pow};
use crate::paillier::{
    add_spec,
    add_value,
    dec_spec,
    dec_value,
    enc_fits,
    enc_value,
    enc_with_r_spec,
    is_blinding_factor,
    is_encryption_outcome,
    lemma_blinding_vanishes,
    lemma_euler_semiprime,
    lemma_key_facts,
    lemma_one_plus_multiple_pow,
    lemma_plaintext_of_residue,
    lemma_residue_of_blinded,
    mod_inverse,
    residue,
    totient,
    valid_primes,
};
use crate::uint::{half_width_bound, is_inverse_mod, width_bound, CryptoError};
use vstd::arithmetic::div_mod::{
    lemma_fundamental_div_mod,
    lemma_mod_bound,
    lemma_mod_equivalence,
    lemma_mod_multiples_vanish,
    lemma_mod_twice,
    lemma_mul_mod_noop_general,
    lemma_small_mod,
};
use vstd::arithmetic::power::{
    lemma1_pow,
    lemma_pow0,
    lemma_pow1,
    lemma_pow_adds,
    lemma_pow_distributes,
    lemma_pow_mod_noop,
    lemma_pow_multiplies,
    pow,
};
use vstd::prelude::*;

verus! {

/// A ciphertext is below `n^2` and congruent to `r^n * (1 + n)^m`.
pub proof fn lemma_enc_value_form(n: nat, m: nat, r: nat)
    requires
        n >= 2,
    ensures
        enc_value(n, m, r) < n * n,
        enc_value(n, m, r) % (n * n) == (pow(r as int, n) * pow((1 + n) as int, m)) % ((n
            * n) as int),
{
    let nn = (n * n) as int;
    assert(nn >= 4) by (nonlinear_arith)
        requires
            n >= 2,
            nn == n * n,
    ;
    let a = pow(r as int, n);
    let b = pow((1 + n) as int, m);
    lemma_mod_bound(a, nn);
    lemma_mod_bound(b, nn);
    if m == 0 {
        lemma_pow0((1 + n) as int);
        lemma_small_mod(1, nn as nat);
    }
    assert(mod_pow(r, n, n * n) == a % nn);
    assert(mod_pow(1 + n, m, n * n) == b % nn);
    lemma_mul_mod_noop_general(a, b, nn);
    lemma_mod_bound((a % nn) * (b % nn), nn);
    lemma_mod_twice((a % nn) * (b % nn), nn);
}

/// Raised to the totient, the ciphertext of `m` leaves `1 + (m * t mod n) * n`.
pub proof fn lemma_residue_of_ciphertext(p: nat, q: nat, m: nat, r: nat)
    requires
        valid_primes(p, q),
        coprime(r, p * q),
    ensures
        residue(p, q, enc_value(p * q, m, r)) == 1 + ((m * totient(p, q)) % (p * q)) * (p * q),
{
    let n = p * q;
    lemma_key_facts(p, q);
    lemma_enc_value_form(n, m, r);
    lemma_blinding_vanishes(p, q, r);
    lemma_residue_of_blinded(p, q, enc_value(n, m, r) as int, pow(r as int, n), m);
}

/// What decryption makes of a ciphertext whose residue stands for `m`: the
/// plaintext `m mod n`, unless a product overflows on the way.
proof fn lemma_dec_of_residue(p: nat, q: nat, m: nat, c: nat)
    requires
        valid_primes(p, q),
        residue(p, q, c) == 1 + ((m * totient(p, q)) % (p * q)) * (p * q),
    ensures
        dec_value(p, q, c) == m % (p * q),
        dec_spec(p, q, c) == Ok::<nat, CryptoError>(m % (p * q)) || dec_spec(p, q, c) == Err::<
            nat,
            CryptoError,
        >(CryptoError::ArithmeticOverflow),
        mod_exp_fits(c, totient(p, q), (p * q) * (p * q)) && (p * q) * (p * q)
            <= half_width_bound() ==> dec_spec(p, q, c) == Ok::<nat, CryptoError>(m % (p * q)),
{
    let n = p * q;
    let u = residue(p, q, c);
    lemma_key_facts(p, q);
    lemma_plaintext_of_residue(p, q, m, u);
    if n * n <= half_width_bound() {
        let inv = mod_inverse(totient(p, q), n) as int;
        let l = (u - 1) / (n as int);
        assert(inv * l < width_bound()) by (nonlinear_arith)
            requires
                0 <= inv < n,
                0 <= l < n,
                n * n <= half_width_bound(),
                half_width_bound() < width_bound(),
        ;
    }
}

/// Decryption undoes encryption: for a key of two valid primes, a plaintext
/// below the modulus and a blinding factor coprime to the modulus, the
/// plaintext of the ciphertext is the plaintext that was encrypted, and
/// decryption returns it unless a product overflows on the way.
pub proof fn lemma_round_trip(p: nat, q: nat, m: nat, r: nat)
    requires
        valid_primes(p, q),
        m < p * q,
        coprime(r, p * q),
    ensures
        dec_value(p, q, enc_value(p * q, m, r)) == m,
        dec_spec(p, q, enc_value(p * q, m, r)) == Ok::<nat, CryptoError>(m) || dec_spec(
            p,
            q,
            enc_value(p * q, m, r),
        ) == Err::<nat, CryptoError>(CryptoError::ArithmeticOverflow),
{
    lemma_residue_of_ciphertext(p, q, m, r);
    lemma_dec_of_residue(p, q, m, enc_value(p * q, m, r));
    lemma_small_mod(m, p * q);
}

/// Multiplying ciphertexts adds plaintexts: the product of the ciphertexts
/// of `m1` and `m2` decrypts to `m1 + m2` modulo `n`, which is `m1 + m2`
/// itself where that is below `n`.
pub proof fn lemma_homomorphic_add(p: nat, q: nat, m1: nat, m2: nat, r1: nat, r2: nat)
    requires
        valid_primes(p, q),
        coprime(r1, p * q),
        coprime(r2, p * q),
    ensures
        ({
            let n = p * q;
            let c = add_value(n, enc_value(n, m1, r1), enc_value(n, m2, r2));
            &&& dec_value(p, q, c) == (m1 + m2) % n
            &&& m1 + m2 < n ==> dec_value(p, q, c) == m1 + m2
            &&& dec_spec(p, q, c) == Ok::<nat, CryptoError>((m1 + m2) % n) || dec_spec(p, q, c)
                == Err::<nat, CryptoError>(CryptoError::ArithmeticOverflow)
            &&& residue(p, q, c) == 1 + (((m1 + m2) * totient(p, q)) % n) * n
        }),
{
    let n = p * q;
    let nn = (n * n) as int;
    let t = totient(p, q);
    let c1 = enc_value(n, m1, r1);
    let c2 = enc_value(n, m2, r2);
    let c = add_value(n, c1, c2);
    lemma_key_facts(p, q);
    lemma_enc_value_form(n, m1, r1);
    lemma_enc_value_form(n, m2, r2);
    let rho1 = pow(r1 as int, n);
    let rho2 = pow(r2 as int, n);
    let g1 = pow((1 + n) as int, m1);
    let g2 = pow((1 + n) as int, m2);
    // the product is congruent to (rho1 * rho2) * (1 + n)^(m1 + m2)
    lemma_mul_congruent(c1 as int, rho1 * g1, c2 as int, rho2 * g2, nn);
    lemma_pow_adds((1 + n) as int, m1, m2);
    assert((rho1 * g1) * (rho2 * g2) == (rho1 * rho2) * (g1 * g2)) by (nonlinear_arith);
    lemma_mod_twice((c1 * c2) as int, nn);
    assert(c as int % nn == ((rho1 * rho2) * pow((1 + n) as int, m1 + m2)) % nn);
    // the blinding of the product vanishes as that of each factor does
    lemma_blinding_vanishes(p, q, r1);
    lemma_blinding_vanishes(p, q, r2);
    lemma_pow_distributes(rho1, rho2, t);
    lemma_small_mod(1, nn as nat);
    lemma_mul_congruent(pow(rho1, t), 1, pow(rho2, t), 1, nn);
    assert(pow(rho1 * rho2, t) % nn == 1);
    lemma_residue_of_blinded(p, q, c as int, rho1 * rho2, m1 + m2);
    lemma_dec_of_residue(p, q, m1 + m2, c);
    if m1 + m2 < n {
        lemma_small_mod(m1 + m2, n);
    }
}

/// The blinding factor does not show in the plaintext: two ciphertexts of
/// one plaintext, made with any two blinding factors, decrypt alike.
pub proof fn lemma_blinding_independent(p: nat, q: nat, m: nat, r1: nat, r2: nat)
    requires
        valid_primes(p, q),
        coprime(r1, p * q),
        coprime(r2, p * q),
    ensures
        dec_value(p, q, enc_value(p * q, m, r1)) == dec_value(p, q, enc_value(p * q, m, r2)),
        dec_value(p, q, enc_value(p * q, m, r1)) == m % (p * q),
{
    lemma_residue_of_ciphertext(p, q, m, r1);
    lemma_residue_of_ciphertext(p, q, m, r2);
    lemma_dec_of_residue(p, q, m, enc_value(p * q, m, r1));
    lemma_dec_of_residue(p, q, m, enc_value(p * q, m, r2));
}

/// Adding an encrypted zero changes nothing that decryption sees: whatever
/// the number `c` is, its product with a ciphertext of zero has the residue
/// of `c`, and so decrypts as `c` does where neither exponentiation
/// overflows.
pub proof fn lemma_add_zero(p: nat, q: nat, c: nat, r: nat)
    requires
        valid_primes(p, q),
        coprime(r, p * q),
    ensures
        ({
            let n = p * q;
            let sum = add_value(n, c, enc_value(n, 0, r));
            &&& residue(p, q, sum) == residue(p, q, c)
            &&& dec_value(p, q, sum) == dec_value(p, q, c)
            &&& mod_exp_fits(sum, totient(p, q), n * n) && mod_exp_fits(c, totient(p, q), n * n)
                ==> dec_spec(p, q, sum) == dec_spec(p, q, c)
            &&& n * n <= half_width_bound() && c < half_width_bound() ==> dec_spec(p, q, sum)
                == dec_spec(p, q, c)
        }),
{
    let n = p * q;
    let nn = (n * n) as int;
    let t = totient(p, q);
    let zero = enc_value(n, 0, r);
    let sum = add_value(n, c, zero);
    lemma_key_facts(p, q);
    lemma_residue_of_ciphertext(p, q, 0, r);
    assert(0 * t == 0);
    lemma_small_mod(0, n);
    assert(0 * n == 0);
    assert(pow(zero as int, t) % nn == 1);
    lemma_pow_mod_noop((c * zero) as int, t, nn);
    lemma_pow_distributes(c as int, zero as int, t);
    lemma_small_mod(1, nn as nat);
    lemma_mul_congruent(pow(c as int, t), pow(c as int, t), pow(zero as int, t), 1, nn);
    assert(pow(c as int, t) * 1 == pow(c as int, t));
    if n * n <= half_width_bound() && c < half_width_bound() {
        lemma_mod_bound((c * zero) as int, nn);
        lemma_steps_fit_half_width(1, c, t, n * n);
        lemma_steps_fit_half_width(1, sum, t, n * n);
    }
}

/// Keys of at most half the width never overflow: where `n^2` is at most
/// 2^128, encryption with a blinding factor below `n` succeeds and
/// decryption of the result returns the plaintext modulo `n`.
pub proof fn lemma_half_width_round_trip(p: nat, q: nat, m: nat, r: nat)
    requires
        valid_primes(p, q),
        (p * q) * (p * q) <= half_width_bound(),
        r < p * q,
        coprime(r, p * q),
    ensures
        enc_with_r_spec(p * q, m, r) == Ok::<nat, CryptoError>(enc_value(p * q, m, r)),
        dec_spec(p, q, enc_value(p * q, m, r)) == Ok::<nat, CryptoError>(m % (p * q)),
{
    let n = p * q;
    let nn = n * n;
    let h = half_width_bound() as int;
    lemma_key_facts(p, q);
    assert(n + 1 < nn) by (nonlinear_arith)
        requires
            n >= 6,
            nn == n * n,
    ;
    assert(h * h == width_bound()) by (nonlinear_arith)
        requires
            h == 0x1_0000_0000_0000_0000_0000_0000_0000_0000int,
    ;
    lemma_steps_fit_half_width(1, r, n, nn);
    lemma_steps_fit_half_width(1, 1 + n, m, nn);
    let a = mod_pow(r, n, nn);
    let b = mod_pow(1 + n, m, nn);
    lemma_mod_bound(pow(r as int, n), nn as int);
    lemma_mod_bound(pow((1 + n) as int, m), nn as int);
    assert(a * b < h * h) by (nonlinear_arith)
        requires
            0 <= a < h,
            0 <= b < h,
    ;
    assert(enc_fits(n, m, r));
    let c = enc_value(n, m, r);
    lemma_enc_value_form(n, m, r);
    lemma_steps_fit_half_width(1, c, totient(p, q), nn);
    lemma_residue_of_ciphertext(p, q, m, r);
    lemma_dec_of_residue(p, q, m, c);
}

/// Under such a key the addition of two ciphertexts succeeds.
pub proof fn lemma_half_width_add(n: nat, a: nat, b: nat)
    requires
        n * n <= half_width_bound(),
        a < n * n,
        b < n * n,
    ensures
        add_spec(n, a, b) == Ok::<nat, CryptoError>(add_value(n, a, b)),
{
    let h = half_width_bound() as int;
    assert(h * h == width_bound()) by (nonlinear_arith)
        requires
            h == 0x1_0000_0000_0000_0000_0000_0000_0000_0000int,
    ;
    assert(a * b < h * h) by (nonlinear_arith)
        requires
            0 <= a < h,
            0 <= b < h,
    ;
}

/// Decryption undoes encryption with a random blinding factor too: whatever
/// ciphertext `c` such an encryption of a plaintext below the modulus
/// yields, its plaintext is the one that was encrypted.
pub proof fn lemma_encrypt_round_trip(p: nat, q: nat, m: nat, c: nat)
    requires
        valid_primes(p, q),
        m < p * q,
        is_encryption_outcome(p * q, m, Ok::<nat, CryptoError>(c)),
    ensures
        dec_value(p, q, c) == m,
        dec_spec(p, q, c) == Ok::<nat, CryptoError>(m) || dec_spec(p, q, c) == Err::<
            nat,
            CryptoError,
        >(CryptoError::ArithmeticOverflow),
        (p * q) * (p * q) <= half_width_bound() ==> dec_spec(p, q, c) == Ok::<nat, CryptoError>(
            m,
        ),
{
    let n = p * q;
    let r = choose|r: nat|
        is_blinding_factor(n, r) && Ok::<nat, CryptoError>(c) == #[trigger] enc_with_r_spec(
            n,
            m,
            r,
        );
    assert(c == enc_value(n, m, r));
    lemma_round_trip(p, q, m, r);
    lemma_small_mod(m, n);
    if n * n <= half_width_bound() {
        lemma_half_width_round_trip(p, q, m, r);
    }
}

/// Under a key of at most half the width the sum of two ciphertexts is
/// computed and decrypted without overflow.
pub proof fn lemma_half_width_homomorphic_add(
    p: nat,
    q: nat,
    m1: nat,
    m2: nat,
    r1: nat,
    r2: nat,
)
    requires
        valid_primes(p, q),
        (p * q) * (p * q) <= half_width_bound(),
        coprime(r1, p * q),
        coprime(r2, p * q),
    ensures
        ({
            let n = p * q;
            let c1 = enc_value(n, m1, r1);
            let c2 = enc_value(n, m2, r2);
            &&& add_spec(n, c1, c2) == Ok::<nat, CryptoError>(add_value(n, c1, c2))
            &&& dec_spec(p, q, add_value(n, c1, c2)) == Ok::<nat, CryptoError>((m1 + m2) % n)
        }),
{
    let n = p * q;
    let c1 = enc_value(n, m1, r1);
    let c2 = enc_value(n, m2, r2);
    let c = add_value(n, c1, c2);
    lemma_key_facts(p, q);
    lemma_enc_value_form(n, m1, r1);
    lemma_enc_value_form(n, m2, r2);
    lemma_half_width_add(n, c1, c2);
    lemma_mod_bound((c1 * c2) as int, (n * n) as int);
    lemma_steps_fit_half_width(1, c, totient(p, q), n * n);
    lemma_homomorphic_add(p, q, m1, m2, r1, r2);
    lemma_dec_of_residue(p, q, m1 + m2, c);
}

/// Numbers congruent modulo `n^2` are congruent modulo `n`.
proof fn lemma_congruent_modulo_root(x: int, y: int, n: int)
    requires
        n >= 1,
        x % (n * n) == y % (n * n),
    ensures
        x % n == y % n,
{
    let nn = n * n;
    assert(nn >= 1) by (nonlinear_arith)
        requires
            n >= 1,
            nn == n * n,
    ;
    lemma_mod_equivalence(x, y, nn);
    lemma_divides_quotient(nn, x - y);
    let k = (x - y) / nn;
    assert(x - y == n * (n * k)) by (nonlinear_arith)
        requires
            x - y == nn * k,
            nn == n * n,
    ;
    lemma_multiple_divides(n, n * k);
    lemma_mod_equivalence(x, y, n);
}

/// A blinding factor is recovered from its `n`-th power modulo `n`: with
/// `k * n` congruent to one modulo the totient, `(r^n)^k` is congruent to
/// `r`.
proof fn lemma_blinding_recovered(p: nat, q: nat, r: nat, k: nat)
    requires
        valid_primes(p, q),
        is_blinding_factor(p * q, r),
        (k * (p * q)) % totient(p, q) == 1,
    ensures
        pow(pow(r as int, p * q), k) % ((p * q) as int) == r,
{
    let n = p * q;
    let ni = n as int;
    let t = totient(p, q);
    let ri = r as int;
    lemma_key_facts(p, q);
    let j = (k * n) / t;
    lemma_fundamental_div_mod((k * n) as int, t as int);
    assert(k * n == t * j + 1);
    lemma_pow_multiplies(ri, n, k);
    assert(n * k == k * n) by (nonlinear_arith);
    lemma_pow_adds(ri, t * j, 1);
    lemma_pow1(ri);
    lemma_pow_multiplies(ri, t, j);
    lemma_euler_semiprime(p, q, r);
    lemma_pow_mod_noop(pow(ri, t), j, ni);
    lemma1_pow(j);
    lemma_small_mod(1, n);
    assert(pow(ri, t * j) % ni == 1);
    lemma_mul_congruent(pow(ri, t * j), 1, ri, ri, ni);
    assert(1 * ri == ri);
    lemma_small_mod(r, n);
}

/// Different blinding factors give different ciphertexts of one plaintext.
pub proof fn lemma_distinct_blinding_distinct_ciphertexts(
    p: nat,
    q: nat,
    m: nat,
    r1: nat,
    r2: nat,
)
    requires
        valid_primes(p, q),
        is_blinding_factor(p * q, r1),
        is_blinding_factor(p * q, r2),
        r1 != r2,
    ensures
        enc_value(p * q, m, r1) != enc_value(p * q, m, r2),
{
    let n = p * q;
    let ni = n as int;
    let nn = ni * ni;
    let t = totient(p, q);
    lemma_key_facts(p, q);
    if enc_value(n, m, r1) == enc_value(n, m, r2) {
        let c = enc_value(n, m, r1) as int;
        let rho1 = pow(r1 as int, n);
        let rho2 = pow(r2 as int, n);
        let g = pow((1 + n) as int, m);
        let h = pow((1 + n) as int, m * (n - 1) as nat);
        lemma_enc_value_form(n, m, r1);
        lemma_enc_value_form(n, m, r2);
        // g * h is (1 + n)^(m * n), which is congruent to one modulo n^2
        assert(m * (n - 1) >= 0 && m + m * (n - 1) == m * n) by (nonlinear_arith)
            requires
                n >= 1,
        ;
        lemma_pow_adds((1 + n) as int, m, (m * (n - 1)) as nat);
        lemma_one_plus_multiple_pow(ni, 1, m * n);
        assert(1 + (m * n) * 1 * ni == nn * m + 1) by (nonlinear_arith)
            requires
                ni == n,
                nn == ni * ni,
        ;
        assert(1 + 1 * ni == 1 + n);
        lemma_mod_multiples_vanish(m as int, 1, nn);
        lemma_small_mod(1, nn as nat);
        assert((g * h) % nn == 1);
        // so both rho1 and rho2 are congruent to c * h modulo n^2
        lemma_mul_congruent(c, rho1 * g, h, h, nn);
        lemma_mul_congruent(c, rho2 * g, h, h, nn);
        assert((rho1 * g) * h == rho1 * (g * h)) by (nonlinear_arith);
        assert((rho2 * g) * h == rho2 * (g * h)) by (nonlinear_arith);
        lemma_mul_congruent(rho1, rho1, g * h, 1, nn);
        lemma_mul_congruent(rho2, rho2, g * h, 1, nn);
        assert(rho1 * 1 == rho1 && rho2 * 1 == rho2);
        assert(rho1 % nn == rho2 % nn);
        lemma_congruent_modulo_root(rho1, rho2, ni);
        // n has an inverse k modulo the totient
        assert(gcd(t, n) == gcd(n, t % n));
        lemma_small_mod(t, n);
        lemma_coprime_has_inverse(n, t);
        let k = choose|k: nat| is_inverse_mod(k, n, t);
        assert(t >= 2) by (nonlinear_arith)
            requires
                p >= 2,
                q >= 2,
                p != q,
                t == (p - 1) * (q - 1),
        ;
        lemma_small_mod(1, t);
        lemma_blinding_recovered(p, q, r1, k);
        lemma_blinding_recovered(p, q, r2, k);
        lemma_pow_mod_noop(rho1, k, ni);
        lemma_pow_mod_noop(rho2, k, ni);
        assert(false);
    }
}

} // verus!
