//! Keys, encryption, decryption and the encrypted counter.
//!
//! A counter holds a ciphertext. Whoever holds the public key can add to it,
//! a number or another counter, without learning what it counts; only the
//! private key reveals the count. A counter carries no mark of its key: to
//! use it with another key than the one it was made with is the caller's
//! mistake, and nothing here can detect it.

use crate::arith::{coprime, divides, gcd, lemma_divisor_bound, lemma_inverse_unique};
use crate::modexp::mod_exp;
use crate::paillier::{
    add_spec,
    add_u64_spec,
    dec_spec,
    enc_with_r_spec,
    is_add_u64_outcome,
    is_blinding_factor,
    is_encryption_outcome,
    key_checks,
    key_outcome,
    lemma_checked_key_facts,
    lemma_valid_primes_pass_checks,
    mod_inverse,
    reveal_spec,
    totient,
    valid_primes,
};
use crate::uint::{
    inverse_odd_mod,
    lemma_low_word,
    lemma_view_injective,
    quotient_remainder,
    random_below,
    remainder,
    view_result,
    width_bound,
    CryptoError,
    NonZero,
    U256,
};
use vstd::arithmetic::div_mod::lemma_mod_bound;
use vstd::pervasive::unreached;
use vstd::prelude::*;

verus! {

/// How many blinding factors `new_random_r` draws before it gives up. Each
/// draw is coprime to the modulus with a probability of at least one in the
/// modulus, and for a modulus of two large primes with a probability next to
/// one, so the bound is there for the loop to be finite, not to be reached.
pub const MAX_BLINDING_DRAWS: u64 = 0xffff_ffff_ffff_ffff;

/// The public half of a key: the modulus `n` and its square.
#[derive(Clone, Copy, Debug)]
pub struct HomomorphicPublicKey {
    n: U256,
    n_sq_mod: NonZero,
}

/// A key: the two primes, and the public half made from them. What can be
/// checked of the primes when the key is built holds of every key.
#[derive(Clone, Copy, Debug)]
pub struct HomomorphicPrivateKey {
    p: U256,
    q: U256,
    public_key: HomomorphicPublicKey,
}

/// An encrypted count.
#[derive(Clone, Copy, Debug)]
pub struct HomomorphicCounter {
    c: U256,
}

impl View for HomomorphicCounter {
    type V = nat;

    closed spec fn view(&self) -> nat {
        self.c@
    }
}

/// What a fallible operation on counters yields, with the ciphertext in
/// place of the counter.
pub open spec fn view_counter(r: Result<HomomorphicCounter, CryptoError>) -> Result<
    nat,
    CryptoError,
> {
    match r {
        Ok(c) => Ok(c@),
        Err(e) => Err(e),
    }
}

/// The square of a number that is at least two is positive.
proof fn lemma_square_positive(n: nat)
    requires
        n >= 2,
    ensures
        n * n > 0,
{
    assert(n * n > 0) by (nonlinear_arith)
        requires
            n >= 2,
    ;
}

/// Eleven and seventeen make a key.
pub proof fn lemma_demonstration_primes()
    ensures
        valid_primes(11, 17),
        totient(11, 17) == 160,
{
    assert forall|d: nat| #[trigger] divides(d, 11) implies d == 1 || d == 11 by {
        lemma_divisor_bound(d, 11);
        assert(d == 1 || d == 2 || d == 3 || d == 4 || d == 5 || d == 6 || d == 7 || d == 8 || d
            == 9 || d == 10 || d == 11);
    }
    assert forall|d: nat| #[trigger] divides(d, 17) implies d == 1 || d == 17 by {
        lemma_divisor_bound(d, 17);
        assert(d == 1 || d == 2 || d == 3 || d == 4 || d == 5 || d == 6 || d == 7 || d == 8 || d
            == 9 || d == 10 || d == 11 || d == 12 || d == 13 || d == 14 || d == 15 || d == 16 || d
            == 17);
    }
    assert(totient(11, 17) == 160);
    assert(11nat * 17nat == 187);
    assert(gcd(160, 187) == 1) by {
        reveal_with_fuel(gcd, 8);
    }
}

/// The key of the primes eleven and seventeen: a fixed key for
/// demonstration, of no security.
pub fn new_random_homomorphic_private_key() -> (key: HomomorphicPrivateKey)
    ensures
        key.prime_p() == 11,
        key.prime_q() == 17,
{
    let p = U256::from_words([11, 0, 0, 0]);
    let q = U256::from_words([17, 0, 0, 0]);
    proof {
        lemma_demonstration_primes();
        lemma_valid_primes_pass_checks(11, 17);
        assert(11nat * 17nat == 187nat);
        assert(187nat * 187nat == 34969nat);
    }
    match HomomorphicPrivateKey::from_primes(p, q) {
        Ok(key) => key,
        Err(_) => unreached(),
    }
}

/// A counter that holds `v`, encrypted under `public_key` with a random
/// blinding factor.
pub fn initialize_homomorphic_counter(public_key: &HomomorphicPublicKey, v: u64) -> (r: Result<
    HomomorphicCounter,
    CryptoError,
>)
    ensures
        is_encryption_outcome(public_key.modulus(), v as nat, view_counter(r)),
        r matches Ok(c) ==> c@ < public_key.modulus() * public_key.modulus(),
{
    HomomorphicCounter::from_ciphertext(U256::zero()).set_u64(public_key, v)
}

impl HomomorphicPrivateKey {
    #[verifier::type_invariant]
    spec fn well_formed(self) -> bool {
        key_checks(self.p@, self.q@) && self.public_key.n@ == self.p@ * self.q@
    }

    /// The first prime of the key.
    pub closed spec fn prime_p(&self) -> nat {
        self.p@
    }

    /// The second prime of the key.
    pub closed spec fn prime_q(&self) -> nat {
        self.q@
    }

    /// The key of the numbers `p` and `q`, which the caller has chosen to be
    /// two different primes.
    ///
    /// Fails with `ArithmeticOverflow` where the square of their product
    /// does not fit in 256 bits, and with `InvalidModulus` where the two are
    /// equal, their product is below two or even, or the totient has no
    /// inverse modulo it: no two valid primes are refused so. That `p` and
    /// `q` are primes is not checked.
    pub fn from_primes(p: U256, q: U256) -> (r: Result<HomomorphicPrivateKey, CryptoError>)
        ensures
            match r {
                Ok(key) => key_outcome(p@, q@) == Ok::<(), CryptoError>(()) && key.prime_p() == p@
                    && key.prime_q() == q@,
                Err(e) => key_outcome(p@, q@) == Err::<(), CryptoError>(e),
            },
    {
        proof {
            let n = p@ * q@;
            assert(n >= width_bound() ==> n * n >= width_bound()) by (nonlinear_arith)
                requires
                    width_bound() > 0,
            ;
            assert(n * n == 0 ==> n == 0) by (nonlinear_arith);
            if n >= 2 {
                assert(p@ >= 1 && q@ >= 1 && 0 <= (p@ - 1) * (q@ - 1) < n) by (nonlinear_arith)
                    requires
                        n == p@ * q@,
                        n >= 2,
                ;
            }
        }
        let n = p.checked_mul(&q)?;
        let n_sq = n.checked_mul(&n)?;
        let n_sq_mod = NonZero::new(n_sq)?;
        proof {
            if p@ == q@ {
                lemma_view_injective(p, q);
            }
        }
        if p == q || n.is_one() || !n.is_odd() {
            return Err(CryptoError::InvalidModulus);
        }
        let one = U256::one();
        let p_pred = p.checked_sub(&one)?;
        let q_pred = q.checked_sub(&one)?;
        let phi_n = p_pred.checked_mul(&q_pred)?;
        let (_inverse, exists) = inverse_odd_mod(&phi_n, &n);
        if !exists {
            return Err(CryptoError::InvalidModulus);
        }
        Ok(HomomorphicPrivateKey { p, q, public_key: HomomorphicPublicKey { n, n_sq_mod } })
    }

    /// The plaintext of the ciphertext `c`.
    ///
    /// Raises `c` to the totient modulo `n^2`, takes one off, divides by
    /// `n`, and multiplies by the inverse of the totient modulo `n`. Fails
    /// with `InvalidCiphertext` where the division leaves a remainder, which
    /// no ciphertext made under this key does, and with
    /// `ArithmeticOverflow` where a product does not fit or the power is
    /// zero.
    pub fn dec(&self, c: &U256) -> (r: Result<U256, CryptoError>)
        ensures
            view_result(r) == dec_spec(self.prime_p(), self.prime_q(), c@),
    {
        proof {
            use_type_invariant(self);
            use_type_invariant(&self.public_key);
            lemma_checked_key_facts(self.p@, self.q@);
        }
        let one = U256::one();
        let p_pred = self.p.checked_sub(&one)?;
        let q_pred = self.q.checked_sub(&one)?;
        let phi_n = p_pred.checked_mul(&q_pred)?;
        let c_prime = mod_exp(c, &phi_n, &self.public_key.n_sq_mod)?;
        let numerator = c_prime.checked_sub(&one)?;
        let n_mod = NonZero::new(self.public_key.n)?;
        let (m_prime, rem) = quotient_remainder(&numerator, &n_mod);
        if !rem.is_zero() {
            return Err(CryptoError::InvalidCiphertext);
        }
        let (inverse, _exists) = inverse_odd_mod(&phi_n, &self.public_key.n);
        proof {
            lemma_inverse_unique(
                inverse@,
                mod_inverse(phi_n@, self.public_key.n@),
                phi_n@,
                self.public_key.n@,
            );
        }
        let product = inverse.checked_mul(&m_prime)?;
        Ok(remainder(&product, &n_mod))
    }

    /// The public half of the key.
    pub fn get_public_key(&self) -> (r: HomomorphicPublicKey)
        ensures
            r.modulus() == self.prime_p() * self.prime_q(),
            key_checks(self.prime_p(), self.prime_q()),
    {
        proof {
            use_type_invariant(self);
        }
        self.public_key
    }
}

impl HomomorphicPublicKey {
    #[verifier::type_invariant]
    spec fn well_formed(self) -> bool {
        self.n@ >= 2 && self.n_sq_mod@ == self.n@ * self.n@
    }

    /// The modulus `n` of the key.
    pub closed spec fn modulus(&self) -> nat {
        self.n@
    }

    /// The modulus `n` of the key, which is at least two.
    pub fn n(&self) -> (r: U256)
        ensures
            r@ == self.modulus(),
            r@ >= 2,
    {
        proof {
            use_type_invariant(self);
        }
        self.n
    }

    /// The ciphertext of `m` with the blinding factor `r`:
    /// `r^n * (1 + n)^m` modulo `n^2`. Fails with `ArithmeticOverflow`
    /// where a product on the way does not fit in 256 bits.
    ///
    /// Neither `m` nor `r` is held to a range here. A plaintext that is not
    /// below `n` decrypts to its remainder modulo `n`, and a blinding factor
    /// that is not coprime to `n` gives a ciphertext that does not decrypt.
    pub fn enc_with_r(&self, m: &U256, r: &U256) -> (res: Result<U256, CryptoError>)
        ensures
            view_result(res) == enc_with_r_spec(self.modulus(), m@, r@),
            res matches Ok(c) ==> c@ < self.modulus() * self.modulus(),
    {
        proof {
            use_type_invariant(self);
            lemma_square_positive(self.n@);
        }
        let cr = mod_exp(r, &self.n, &self.n_sq_mod)?;
        let base = U256::one().checked_add(&self.n)?;
        let cn = mod_exp(&base, m, &self.n_sq_mod)?;
        let product = cr.checked_mul(&cn)?;
        proof {
            lemma_mod_bound(product@ as int, (self.n@ * self.n@) as int);
        }
        Ok(remainder(&product, &self.n_sq_mod))
    }

    /// The greatest common divisor of `a` and `b`, by Euclid's algorithm.
    pub fn gcd(a: U256, b: U256) -> (r: U256)
        ensures
            r@ == gcd(a@, b@),
    {
        let mut x = a;
        let mut y = b;
        loop
            invariant
                gcd(x@, y@) == gcd(a@, b@),
            decreases y@,
        {
            match NonZero::new(y) {
                Err(_) => {
                    return x;
                },
                Ok(divisor) => {
                    let t = y;
                    y = remainder(&x, &divisor);
                    x = t;
                },
            }
        }
    }

    /// The blinding factor that the random draw `sample` stands for, if it
    /// is one: `sample + 1` where that is coprime to `n`, nothing where it
    /// is not. Fails with `ArithmeticOverflow` where `sample + 1` does not
    /// fit in 256 bits.
    pub fn blinding_from_sample(&self, sample: &U256) -> (res: Result<Option<U256>, CryptoError>)
        ensures
            sample@ + 1 >= width_bound() ==> res == Err::<Option<U256>, CryptoError>(
                CryptoError::ArithmeticOverflow,
            ),
            sample@ + 1 < width_bound() && coprime(sample@ + 1, self.modulus()) ==> (res matches Ok(
                Some(r),
            ) && r@ == sample@ + 1),
            sample@ + 1 < width_bound() && !coprime(sample@ + 1, self.modulus()) ==> res == Ok::<
                Option<U256>,
                CryptoError,
            >(None),
    {
        let r = sample.checked_add(&U256::one())?;
        if HomomorphicPublicKey::gcd(r, self.n).is_one() {
            Ok(Some(r))
        } else {
            Ok(None)
        }
    }

    /// A random blinding factor: a number drawn uniformly from `[1, n)`,
    /// drawn again for as long as it is not coprime to `n`. Fails with
    /// `BlindingExhausted` after `MAX_BLINDING_DRAWS` draws of which none
    /// was coprime to `n`.
    pub fn new_random_r(&self) -> (res: Result<U256, CryptoError>)
        ensures
            match res {
                Ok(r) => is_blinding_factor(self.modulus(), r@),
                Err(e) => e == CryptoError::BlindingExhausted,
            },
    {
        proof {
            use_type_invariant(self);
        }
        let top = self.n.checked_sub(&U256::one())?;
        let bound = NonZero::new(top)?;
        let mut draws: u64 = 0;
        while draws < MAX_BLINDING_DRAWS
            invariant
                bound@ == self.modulus() - 1,
                self.modulus() >= 2,
            decreases MAX_BLINDING_DRAWS - draws,
        {
            let sample = random_below(&bound);
            match self.blinding_from_sample(&sample) {
                Ok(Some(r)) => {
                    return Ok(r);
                },
                Ok(None) => {},
                Err(e) => {
                    return Err(e);
                },
            }
            draws = draws + 1;
        }
        Err(CryptoError::BlindingExhausted)
    }

    /// The ciphertext of `m` with a random blinding factor.
    pub fn enc(&self, m: &U256) -> (res: Result<U256, CryptoError>)
        ensures
            is_encryption_outcome(self.modulus(), m@, view_result(res)),
            res matches Ok(c) ==> c@ < self.modulus() * self.modulus(),
    {
        let r = self.new_random_r()?;
        self.enc_with_r(m, &r)
    }
}

impl HomomorphicCounter {
    /// The counter that holds the ciphertext `c`.
    pub fn from_ciphertext(c: U256) -> (r: HomomorphicCounter)
        ensures
            r@ == c@,
    {
        HomomorphicCounter { c }
    }

    /// The ciphertext that the counter holds.
    pub fn ciphertext(&self) -> (r: U256)
        ensures
            r@ == self@,
    {
        self.c
    }

    /// A counter that holds `v`, encrypted with the blinding factor `r`.
    pub fn set_u64_with_r(&self, public_key: &HomomorphicPublicKey, v: u64, r: &U256) -> (res:
        Result<HomomorphicCounter, CryptoError>)
        ensures
            view_counter(res) == enc_with_r_spec(public_key.modulus(), v as nat, r@),
            res matches Ok(c) ==> c@ < public_key.modulus() * public_key.modulus(),
    {
        match public_key.enc_with_r(&U256::from_words([v, 0, 0, 0]), r) {
            Ok(c) => Ok(HomomorphicCounter { c }),
            Err(e) => Err(e),
        }
    }

    /// A counter that holds `v`, encrypted with a random blinding factor.
    pub fn set_u64(&self, public_key: &HomomorphicPublicKey, v: u64) -> (res: Result<
        HomomorphicCounter,
        CryptoError,
    >)
        ensures
            is_encryption_outcome(public_key.modulus(), v as nat, view_counter(res)),
            res matches Ok(c) ==> c@ < public_key.modulus() * public_key.modulus(),
    {
        match public_key.enc(&U256::from_words([v, 0, 0, 0])) {
            Ok(c) => Ok(HomomorphicCounter { c }),
            Err(e) => Err(e),
        }
    }

    /// The counter of the sum: the product of the two ciphertexts modulo
    /// `n^2`. Fails with `ArithmeticOverflow` where the product does not
    /// fit in 256 bits.
    pub fn add(&self, public_key: &HomomorphicPublicKey, rhs: &HomomorphicCounter) -> (res: Result<
        HomomorphicCounter,
        CryptoError,
    >)
        ensures
            view_counter(res) == add_spec(public_key.modulus(), self@, rhs@),
            res matches Ok(c) ==> c@ < public_key.modulus() * public_key.modulus(),
    {
        proof {
            use_type_invariant(public_key);
            lemma_square_positive(public_key.n@);
        }
        let product = self.c.checked_mul(&rhs.c)?;
        proof {
            lemma_mod_bound(product@ as int, (public_key.n@ * public_key.n@) as int);
        }
        Ok(HomomorphicCounter { c: remainder(&product, &public_key.n_sq_mod) })
    }

    /// The counter with `v` added, `v` being encrypted with the blinding
    /// factor `r`.
    pub fn add_u64_with_r(&self, public_key: &HomomorphicPublicKey, v: u64, r: &U256) -> (res:
        Result<HomomorphicCounter, CryptoError>)
        ensures
            view_counter(res) == add_u64_spec(public_key.modulus(), self@, v as nat, r@),
            res matches Ok(c) ==> c@ < public_key.modulus() * public_key.modulus(),
    {
        match self.set_u64_with_r(public_key, v, r) {
            Ok(rhs) => self.add(public_key, &rhs),
            Err(e) => Err(e),
        }
    }

    /// The counter with `v` added, `v` being encrypted with a random
    /// blinding factor.
    pub fn add_u64(&self, public_key: &HomomorphicPublicKey, v: u64) -> (res: Result<
        HomomorphicCounter,
        CryptoError,
    >)
        ensures
            is_add_u64_outcome(public_key.modulus(), self@, v as nat, view_counter(res)),
            res matches Ok(c) ==> c@ < public_key.modulus() * public_key.modulus(),
    {
        let r = public_key.new_random_r()?;
        self.add_u64_with_r(public_key, v, &r)
    }

    /// The count: the plaintext of the counter, cut to its low 64 bits. A
    /// count that does not fit in 64 bits comes out wrapped.
    pub fn reveal_u64(&self, private_key: HomomorphicPrivateKey) -> (res: Result<u64, CryptoError>)
        ensures
            res == reveal_spec(private_key.prime_p(), private_key.prime_q(), self@),
    {
        match private_key.dec(&self.c) {
            Ok(m) => {
                proof {
                    lemma_low_word(m);
                }
                let words = m.to_words();
                Ok(words[0])
            },
            Err(e) => Err(e),
        }
    }
}

} // verus!
