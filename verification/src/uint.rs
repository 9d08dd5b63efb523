//! Fixed-width unsigned integers of 256 bits and their checked arithmetic.
//!
//! A [`U256`] holds four 64-bit words, least significant first, and is viewed
//! as the natural number they spell. The arithmetic itself is done by the
//! `crypto-bigint` crate: every operation of that crate that the library uses
//! stands here behind one small function whose contract is taken on trust.

use vstd::arithmetic::div_mod::{lemma_mod_multiples_vanish, lemma_small_mod};
use vstd::arithmetic::power2::{lemma2_to64, pow2};
use vstd::prelude::*;

verus! {

/// The first natural number that no longer fits in 256 bits.
pub open spec fn width_bound() -> nat {
    0x1_0000_0000_0000_0000_0000_0000_0000_0000_0000_0000_0000_0000_0000_0000_0000_0000nat
}

/// Half of the width: any two numbers below this bound have a product below
/// [`width_bound`].
pub open spec fn half_width_bound() -> nat {
    0x1_0000_0000_0000_0000_0000_0000_0000_0000nat
}

/// The ways in which an operation of this library fails.
#[derive(Clone, Copy, Debug, PartialEq, Eq, Structural)]
pub enum CryptoError {
    /// The true result of a checked operation does not fit in 256 bits.
    ArithmeticOverflow,
    /// A modulus was asked for from the value zero.
    InvalidModulus,
    /// Decryption met a value that no encryption under the key can produce.
    InvalidCiphertext,
    /// No invertible blinding factor came up within the allowed number of draws.
    BlindingExhausted,
}

/// An unsigned integer of 256 bits, as four 64-bit words, least significant
/// first.
#[derive(Clone, Copy, Debug, PartialEq, Eq, Structural)]
pub struct U256 {
    pub w0: u64,
    pub w1: u64,
    pub w2: u64,
    pub w3: u64,
}

impl View for U256 {
    type V = nat;

    open spec fn view(&self) -> nat {
        (self.w0 as nat) + (self.w1 as nat) * 0x1_0000_0000_0000_0000nat + (self.w2 as nat)
            * 0x1_0000_0000_0000_0000_0000_0000_0000_0000nat + (self.w3 as nat)
            * 0x1_0000_0000_0000_0000_0000_0000_0000_0000_0000_0000_0000_0000nat
    }
}

/// What a fallible operation yields, with the number in place of its words.
pub open spec fn view_result(r: Result<U256, CryptoError>) -> Result<nat, CryptoError> {
    match r {
        Ok(v) => Ok(v@),
        Err(e) => Err(e),
    }
}

/// The outcome of checked arithmetic whose true result is `v`.
pub open spec fn checked(v: int) -> Result<nat, CryptoError> {
    if 0 <= v < width_bound() {
        Ok(v as nat)
    } else {
        Err(CryptoError::ArithmeticOverflow)
    }
}

/// The least significant word is the number modulo 2^64.
pub proof fn lemma_low_word(x: U256)
    ensures
        x@ % 0x1_0000_0000_0000_0000 == x.w0,
{
    let k: int = 0x1_0000_0000_0000_0000int;
    let high: int = x.w1 + x.w2 * k + x.w3 * (k * k);
    assert(k * k == 0x1_0000_0000_0000_0000_0000_0000_0000_0000int) by (nonlinear_arith)
        requires
            k == 0x1_0000_0000_0000_0000int,
    ;
    assert(x@ == k * high + x.w0) by (nonlinear_arith)
        requires
            k == 0x1_0000_0000_0000_0000int,
            high == x.w1 + x.w2 * k + x.w3 * (k * k),
            x@ == x.w0 + x.w1 * k + x.w2 * (k * k) + x.w3 * (k * k * k),
    ;
    lemma_mod_multiples_vanish(high, x.w0 as int, k);
    lemma_small_mod(x.w0 as nat, k as nat);
}

/// Two `U256` that spell the same number are the same words.
pub proof fn lemma_view_injective(a: U256, b: U256)
    requires
        a@ == b@,
    ensures
        a == b,
{
    let k: int = 0x1_0000_0000_0000_0000int;
    let ha: int = a.w1 + a.w2 * k + a.w3 * (k * k);
    let hb: int = b.w1 + b.w2 * k + b.w3 * (k * k);
    assert(k * k == 0x1_0000_0000_0000_0000_0000_0000_0000_0000int) by (nonlinear_arith)
        requires
            k == 0x1_0000_0000_0000_0000int,
    ;
    assert(a@ == a.w0 + ha * k) by (nonlinear_arith)
        requires
            k == 0x1_0000_0000_0000_0000int,
            ha == a.w1 + a.w2 * k + a.w3 * (k * k),
            a@ == a.w0 + a.w1 * k + a.w2 * (k * k) + a.w3 * (k * k * k),
    ;
    assert(b@ == b.w0 + hb * k) by (nonlinear_arith)
        requires
            k == 0x1_0000_0000_0000_0000int,
            hb == b.w1 + b.w2 * k + b.w3 * (k * k),
            b@ == b.w0 + b.w1 * k + b.w2 * (k * k) + b.w3 * (k * k * k),
    ;
    assert(a.w0 == b.w0 && ha == hb) by (nonlinear_arith)
        requires
            a.w0 + ha * k == b.w0 + hb * k,
            0 <= a.w0 < k,
            0 <= b.w0 < k,
            k > 0,
    ;
    let ga: int = a.w2 + a.w3 * k;
    let gb: int = b.w2 + b.w3 * k;
    assert(a.w1 == b.w1 && ga == gb) by (nonlinear_arith)
        requires
            a.w1 + ga * k == b.w1 + gb * k,
            0 <= a.w1 < k,
            0 <= b.w1 < k,
            k > 0,
    ;
    assert(a.w2 == b.w2 && a.w3 == b.w3) by (nonlinear_arith)
        requires
            a.w2 + a.w3 * k == b.w2 + b.w3 * k,
            0 <= a.w2 < k,
            0 <= b.w2 < k,
            k > 0,
    ;
}

impl U256 {
    /// The number whose words, least significant first, are `words`.
    pub fn from_words(words: [u64; 4]) -> (r: U256)
        ensures
            r == (U256 { w0: words[0], w1: words[1], w2: words[2], w3: words[3] }),
    {
        U256 { w0: words[0], w1: words[1], w2: words[2], w3: words[3] }
    }

    /// The words of the number, least significant first.
    pub fn to_words(self) -> (r: [u64; 4])
        ensures
            r[0] == self.w0,
            r[1] == self.w1,
            r[2] == self.w2,
            r[3] == self.w3,
    {
        [self.w0, self.w1, self.w2, self.w3]
    }

    /// The number zero.
    pub fn zero() -> (r: U256)
        ensures
            r@ == 0,
            r == (U256 { w0: 0, w1: 0, w2: 0, w3: 0 }),
    {
        U256 { w0: 0, w1: 0, w2: 0, w3: 0 }
    }

    /// The number one.
    pub fn one() -> (r: U256)
        ensures
            r@ == 1,
            r == (U256 { w0: 1, w1: 0, w2: 0, w3: 0 }),
    {
        U256 { w0: 1, w1: 0, w2: 0, w3: 0 }
    }

    /// The number `v`.
    pub fn from_u64(v: u64) -> (r: U256)
        ensures
            r@ == v,
            r == (U256 { w0: v, w1: 0, w2: 0, w3: 0 }),
    {
        U256 { w0: v, w1: 0, w2: 0, w3: 0 }
    }

    /// Whether the number is zero.
    pub fn is_zero(&self) -> (b: bool)
        ensures
            b <==> self@ == 0,
    {
        *self == U256::zero()
    }

    /// Whether the number is one.
    pub fn is_one(&self) -> (b: bool)
        ensures
            b <==> self@ == 1,
    {
        *self == U256::one()
    }

    /// Whether the number is odd.
    pub fn is_odd(&self) -> (b: bool)
        ensures
            b <==> self@ % 2 == 1,
    {
        let low = bit_and(self, &U256::one());
        proof {
            let (a0, a1, a2, a3): (u64, u64, u64, u64) = (self.w0, self.w1, self.w2, self.w3);
            let (l0, l1, l2, l3): (u64, u64, u64, u64) = (low.w0, low.w1, low.w2, low.w3);
            assert(l0 == 1 <==> a0 % 2 == 1) by (bit_vector)
                requires
                    l0 == a0 & 1,
            ;
            assert(l1 == 0 && l2 == 0 && l3 == 0) by (bit_vector)
                requires
                    l1 == a1 & 0,
                    l2 == a2 & 0,
                    l3 == a3 & 0,
            ;
        }
        low == U256::one()
    }

    /// The number halved, rounding down.
    pub fn half(&self) -> (r: U256)
        ensures
            r@ == self@ / 2,
    {
        proof {
            lemma2_to64();
        }
        shift_right(self, 1)
    }

    /// The sum, or `ArithmeticOverflow` where it does not fit in 256 bits.
    pub fn checked_add(&self, rhs: &U256) -> (r: Result<U256, CryptoError>)
        ensures
            view_result(r) == checked((self@ + rhs@) as int),
    {
        match add_checked(self, rhs) {
            Some(v) => Ok(v),
            None => Err(CryptoError::ArithmeticOverflow),
        }
    }

    /// The difference, or `ArithmeticOverflow` where it would be negative.
    pub fn checked_sub(&self, rhs: &U256) -> (r: Result<U256, CryptoError>)
        ensures
            view_result(r) == checked(self@ - rhs@),
    {
        match sub_checked(self, rhs) {
            Some(v) => Ok(v),
            None => Err(CryptoError::ArithmeticOverflow),
        }
    }

    /// The product, or `ArithmeticOverflow` where it does not fit in 256 bits.
    pub fn checked_mul(&self, rhs: &U256) -> (r: Result<U256, CryptoError>)
        ensures
            view_result(r) == checked((self@ * rhs@) as int),
    {
        match mul_checked(self, rhs) {
            Some(v) => Ok(v),
            None => Err(CryptoError::ArithmeticOverflow),
        }
    }
}

/// A `U256` that is known not to be zero, for use as a modulus or divisor.
#[derive(Clone, Copy, Debug)]
pub struct NonZero {
    value: U256,
}

impl View for NonZero {
    type V = nat;

    closed spec fn view(&self) -> nat {
        self.value@
    }
}

impl NonZero {
    #[verifier::type_invariant]
    spec fn is_nonzero(self) -> bool {
        self.value@ != 0
    }

    /// The modulus `v`, or `InvalidModulus` where `v` is zero.
    pub fn new(v: U256) -> (r: Result<NonZero, CryptoError>)
        ensures
            v@ != 0 ==> (r matches Ok(m) && m@ == v@),
            v@ == 0 ==> r == Err::<NonZero, CryptoError>(CryptoError::InvalidModulus),
    {
        match nonzero_value(&v) {
            Some(x) => Ok(NonZero { value: x }),
            None => Err(CryptoError::InvalidModulus),
        }
    }

    /// The number held, which is never zero.
    pub fn get(&self) -> (r: U256)
        ensures
            r@ == self@,
            r@ != 0,
    {
        proof {
            use_type_invariant(self);
        }
        self.value
    }
}

/// `a` has an inverse modulo `m` that lies below `m`, and `x` is it.
pub open spec fn is_inverse_mod(x: nat, a: nat, m: nat) -> bool {
    x < m && (x * a) % m == 1nat % m
}

/// `a` has an inverse modulo `m`.
pub open spec fn has_inverse_mod(a: nat, m: nat) -> bool {
    exists|x: nat| is_inverse_mod(x, a, m)
}

/// Trusted: `crypto_bigint::CheckedAdd::checked_add` on `U256`. The contract
/// claims that it yields the exact sum when that is below 2^256 and nothing
/// otherwise.
#[verifier::external_body]
pub(crate) fn add_checked(a: &U256, b: &U256) -> (r: Option<U256>)
    ensures
        match r {
            Some(v) => v@ == a@ + b@,
            None => a@ + b@ >= width_bound(),
        },
{
    let x = crypto_bigint::U256::from_words(a.to_words());
    let y = crypto_bigint::U256::from_words(b.to_words());
    let s: Option<crypto_bigint::U256> = crypto_bigint::CheckedAdd::checked_add(&x, &y).into();
    match s {
        Some(v) => Some(U256::from_words(v.to_words())),
        None => None,
    }
}

/// Trusted: `crypto_bigint::CheckedSub::checked_sub` on `U256`. The contract
/// claims that it yields the exact difference when that is not negative and
/// nothing otherwise.
#[verifier::external_body]
pub(crate) fn sub_checked(a: &U256, b: &U256) -> (r: Option<U256>)
    ensures
        match r {
            Some(v) => v@ == a@ - b@,
            None => a@ < b@,
        },
{
    let x = crypto_bigint::U256::from_words(a.to_words());
    let y = crypto_bigint::U256::from_words(b.to_words());
    let s: Option<crypto_bigint::U256> = crypto_bigint::CheckedSub::checked_sub(&x, &y).into();
    match s {
        Some(v) => Some(U256::from_words(v.to_words())),
        None => None,
    }
}

/// Trusted: `crypto_bigint::CheckedMul::checked_mul` on `U256`. The contract
/// claims that it yields the exact product when that is below 2^256 and
/// nothing otherwise.
#[verifier::external_body]
pub(crate) fn mul_checked(a: &U256, b: &U256) -> (r: Option<U256>)
    ensures
        match r {
            Some(v) => v@ == a@ * b@,
            None => a@ * b@ >= width_bound(),
        },
{
    let x = crypto_bigint::U256::from_words(a.to_words());
    let y = crypto_bigint::U256::from_words(b.to_words());
    let s: Option<crypto_bigint::U256> = crypto_bigint::CheckedMul::checked_mul(&x, &y).into();
    match s {
        Some(v) => Some(U256::from_words(v.to_words())),
        None => None,
    }
}

/// Trusted: `crypto_bigint::NonZero::new` on `U256`. The contract claims that
/// it yields the number unchanged when that is not zero and nothing otherwise.
#[verifier::external_body]
pub(crate) fn nonzero_value(v: &U256) -> (r: Option<U256>)
    ensures
        match r {
            Some(x) => x == *v && v@ != 0,
            None => v@ == 0,
        },
{
    let x = crypto_bigint::U256::from_words(v.to_words());
    let n: Option<crypto_bigint::NonZero<crypto_bigint::U256>> = crypto_bigint::NonZero::new(
        x,
    ).into();
    match n {
        Some(m) => Some(U256::from_words(m.to_words())),
        None => None,
    }
}

/// Trusted: `crypto_bigint::Uint::rem`. The contract claims that it yields
/// the remainder of `a` on division by `m`.
#[verifier::external_body]
pub(crate) fn remainder(a: &U256, m: &NonZero) -> (r: U256)
    ensures
        r@ == a@ % m@,
{
    let x = crypto_bigint::U256::from_words(a.to_words());
    let d = crypto_bigint::NonZero::new(crypto_bigint::U256::from_words(m.value.to_words()));
    U256::from_words(x.rem(&d.unwrap()).to_words())
}

/// Trusted: `crypto_bigint::Uint::div_rem`. The contract claims that it yields
/// the quotient and the remainder of `a` on division by `m`.
#[verifier::external_body]
pub(crate) fn quotient_remainder(a: &U256, m: &NonZero) -> (r: (U256, U256))
    ensures
        r.0@ == a@ / m@,
        r.1@ == a@ % m@,
{
    let x = crypto_bigint::U256::from_words(a.to_words());
    let d = crypto_bigint::NonZero::new(crypto_bigint::U256::from_words(m.value.to_words()));
    let (q, r) = x.div_rem(&d.unwrap());
    (U256::from_words(q.to_words()), U256::from_words(r.to_words()))
}

/// Trusted: `crypto_bigint::Uint::inv_odd_mod`, asked only for an odd modulus
/// and a number below it. The contract claims that the flag tells whether an
/// inverse exists, and that where it does the number returned is that
/// inverse, reduced below the modulus.
#[verifier::external_body]
pub(crate) fn inverse_odd_mod(a: &U256, m: &U256) -> (r: (U256, bool))
    requires
        m@ % 2 == 1,
        a@ < m@,
    ensures
        r.1 == has_inverse_mod(a@, m@),
        r.1 ==> is_inverse_mod(r.0@, a@, m@),
{
    let x = crypto_bigint::U256::from_words(a.to_words());
    let y = crypto_bigint::U256::from_words(m.to_words());
    let (inverse, exists) = x.inv_odd_mod(&y);
    (U256::from_words(inverse.to_words()), exists.into())
}

/// Trusted: `crypto_bigint::Uint::bitand`. The contract claims that each word
/// of the result is the bitwise and of the words in that place.
#[verifier::external_body]
pub(crate) fn bit_and(a: &U256, b: &U256) -> (r: U256)
    ensures
        r.w0 == a.w0 & b.w0,
        r.w1 == a.w1 & b.w1,
        r.w2 == a.w2 & b.w2,
        r.w3 == a.w3 & b.w3,
{
    let x = crypto_bigint::U256::from_words(a.to_words());
    let y = crypto_bigint::U256::from_words(b.to_words());
    U256::from_words(x.bitand(&y).to_words())
}

/// Trusted: `crypto_bigint::Uint::shr`, asked only for shifts below the
/// width. The contract claims that it yields `a` divided by two to the power
/// `shift`, rounded down.
#[verifier::external_body]
pub(crate) fn shift_right(a: &U256, shift: usize) -> (r: U256)
    requires
        shift < 256,
    ensures
        r@ == a@ / pow2(shift as nat),
{
    let x = crypto_bigint::U256::from_words(a.to_words());
    U256::from_words(x.shr(shift).to_words())
}

/// Trusted: `crypto_bigint::RandomMod::random_mod` on `U256`, drawing from
/// the operating system's generator. The contract claims only that the
/// number drawn is below the modulus.
#[verifier::external_body]
pub(crate) fn random_below(m: &NonZero) -> (r: U256)
    ensures
        r@ < m@,
{
    let d = crypto_bigint::NonZero::new(crypto_bigint::U256::from_words(m.value.to_words()));
    let mut rng = crypto_bigint::rand_core::OsRng;
    let r: crypto_bigint::U256 = crypto_bigint::RandomMod::random_mod(&mut rng, &d.unwrap());
    U256::from_words(r.to_words())
}

} // verus!
