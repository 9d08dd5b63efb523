//! Modular exponentiation by squaring and multiplying, with every product
//! checked against the width of 256 bits.

use crate::fermat::lemma_pow_unfold;
use crate::uint::{
    half_width_bound,
    remainder,
    view_result,
    width_bound,
    CryptoError,
    NonZero,
    U256,
};
use vstd::arithmetic::div_mod::{lemma_fundamental_div_mod, lemma_mul_mod_noop_general};
use vstd::arithmetic::power::{lemma_pow1, lemma_pow_mod_noop, lemma_pow_multiplies, pow};
use vstd::prelude::*;

verus! {

/// `b` to the power `e`, reduced modulo `m`; the power zero is one whatever
/// the modulus.
pub open spec fn mod_pow(b: nat, e: nat, m: nat) -> nat {
    if e == 0 {
        1
    } else {
        (pow(b as int, e) % (m as int)) as nat
    }
}

/// Whether every product that squaring and multiplying forms stays below the
/// width bound, when it goes on from the accumulator `acc`, the base `base`
/// and the exponent `e` that is still to be worked off.
pub open spec fn steps_fit(acc: nat, base: nat, e: nat, m: nat) -> bool
    decreases e,
{
    if e <= 1 {
        acc * base < width_bound()
    } else if e % 2 == 1 {
        acc * base < width_bound() && steps_fit((acc * base) % m, base, (e - 1) as nat, m)
    } else {
        base * base < width_bound() && steps_fit(acc, (base * base) % m, e / 2, m)
    }
}

/// Whether `mod_exp` can raise `b` to the power `e` modulo `m` without a
/// product that overflows.
pub open spec fn mod_exp_fits(b: nat, e: nat, m: nat) -> bool {
    e == 0 || steps_fit(1, b, e, m)
}

/// What `mod_exp` returns.
pub open spec fn mod_exp_spec(b: nat, e: nat, m: nat) -> Result<nat, CryptoError> {
    if mod_exp_fits(b, e, m) {
        Ok(mod_pow(b, e, m))
    } else {
        Err(CryptoError::ArithmeticOverflow)
    }
}

/// Multiplying the accumulator by the base takes one off the exponent.
pub proof fn lemma_multiply_step(acc: nat, base: nat, e: nat, m: nat)
    requires
        e >= 1,
        m > 0,
    ensures
        (((acc * base) % m) * pow(base as int, (e - 1) as nat)) % (m as int) == (acc * pow(
            base as int,
            e,
        )) % (m as int),
{
    let (a, b, mi) = (acc as int, base as int, m as int);
    let rest = pow(b, (e - 1) as nat);
    lemma_pow_unfold(b, e);
    lemma_mul_mod_noop_general(a * b, rest, mi);
    assert((a * b) * rest == a * (b * rest)) by (nonlinear_arith);
}

/// Squaring the base halves an even exponent.
pub proof fn lemma_square_step(acc: nat, base: nat, e: nat, m: nat)
    requires
        e % 2 == 0,
        m > 0,
    ensures
        (acc * pow(((base * base) % m) as int, e / 2)) % (m as int) == (acc * pow(base as int, e))
            % (m as int),
{
    let (a, b, mi) = (acc as int, base as int, m as int);
    let h = e / 2;
    lemma_pow_mod_noop(b * b, h, mi);
    lemma_pow_multiplies(b, 2, h);
    lemma_pow_unfold(b, 2);
    lemma_pow1(b);
    assert(2 * h == e);
    assert(pow(b * b, h) == pow(b, e));
    lemma_mul_mod_noop_general(a, pow((b * b) % mi, h), mi);
    lemma_mul_mod_noop_general(a, pow(b, e), mi);
}

/// With the accumulator, the base and the modulus all within half the width,
/// no product overflows.
pub proof fn lemma_steps_fit_half_width(acc: nat, base: nat, e: nat, m: nat)
    requires
        acc < half_width_bound(),
        base < half_width_bound(),
        0 < m <= half_width_bound(),
    ensures
        steps_fit(acc, base, e, m),
    decreases e,
{
    let h = half_width_bound() as int;
    assert(h * h == width_bound()) by (nonlinear_arith)
        requires
            h == 0x1_0000_0000_0000_0000_0000_0000_0000_0000int,
    ;
    assert(acc * base < h * h) by (nonlinear_arith)
        requires
            0 <= acc < h,
            0 <= base < h,
    ;
    assert(base * base < h * h) by (nonlinear_arith)
        requires
            0 <= base < h,
    ;
    if e <= 1 {
    } else if e % 2 == 1 {
        lemma_steps_fit_half_width((acc * base) % m, base, (e - 1) as nat, m);
    } else {
        lemma_steps_fit_half_width(acc, (base * base) % m, e / 2, m);
    }
}

/// `base` to the power `exp` modulo `modulus`, by squaring and multiplying.
///
/// While the exponent is above one, an odd exponent has the accumulator
/// multiplied by the base and one taken off it, an even one has the base
/// squared and is halved; each product is reduced modulo `modulus` at once.
/// A product that does not fit in 256 bits ends the computation with
/// `ArithmeticOverflow`.
pub fn mod_exp(base: &U256, exp: &U256, modulus: &NonZero) -> (r: Result<U256, CryptoError>)
    ensures
        view_result(r) == mod_exp_spec(base@, exp@, modulus@),
{
    let mut e: U256 = *exp;
    let mut b: U256 = *base;
    let mut acc: U256 = U256::one();
    let one = U256::one();
    let m = modulus.get();

    if e.is_zero() {
        return Ok(U256::one());
    }
    proof {
        assert(1 * pow(b@ as int, e@) == pow(b@ as int, e@));
    }
    loop
        invariant
            one@ == 1,
            m@ == modulus@,
            m@ > 0,
            e@ >= 1,
            exp@ >= 1,
            (acc@ * pow(b@ as int, e@)) % (m@ as int) == pow(base@ as int, exp@) % (m@ as int),
            steps_fit(acc@, b@, e@, m@) == steps_fit(1, base@, exp@, m@),
        decreases e@,
    {
        if e.is_zero() || e.is_one() {
            proof {
                lemma_pow1(b@ as int);
            }
            let product = acc.checked_mul(&b)?;
            return Ok(remainder(&product, modulus));
        }
        if e.is_odd() {
            proof {
                lemma_multiply_step(acc@, b@, e@, m@);
            }
            let product = acc.checked_mul(&b)?;
            acc = remainder(&product, modulus);
            e = e.checked_sub(&one)?;
        } else {
            proof {
                lemma_square_step(acc@, b@, e@, m@);
                lemma_fundamental_div_mod(e@ as int, 2);
            }
            let square = b.checked_mul(&b)?;
            b = remainder(&square, modulus);
            e = e.half();
        }
    }
}

} // verus!
