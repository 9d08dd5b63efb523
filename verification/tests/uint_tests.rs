use rusty_crypto::uint::{CryptoError, NonZero, U256};

fn word(v: u64) -> U256 {
    U256::from_words([v, 0, 0, 0])
}

const MAX_WORD: u64 = 0xffff_ffff_ffff_ffff;

#[test]
fn words_round_trip() {
    let x = U256::from_words([1, 2, 3, 4]);
    assert_eq!(x.to_words(), [1, 2, 3, 4]);
    assert_eq!(x.w0, 1);
    assert_eq!(x.w3, 4);
    assert_eq!(U256::from_u64(77), word(77));
    assert_eq!(U256::zero().to_words(), [0, 0, 0, 0]);
    assert_eq!(U256::one().to_words(), [1, 0, 0, 0]);
}

#[test]
fn zero_and_one_are_told_apart() {
    assert!(U256::zero().is_zero());
    assert!(!U256::one().is_zero());
    assert!(U256::one().is_one());
    assert!(!U256::zero().is_one());
    assert!(!U256::from_words([0, 1, 0, 0]).is_zero());
    assert!(!U256::from_words([1, 0, 0, 1]).is_one());
}

#[test]
fn parity_reads_the_lowest_bit() {
    assert!(word(1).is_odd());
    assert!(word(187).is_odd());
    assert!(!word(160).is_odd());
    assert!(!U256::zero().is_odd());
    assert!(!U256::from_words([0, 1, 0, 0]).is_odd());
    assert!(U256::from_words([3, 1, 1, 1]).is_odd());
}

#[test]
fn half_carries_across_words() {
    assert_eq!(word(10).half(), word(5));
    assert_eq!(word(11).half(), word(5));
    assert_eq!(word(1).half(), word(0));
    assert_eq!(
        U256::from_words([0, 1, 0, 0]).half(),
        U256::from_words([0x8000_0000_0000_0000, 0, 0, 0])
    );
    assert_eq!(
        U256::from_words([1, 0, 0, 1]).half(),
        U256::from_words([0, 0, 0x8000_0000_0000_0000, 0])
    );
}

#[test]
fn checked_add_gives_the_sum() {
    assert_eq!(word(5).checked_add(&word(7)), Ok(word(12)));
    assert_eq!(
        word(MAX_WORD).checked_add(&word(1)),
        Ok(U256::from_words([0, 1, 0, 0]))
    );
    assert_eq!(word(9).checked_add(&U256::zero()), Ok(word(9)));
}

#[test]
fn checked_add_reports_overflow() {
    let max = U256::from_words([MAX_WORD, MAX_WORD, MAX_WORD, MAX_WORD]);
    assert_eq!(max.checked_add(&word(1)), Err(CryptoError::ArithmeticOverflow));
    assert_eq!(max.checked_add(&max), Err(CryptoError::ArithmeticOverflow));
    assert_eq!(max.checked_add(&U256::zero()), Ok(max));
}

#[test]
fn checked_sub_gives_the_difference() {
    assert_eq!(word(12).checked_sub(&word(7)), Ok(word(5)));
    assert_eq!(word(7).checked_sub(&word(7)), Ok(word(0)));
    assert_eq!(
        U256::from_words([0, 1, 0, 0]).checked_sub(&word(1)),
        Ok(word(MAX_WORD))
    );
}

#[test]
fn checked_sub_reports_underflow() {
    assert_eq!(
        U256::zero().checked_sub(&word(1)),
        Err(CryptoError::ArithmeticOverflow)
    );
    assert_eq!(
        word(6).checked_sub(&word(7)),
        Err(CryptoError::ArithmeticOverflow)
    );
}

#[test]
fn checked_mul_gives_the_product() {
    assert_eq!(word(11).checked_mul(&word(17)), Ok(word(187)));
    assert_eq!(word(187).checked_mul(&word(187)), Ok(word(34969)));
    assert_eq!(
        word(0x1_0000_0000).checked_mul(&word(0x1_0000_0000)),
        Ok(U256::from_words([0, 1, 0, 0]))
    );
    // (2^128 - 1)^2 = 2^256 - 2^129 + 1 still fits
    let below_half = U256::from_words([MAX_WORD, MAX_WORD, 0, 0]);
    assert_eq!(
        below_half.checked_mul(&below_half),
        Ok(U256::from_words([1, 0, MAX_WORD - 1, MAX_WORD]))
    );
    assert_eq!(word(5).checked_mul(&U256::zero()), Ok(U256::zero()));
}

#[test]
fn checked_mul_reports_overflow() {
    let half = U256::from_words([0, 0, 1, 0]);
    assert_eq!(half.checked_mul(&half), Err(CryptoError::ArithmeticOverflow));
    let max = U256::from_words([MAX_WORD, MAX_WORD, MAX_WORD, MAX_WORD]);
    assert_eq!(max.checked_mul(&word(2)), Err(CryptoError::ArithmeticOverflow));
    assert_eq!(max.checked_mul(&word(1)), Ok(max));
}

#[test]
fn a_modulus_is_never_zero() {
    assert!(matches!(
        NonZero::new(U256::zero()),
        Err(CryptoError::InvalidModulus)
    ));
    match NonZero::new(word(5)) {
        Ok(m) => assert_eq!(m.get(), word(5)),
        Err(e) => panic!("five is not zero: {:?}", e),
    }
    match NonZero::new(U256::from_words([0, 0, 0, 1])) {
        Ok(m) => assert_eq!(m.get(), U256::from_words([0, 0, 0, 1])),
        Err(e) => panic!("2^192 is not zero: {:?}", e),
    }
}
