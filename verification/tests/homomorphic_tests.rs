use rusty_crypto::homomorphic::{
    initialize_homomorphic_counter, new_random_homomorphic_private_key, HomomorphicCounter,
    HomomorphicPrivateKey, HomomorphicPublicKey,
};
use rusty_crypto::uint::{CryptoError, U256};

fn n64(v: u64) -> U256 {
    U256::from_words([v, 0, 0, 0])
}

fn key_of(p: U256, q: U256) -> HomomorphicPrivateKey {
    match HomomorphicPrivateKey::from_primes(p, q) {
        Ok(key) => key,
        Err(e) => panic!("no key: {:?}", e),
    }
}

fn gcd_u64(a: u64, b: u64) -> u64 {
    if b == 0 {
        a
    } else {
        gcd_u64(b, a % b)
    }
}

#[test]
fn demonstration_key_has_modulus_187() {
    let private_key = new_random_homomorphic_private_key();
    let public_key = private_key.get_public_key();
    assert_eq!(public_key.n(), n64(187));
}

#[test]
fn concrete_scenario_six_plus_sixteen() {
    let private_key = new_random_homomorphic_private_key();
    let public_key = private_key.get_public_key();
    let counter = initialize_homomorphic_counter(&public_key, 6).unwrap();
    let counter = counter.add_u64(&public_key, 16).unwrap();
    assert_eq!(counter.reveal_u64(private_key), Ok(22));
}

#[test]
fn concrete_scenario_with_chosen_blinding() {
    let private_key = new_random_homomorphic_private_key();
    let public_key = private_key.get_public_key();
    let start = HomomorphicCounter::from_ciphertext(U256::zero());
    let six = start.set_u64_with_r(&public_key, 6, &n64(2)).unwrap();
    assert_eq!(six.ciphertext(), n64(20357));
    let sum = six.add_u64_with_r(&public_key, 16, &n64(3)).unwrap();
    assert_eq!(sum.ciphertext(), n64(18994));
    assert_eq!(sum.reveal_u64(private_key), Ok(22));
}

#[test]
fn encryption_follows_the_formula() {
    let public_key = new_random_homomorphic_private_key().get_public_key();
    // r^187 * 188^m modulo 187^2
    assert_eq!(public_key.enc_with_r(&n64(6), &n64(2)), Ok(n64(20357)));
    assert_eq!(public_key.enc_with_r(&n64(16), &n64(3)), Ok(n64(8303)));
    assert_eq!(public_key.enc_with_r(&n64(0), &n64(7)), Ok(n64(24052)));
    assert_eq!(public_key.enc_with_r(&n64(42), &n64(2)), Ok(n64(20170)));
}

#[test]
fn decryption_follows_the_formula() {
    let private_key = new_random_homomorphic_private_key();
    assert_eq!(private_key.dec(&n64(20357)), Ok(n64(6)));
    assert_eq!(private_key.dec(&n64(8303)), Ok(n64(16)));
    assert_eq!(private_key.dec(&n64(1)), Ok(n64(0)));
    assert_eq!(private_key.dec(&n64(188)), Ok(n64(1)));
    assert_eq!(private_key.dec(&n64(2)), Ok(n64(56)));
}

#[test]
fn round_trip_for_every_plaintext_and_blinding() {
    let private_key = new_random_homomorphic_private_key();
    let public_key = private_key.get_public_key();
    for r in 1..187u64 {
        if gcd_u64(r, 187) != 1 {
            continue;
        }
        for m in 0..187u64 {
            let c = public_key.enc_with_r(&n64(m), &n64(r)).unwrap();
            assert_eq!(private_key.dec(&c), Ok(n64(m)));
        }
    }
}

#[test]
fn round_trip_with_random_blinding() {
    let private_key = new_random_homomorphic_private_key();
    let public_key = private_key.get_public_key();
    for m in 0..187u64 {
        let c = public_key.enc(&n64(m)).unwrap();
        assert_eq!(private_key.dec(&c), Ok(n64(m)));
    }
}

#[test]
fn plaintexts_beyond_the_modulus_come_back_reduced() {
    let private_key = new_random_homomorphic_private_key();
    let public_key = private_key.get_public_key();
    let c = public_key.enc_with_r(&n64(187 + 5), &n64(2)).unwrap();
    assert_eq!(private_key.dec(&c), Ok(n64(5)));
    let c = public_key.enc_with_r(&n64(1000), &n64(3)).unwrap();
    assert_eq!(private_key.dec(&c), Ok(n64(1000 % 187)));
}

#[test]
fn product_of_ciphertexts_decrypts_to_the_sum() {
    let private_key = new_random_homomorphic_private_key();
    let public_key = private_key.get_public_key();
    let a = HomomorphicCounter::from_ciphertext(public_key.enc_with_r(&n64(5), &n64(2)).unwrap());
    let b = HomomorphicCounter::from_ciphertext(public_key.enc_with_r(&n64(7), &n64(3)).unwrap());
    assert_eq!(a.ciphertext(), n64(25219));
    assert_eq!(b.ciphertext(), n64(21954));
    let sum = a.add(&public_key, &b).unwrap();
    // 25219 * 21954 modulo 187^2
    assert_eq!(sum.ciphertext(), n64(28718));
    assert_eq!(private_key.dec(&sum.ciphertext()), Ok(n64(12)));
    assert_eq!(sum.reveal_u64(private_key), Ok(12));
}

#[test]
fn sums_are_homomorphic_for_all_small_pairs() {
    let private_key = new_random_homomorphic_private_key();
    let public_key = private_key.get_public_key();
    for m1 in (0..187u64).step_by(13) {
        for m2 in (0..187u64).step_by(11) {
            let a = HomomorphicCounter::from_ciphertext(
                public_key.enc_with_r(&n64(m1), &n64(5)).unwrap(),
            );
            let b = HomomorphicCounter::from_ciphertext(
                public_key.enc_with_r(&n64(m2), &n64(23)).unwrap(),
            );
            let sum = a.add(&public_key, &b).unwrap();
            assert_eq!(sum.reveal_u64(private_key), Ok((m1 + m2) % 187));
        }
    }
}

#[test]
fn sums_beyond_the_modulus_wrap_around_it() {
    let private_key = new_random_homomorphic_private_key();
    let public_key = private_key.get_public_key();
    let a = HomomorphicCounter::from_ciphertext(U256::zero())
        .set_u64_with_r(&public_key, 100, &n64(2))
        .unwrap();
    assert_eq!(a.ciphertext(), n64(17926));
    let sum = a.add_u64_with_r(&public_key, 100, &n64(5)).unwrap();
    // 200 modulo 187
    assert_eq!(sum.reveal_u64(private_key), Ok(13));
}

#[test]
fn different_blinding_gives_different_ciphertexts_of_one_plaintext() {
    let private_key = new_random_homomorphic_private_key();
    let public_key = private_key.get_public_key();
    let a = public_key.enc_with_r(&n64(42), &n64(2)).unwrap();
    let b = public_key.enc_with_r(&n64(42), &n64(3)).unwrap();
    assert_eq!(a, n64(20170));
    assert_eq!(b, n64(23263));
    assert_ne!(a, b);
    assert_eq!(private_key.dec(&a), Ok(n64(42)));
    assert_eq!(private_key.dec(&b), Ok(n64(42)));
}

#[test]
fn random_encryptions_of_one_plaintext_are_not_all_alike() {
    let private_key = new_random_homomorphic_private_key();
    let public_key = private_key.get_public_key();
    let first = public_key.enc(&n64(42)).unwrap();
    let mut all_alike = true;
    for _ in 0..64 {
        let next = public_key.enc(&n64(42)).unwrap();
        assert_eq!(private_key.dec(&next), Ok(n64(42)));
        if next != first {
            all_alike = false;
        }
    }
    assert!(!all_alike);
}

#[test]
fn adding_zero_keeps_the_count() {
    let private_key = new_random_homomorphic_private_key();
    let public_key = private_key.get_public_key();
    for v in [0u64, 1, 6, 22, 186] {
        let counter = initialize_homomorphic_counter(&public_key, v).unwrap();
        let same = counter.add_u64(&public_key, 0).unwrap();
        assert_eq!(same.reveal_u64(private_key), counter.reveal_u64(private_key));
        assert_eq!(same.reveal_u64(private_key), Ok(v));
    }
}

#[test]
fn adding_zero_keeps_what_any_number_decrypts_to() {
    let private_key = new_random_homomorphic_private_key();
    let public_key = private_key.get_public_key();
    for c in [0u64, 1, 2, 11, 17, 188, 20357, 34968] {
        let counter = HomomorphicCounter::from_ciphertext(n64(c));
        let same = counter.add_u64_with_r(&public_key, 0, &n64(7)).unwrap();
        assert_eq!(same.reveal_u64(private_key), counter.reveal_u64(private_key));
    }
}

#[test]
fn counters_are_values() {
    let private_key = new_random_homomorphic_private_key();
    let public_key = private_key.get_public_key();
    let six = HomomorphicCounter::from_ciphertext(U256::zero())
        .set_u64_with_r(&public_key, 6, &n64(2))
        .unwrap();
    let before = six.ciphertext();
    let _sum = six.add_u64_with_r(&public_key, 16, &n64(3)).unwrap();
    assert_eq!(six.ciphertext(), before);
    assert_eq!(six.reveal_u64(private_key), Ok(6));
}

#[test]
fn what_no_encryption_produces_is_an_invalid_ciphertext() {
    let private_key = new_random_homomorphic_private_key();
    assert_eq!(private_key.dec(&n64(11)), Err(CryptoError::InvalidCiphertext));
    assert_eq!(private_key.dec(&n64(17)), Err(CryptoError::InvalidCiphertext));
    assert_eq!(
        HomomorphicCounter::from_ciphertext(n64(11)).reveal_u64(private_key),
        Err(CryptoError::InvalidCiphertext)
    );
}

#[test]
fn the_ciphertext_zero_underflows() {
    let private_key = new_random_homomorphic_private_key();
    assert_eq!(private_key.dec(&n64(0)), Err(CryptoError::ArithmeticOverflow));
}

#[test]
fn a_blinding_factor_that_divides_the_modulus_does_not_decrypt() {
    let private_key = new_random_homomorphic_private_key();
    let public_key = private_key.get_public_key();
    let c = public_key.enc_with_r(&n64(6), &n64(11)).unwrap();
    assert_eq!(private_key.dec(&c), Err(CryptoError::InvalidCiphertext));
}

#[test]
fn gcd_by_euclid() {
    assert_eq!(HomomorphicPublicKey::gcd(n64(48), n64(18)), n64(6));
    assert_eq!(HomomorphicPublicKey::gcd(n64(18), n64(48)), n64(6));
    assert_eq!(HomomorphicPublicKey::gcd(n64(17), n64(0)), n64(17));
    assert_eq!(HomomorphicPublicKey::gcd(n64(0), n64(17)), n64(17));
    assert_eq!(HomomorphicPublicKey::gcd(n64(0), n64(0)), n64(0));
    assert_eq!(HomomorphicPublicKey::gcd(n64(160), n64(187)), n64(1));
    assert_eq!(HomomorphicPublicKey::gcd(n64(121), n64(187)), n64(11));
    for a in 0..60u64 {
        for b in 0..60u64 {
            assert_eq!(HomomorphicPublicKey::gcd(n64(a), n64(b)), n64(gcd_u64(a, b)));
        }
    }
}

#[test]
fn a_sample_stands_for_its_successor_if_coprime() {
    let public_key = new_random_homomorphic_private_key().get_public_key();
    assert_eq!(public_key.blinding_from_sample(&n64(0)), Ok(Some(n64(1))));
    assert_eq!(public_key.blinding_from_sample(&n64(1)), Ok(Some(n64(2))));
    assert_eq!(public_key.blinding_from_sample(&n64(185)), Ok(Some(n64(186))));
    assert_eq!(public_key.blinding_from_sample(&n64(10)), Ok(None));
    assert_eq!(public_key.blinding_from_sample(&n64(16)), Ok(None));
    assert_eq!(public_key.blinding_from_sample(&n64(21)), Ok(None));
    let max = U256::from_words([u64::MAX, u64::MAX, u64::MAX, u64::MAX]);
    assert_eq!(
        public_key.blinding_from_sample(&max),
        Err(CryptoError::ArithmeticOverflow)
    );
}

#[test]
fn random_blinding_factors_are_units_below_the_modulus() {
    let public_key = new_random_homomorphic_private_key().get_public_key();
    let mut distinct = 0;
    let mut seen = [false; 187];
    for _ in 0..500 {
        let r = public_key.new_random_r().unwrap();
        let [low, w1, w2, w3] = r.to_words();
        assert_eq!((w1, w2, w3), (0, 0, 0));
        assert!(1 <= low && low < 187);
        assert_eq!(gcd_u64(low, 187), 1);
        if !seen[low as usize] {
            seen[low as usize] = true;
            distinct += 1;
        }
    }
    assert!(distinct > 1);
}

#[test]
fn key_of_small_primes() {
    let private_key = key_of(n64(11), n64(17));
    let public_key = private_key.get_public_key();
    assert_eq!(public_key.n(), n64(187));
    let c = public_key.enc_with_r(&n64(99), &n64(2)).unwrap();
    assert_eq!(private_key.dec(&c), Ok(n64(99)));
}

#[test]
fn key_of_half_width_never_overflows() {
    // 2^32 - 5 and 2^31 - 1 are primes; the square of their product is below 2^128
    let private_key = key_of(n64(4294967291), n64(2147483647));
    let public_key = private_key.get_public_key();
    assert_eq!(public_key.n(), n64(9223372021822390277));
    let m = n64((1u64 << 62) + 12345);
    let c = public_key.enc_with_r(&m, &n64(123456789)).unwrap();
    assert_eq!(
        c,
        U256::from_words([0x78bfe30dc9ce077c, 0x1188cc08d3ef574b, 0, 0])
    );
    assert_eq!(private_key.dec(&c), Ok(m));
    let counter = HomomorphicCounter::from_ciphertext(c);
    let more = counter.add_u64(&public_key, 1_000_000).unwrap();
    assert_eq!(more.reveal_u64(private_key), Ok((1u64 << 62) + 12345 + 1_000_000));
    let random = public_key.enc(&m).unwrap();
    assert_eq!(private_key.dec(&random), Ok(m));
}

#[test]
fn key_whose_square_exceeds_the_width_is_refused() {
    // 2^89 - 1 and 2^61 - 1 are primes; their product has 150 bits, its square 300
    let p = U256::from_words([u64::MAX, 0x1ff_ffff, 0, 0]);
    let q = n64(0x1fff_ffff_ffff_ffff);
    assert!(matches!(
        HomomorphicPrivateKey::from_primes(p, q),
        Err(CryptoError::ArithmeticOverflow)
    ));
}

#[test]
fn key_whose_modulus_exceeds_the_width_is_refused() {
    // 2^127 - 1 and 2^255 - 19 are primes; their product has 382 bits
    let p = U256::from_words([u64::MAX, 0x7fff_ffff_ffff_ffff, 0, 0]);
    let q = U256::from_words([
        0xffff_ffff_ffff_ffed,
        u64::MAX,
        u64::MAX,
        0x7fff_ffff_ffff_ffff,
    ]);
    assert!(matches!(
        HomomorphicPrivateKey::from_primes(p, q),
        Err(CryptoError::ArithmeticOverflow)
    ));
}

#[test]
fn key_too_wide_for_its_products_overflows_in_use() {
    // 2^61 - 1 and 2^31 - 1 are primes; the square of their product has 184 bits, so it
    // fits, but products of two numbers below it do not
    let private_key = key_of(n64(0x1fff_ffff_ffff_ffff), n64(0x7fff_ffff));
    let public_key = private_key.get_public_key();
    assert_eq!(
        public_key.n(),
        U256::from_words([0xdfff_ffff_8000_0001, 0x0fff_ffff, 0, 0])
    );
    assert_eq!(
        public_key.enc_with_r(&n64(1), &n64(2)),
        Err(CryptoError::ArithmeticOverflow)
    );
    let wide = U256::from_words([0, 0, 4, 0]);
    assert_eq!(private_key.dec(&wide), Err(CryptoError::ArithmeticOverflow));
    let a = HomomorphicCounter::from_ciphertext(wide);
    assert!(matches!(
        a.add(&public_key, &a),
        Err(CryptoError::ArithmeticOverflow)
    ));
    assert_eq!(
        a.reveal_u64(private_key),
        Err(CryptoError::ArithmeticOverflow)
    );
}

#[test]
fn product_of_wide_ciphertexts_is_an_overflow() {
    let public_key = new_random_homomorphic_private_key().get_public_key();
    let wide = HomomorphicCounter::from_ciphertext(U256::from_words([0, 0, 1, 0]));
    assert!(matches!(
        wide.add(&public_key, &wide),
        Err(CryptoError::ArithmeticOverflow)
    ));
    let narrow = HomomorphicCounter::from_ciphertext(n64(2));
    // 2^129 modulo 187^2
    let sum = wide.add(&public_key, &narrow).unwrap();
    assert_eq!(sum.ciphertext(), n64(5561));
}

#[test]
fn distinct_blinding_factors_give_distinct_ciphertexts() {
    let public_key = new_random_homomorphic_private_key().get_public_key();
    let mut seen: Vec<U256> = Vec::new();
    for r in 1..187u64 {
        if gcd_u64(r, 187) != 1 {
            continue;
        }
        let c = public_key.enc_with_r(&n64(42), &n64(r)).unwrap();
        assert!(!seen.contains(&c));
        seen.push(c);
    }
    assert_eq!(seen.len(), 160);
}

#[test]
fn reveal_cuts_the_count_to_its_low_64_bits() {
    // 2^32 + 15 and 2^32 - 5 are primes; their product is a little above 2^64
    let private_key = key_of(n64(4294967311), n64(4294967291));
    let public_key = private_key.get_public_key();
    assert_eq!(
        public_key.n(),
        U256::from_words([0x0000_0009_ffff_ffb5, 1, 0, 0])
    );
    // the plaintext 2^64 + 5
    let m = U256::from_words([5, 1, 0, 0]);
    let c = public_key.enc_with_r(&m, &n64(3)).unwrap();
    assert_eq!(
        c,
        U256::from_words([0x60e8c7b208ecb4cc, 0xad3e0bc7d630517d, 0, 0])
    );
    assert_eq!(private_key.dec(&c), Ok(m));
    assert_eq!(
        HomomorphicCounter::from_ciphertext(c).reveal_u64(private_key),
        Ok(5)
    );
    // with the blinding factor two a square on the way reaches 2^256
    assert_eq!(
        public_key.enc_with_r(&m, &n64(2)),
        Err(CryptoError::ArithmeticOverflow)
    );
}

#[test]
fn key_with_an_even_modulus_is_refused() {
    assert!(matches!(
        HomomorphicPrivateKey::from_primes(n64(2), n64(3)),
        Err(CryptoError::InvalidModulus)
    ));
    assert!(matches!(
        HomomorphicPrivateKey::from_primes(n64(17), n64(2)),
        Err(CryptoError::InvalidModulus)
    ));
}

#[test]
fn key_whose_totient_has_no_inverse_is_refused() {
    // 3 * 7 = 21 and 2 * 6 = 12 share the factor 3
    assert!(matches!(
        HomomorphicPrivateKey::from_primes(n64(3), n64(7)),
        Err(CryptoError::InvalidModulus)
    ));
    // 5 * 11 = 55 and 4 * 10 = 40 share the factor 5
    assert!(matches!(
        HomomorphicPrivateKey::from_primes(n64(5), n64(11)),
        Err(CryptoError::InvalidModulus)
    ));
}

#[test]
fn key_of_one_prime_taken_twice_is_refused() {
    assert!(matches!(
        HomomorphicPrivateKey::from_primes(n64(7), n64(7)),
        Err(CryptoError::InvalidModulus)
    ));
    assert!(matches!(
        HomomorphicPrivateKey::from_primes(n64(11), n64(11)),
        Err(CryptoError::InvalidModulus)
    ));
}

#[test]
fn key_of_zero_or_one_is_refused() {
    assert!(matches!(
        HomomorphicPrivateKey::from_primes(n64(0), n64(5)),
        Err(CryptoError::InvalidModulus)
    ));
    assert!(matches!(
        HomomorphicPrivateKey::from_primes(n64(5), n64(0)),
        Err(CryptoError::InvalidModulus)
    ));
    assert!(matches!(
        HomomorphicPrivateKey::from_primes(n64(1), n64(1)),
        Err(CryptoError::InvalidModulus)
    ));
    assert!(matches!(
        HomomorphicPrivateKey::from_primes(n64(1), n64(3)),
        Err(CryptoError::InvalidModulus)
    ));
}

#[test]
fn smallest_key_round_trips() {
    // 3 and 5: the modulus 15, the totient 8
    let private_key = key_of(n64(3), n64(5));
    let public_key = private_key.get_public_key();
    assert_eq!(public_key.n(), n64(15));
    for r in [1u64, 2, 4, 7, 8, 11, 13, 14] {
        for m in 0..15u64 {
            let c = public_key.enc_with_r(&n64(m), &n64(r)).unwrap();
            assert_eq!(private_key.dec(&c), Ok(n64(m)));
        }
    }
}
