use hybrid_session::encryption::rsa::generator::{
    egcd, is_prime, is_prime_probabilistic, keys_for_exponent, modulo_inverse, witness_passes,
};
use hybrid_session::encryption::rsa::RSAKeysGenerator;
use num_bigint::{BigInt, BigUint};

fn gcd_u64(a: u64, b: u64) -> u64 {
    if b == 0 {
        a
    } else {
        gcd_u64(b, a % b)
    }
}

fn prime_by_definition(n: u64) -> bool {
    n >= 2 && (2..n).all(|d| n % d != 0)
}

#[test]
fn prime_test_accurate() {
    let iterator = (2..6).into_iter().map(|i| 2u16.pow(i));
    for key_size in iterator {
        let generator = RSAKeysGenerator::new(key_size);
        for _ in 0..100 {
            let prime = generator.generate_candidate_prime();
            assert_eq!(is_prime_probabilistic(&prime, 128), is_prime(&prime));
        }
    }
}

#[test]
fn generate_rsa_keys_big() {
    let iterator = (8..11).into_iter().map(|i| 2u16.pow(i));
    for key_size in iterator {
        let generator = RSAKeysGenerator::new(key_size);
        let keys = generator.generate_keys_unchecked().unwrap();
        assert!(keys.valid())
    }
}

#[test]
fn inverse_modulo_correct() {
    let a = BigInt::from(3);
    let m = BigInt::from(11);

    assert_eq!(modulo_inverse(a, m), Some(BigInt::from(4)));
}

#[test]
fn inverse_times_number_is_one() {
    for m in 2u64..60 {
        for a in 0u64..(2 * m) {
            let inverse = modulo_inverse(BigInt::from(a), BigInt::from(m));
            if gcd_u64(a, m) == 1 {
                let x = inverse.unwrap();
                assert!(x >= BigInt::from(0) && x < BigInt::from(m));
                assert_eq!((BigInt::from(a) * x) % BigInt::from(m), BigInt::from(1));
            } else {
                assert_eq!(inverse, None);
            }
        }
    }
}

#[test]
fn inverse_modulo_one_is_zero() {
    assert_eq!(modulo_inverse(BigInt::from(0), BigInt::from(1)), Some(BigInt::from(0)));
    assert_eq!(modulo_inverse(BigInt::from(7), BigInt::from(1)), Some(BigInt::from(0)));
}

#[test]
fn inverse_needs_a_common_divisor_of_one() {
    assert_eq!(modulo_inverse(BigInt::from(4), BigInt::from(8)), None);
    assert_eq!(modulo_inverse(BigInt::from(0), BigInt::from(5)), None);
    assert_eq!(modulo_inverse(BigInt::from(17), BigInt::from(780)), Some(BigInt::from(413)));
    assert_eq!(modulo_inverse(BigInt::from(17), BigInt::from(3120)), Some(BigInt::from(2753)));
}

#[test]
fn extended_euclid() {
    for (a, b) in [(240i64, 46i64), (46, 240), (0, 5), (5, 0), (0, 0), (17, 17), (1, 99), (270, 192)] {
        let mut x = BigInt::from(0);
        let mut y = BigInt::from(0);
        let g = egcd(BigInt::from(a), BigInt::from(b), &mut x, &mut y);
        assert_eq!(g, BigInt::from(gcd_u64(a as u64, b as u64)));
        assert_eq!(BigInt::from(a) * x + BigInt::from(b) * y, g);
    }
    let mut x = BigInt::from(0);
    let mut y = BigInt::from(0);
    let g = egcd(BigInt::from(240), BigInt::from(46), &mut x, &mut y);
    assert_eq!((g, x, y), (BigInt::from(2), BigInt::from(-9), BigInt::from(47)));
}

#[test]
fn miller_rabin_rejects_composites() {
    for n in [4u32, 9, 15, 25] {
        assert!(!is_prime_probabilistic(&BigUint::from(n), 128));
    }
}

#[test]
fn miller_rabin_accepts_primes() {
    for n in [5u32, 7, 11, 13, 17] {
        assert!(is_prime_probabilistic(&BigUint::from(n), 128));
    }
}

#[test]
fn miller_rabin_on_the_smallest_numbers() {
    assert!(!is_prime_probabilistic(&BigUint::from(0u32), 128));
    assert!(is_prime_probabilistic(&BigUint::from(1u32), 128));
    assert!(!is_prime_probabilistic(&BigUint::from(2u32), 128));
    assert!(is_prime_probabilistic(&BigUint::from(3u32), 128));
    assert!(!is_prime_probabilistic(&BigUint::from(4u32), 0));
    assert!(is_prime_probabilistic(&BigUint::from(9u32), 0));
}

#[test]
fn miller_rabin_agrees_with_the_definition_on_odd_numbers() {
    for n in (5u64..3000).step_by(2) {
        assert_eq!(is_prime_probabilistic(&BigUint::from(n), 128), prime_by_definition(n));
    }
    let mersenne = (BigUint::from(1u32) << 127usize) - BigUint::from(1u32);
    assert!(is_prime_probabilistic(&mersenne, 128));
    let composite = (BigUint::from(1u32) << 128usize) + BigUint::from(1u32);
    assert!(!is_prime_probabilistic(&composite, 128));
}

#[test]
fn one_round_with_a_given_witness() {
    // 24 is 3 * 2^3; 7 is a strong liar for 25, 2 is not
    let n = BigUint::from(25u32);
    let d = BigUint::from(3u32);
    assert!(witness_passes(&n, &d, 3, &BigUint::from(7u32)));
    assert!(witness_passes(&n, &d, 3, &BigUint::from(18u32)));
    assert!(!witness_passes(&n, &d, 3, &BigUint::from(2u32)));
    assert!(witness_passes(&n, &d, 3, &BigUint::from(1u32)));
    assert!(witness_passes(&n, &d, 3, &BigUint::from(24u32)));
    // 12 is 3 * 2^2; every witness lets 13 pass
    let n = BigUint::from(13u32);
    for a in 2u32..=11 {
        assert!(witness_passes(&n, &d, 2, &BigUint::from(a)));
    }
    // with one squaring fewer, 5 does not let 13 pass: 5^3 is 8, 5^6 is 12
    assert!(!witness_passes(&n, &d, 1, &BigUint::from(5u32)));
    assert!(witness_passes(&n, &d, 2, &BigUint::from(5u32)));
}

#[test]
fn trial_division() {
    for n in 2u64..500 {
        assert_eq!(is_prime(&BigUint::from(n)), prime_by_definition(n));
    }
    assert!(is_prime(&BigUint::from(0u32)));
    assert!(is_prime(&BigUint::from(1u32)));
    assert!(is_prime(&BigUint::from(65521u32)));
    assert!(!is_prime(&BigUint::from(65521u32 * 3)));
    assert!(!is_prime(&BigUint::from(251u32 * 251)));
}

#[test]
fn candidates_have_their_top_and_bottom_bit() {
    for key_size in [2u16, 3, 4, 8, 16, 32, 64, 511, 512] {
        let generator = RSAKeysGenerator::new(key_size);
        assert_eq!(generator.key_size(), key_size);
        let half = (key_size / 2) as usize;
        for _ in 0..20 {
            let candidate = generator.generate_candidate_prime();
            assert_eq!(candidate.bits(), half as u64);
            assert_eq!(&candidate % 2u32, BigUint::from(1u32));
        }
    }
    assert_eq!(RSAKeysGenerator::new(4).generate_candidate_prime(), BigUint::from(3u32));
    assert_eq!(RSAKeysGenerator::new(2).generate_candidate_prime(), BigUint::from(1u32));
}

#[test]
fn candidates_vary() {
    let generator = RSAKeysGenerator::new(128);
    let first = generator.generate_candidate_prime();
    assert!((0..50).any(|_| generator.generate_candidate_prime() != first));
}

#[test]
fn generated_primes_are_prime() {
    for key_size in [8u16, 12, 16, 24, 32] {
        let generator = RSAKeysGenerator::new(key_size);
        for _ in 0..10 {
            assert!(is_prime(&generator.generate_prime_number().unwrap()));
        }
    }
}

#[test]
fn key_sizes_below_8_always_yield_a_prime() {
    for (key_size, primes) in [
        (2u16, vec![1u32]),
        (3, vec![1]),
        (4, vec![3]),
        (5, vec![3]),
        (6, vec![5, 7]),
        (7, vec![5, 7]),
    ] {
        let generator = RSAKeysGenerator::new(key_size);
        for _ in 0..50 {
            let prime = generator.generate_prime_number().unwrap();
            assert!(primes.iter().any(|p| prime == BigUint::from(*p)));
        }
    }
}

#[test]
fn keys_for_a_given_exponent() {
    let n = BigUint::from(3233u32);
    let z = BigUint::from(780u32);
    let keys = keys_for_exponent(n.clone(), &z, BigUint::from(17u32)).unwrap();
    assert_eq!(keys.public_key().key(), &BigUint::from(17u32));
    assert_eq!(keys.public_key().n_value(), &n);
    assert_eq!(keys.private_key().key(), &BigUint::from(413u32));
    assert!(keys.valid());
    assert!(keys_for_exponent(n.clone(), &z, BigUint::from(0u32)).is_none());
    assert!(keys_for_exponent(n.clone(), &z, BigUint::from(1u32)).is_none());
    assert!(keys_for_exponent(n.clone(), &z, BigUint::from(2u32)).is_none());
    assert!(keys_for_exponent(n.clone(), &z, BigUint::from(39u32)).is_none());
    assert!(keys_for_exponent(n.clone(), &z, BigUint::from(780u32)).is_none());
    assert!(keys_for_exponent(n.clone(), &z, BigUint::from(797u32)).is_none());
    assert!(keys_for_exponent(n.clone(), &z, BigUint::from(779u32)).is_some());
    assert!(keys_for_exponent(n.clone(), &BigUint::from(0u32), BigUint::from(17u32)).is_none());
    assert!(keys_for_exponent(n, &BigUint::from(2u32), BigUint::from(1u32)).is_none());
}

#[test]
fn checked_keys_are_valid() {
    for key_size in [8u16, 9, 16, 32, 64, 128] {
        let generator = RSAKeysGenerator::new(key_size);
        for _ in 0..5 {
            let keys = generator.generate_keys().unwrap();
            assert!(keys.valid());
            let n = keys.public_key().n_value().clone();
            let half = (key_size / 2) as u64;
            assert!(n.bits() == 2 * half || n.bits() == 2 * half - 1);
        }
    }
}

#[test]
fn key_sizes_without_room_for_an_exponent_yield_no_keys() {
    for key_size in [0u16, 1, 2, 3, 4, 5] {
        let generator = RSAKeysGenerator::new(key_size);
        assert!(generator.generate_keys_unchecked().is_none());
        assert!(generator.generate_keys().is_none());
    }
}
