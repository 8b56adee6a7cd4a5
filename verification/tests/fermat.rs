use num_bigint::BigUint;
use prime_find::{Fermat, Primality, ProbabilisticPrimalityTester};

#[test]
fn fermat_large_prime() {
    const LARGE_PRIMES: [&str; 1] = ["359334085968622831041960188598043661065388726959079837"];

    for prime in LARGE_PRIMES {
        let prime = BigUint::parse_bytes(prime.as_bytes(), 10).unwrap();
        assert_eq!(Fermat::test(&prime, 2), Primality::ProbablyPrime);
    }
}

#[test]
fn fermat_small_primes() {
    const SMALL_PRIMES: [u32; 52] = [
        0x05, 0x07, 0x0B, 0x0D, 0x11, 0x13, 0x17, 0x1D, 0x1F, 0x25, 0x29, 0x2B, 0x2F, 0x35,
        0x3B, 0x3D, 0x43, 0x47, 0x49, 0x4F, 0x53, 0x59, 0x61, 0x65, 0x67, 0x6B, 0x6D, 0x71,
        0x7F, 0x83, 0x89, 0x8B, 0x95, 0x97, 0x9D, 0xA3, 0xA7, 0xAD, 0xB3, 0xB5, 0xBF, 0xC1,
        0xC5, 0xC7, 0xD3, 0xDF, 0xE3, 0xE5, 0xE9, 0xEF, 0xF1, 0xFB,
    ];

    for prime in SMALL_PRIMES {
        assert_eq!(Fermat::test(&prime.into(), 2), Primality::ProbablyPrime);
    }
}

#[test]
fn fermat_test_non_prime() {
    const SOME_NON_PRIMES: [&str; 2] = ["25", "235"];
    for non_prime in SOME_NON_PRIMES {
        let non_prime = BigUint::parse_bytes(non_prime.as_bytes(), 10).unwrap();
        assert_eq!(Fermat::test(&non_prime, 2), Primality::Composite);
    }
}

#[test]
fn fermat_boundaries() {
    for rounds in [0u32, 1, 5] {
        assert_eq!(Fermat::test(&BigUint::from(0u8), rounds), Primality::Composite);
        assert_eq!(Fermat::test(&BigUint::from(1u8), rounds), Primality::Composite);
        assert_eq!(Fermat::test(&BigUint::from(2u8), rounds), Primality::ProbablyPrime);
        assert_eq!(Fermat::test(&BigUint::from(3u8), rounds), Primality::ProbablyPrime);
        assert_eq!(Fermat::test(&BigUint::from(4u8), rounds), Primality::Composite);
        assert_eq!(Fermat::test(&BigUint::from(1_000_000u32), rounds), Primality::Composite);
    }
}

#[test]
fn fermat_no_rounds_gives_no_evidence() {
    assert_eq!(Fermat::test(&BigUint::from(9u8), 0), Primality::ProbablyPrime);
    assert_eq!(Fermat::test(&BigUint::from(235u8), 0), Primality::ProbablyPrime);
    assert_eq!(Fermat::test(&BigUint::from(251u8), 0), Primality::ProbablyPrime);
}

#[test]
fn fermat_witnesses_of_341() {
    // 341 = 11 * 31 passes the test to the base 2 and fails it to the base 3.
    let n = BigUint::from(341u32);
    assert!(!Fermat::is_witness(&n, &BigUint::from(2u8)));
    assert!(Fermat::is_witness(&n, &BigUint::from(3u8)));
}

#[test]
fn fermat_is_blind_to_carmichael_numbers() {
    // 561 = 3 * 11 * 17 passes to every base coprime to it.
    let n = BigUint::from(561u32);
    for a in [2u32, 4, 5, 7, 8, 10, 13, 14, 16, 19, 20, 23, 25, 26, 28, 29, 31] {
        assert!(!Fermat::is_witness(&n, &BigUint::from(a)));
    }
    assert!(Fermat::is_witness(&n, &BigUint::from(3u8)));
}

#[test]
fn fermat_prime_has_no_witness() {
    let p = BigUint::from(97u8);
    for a in 1u32..97 {
        assert!(!Fermat::is_witness(&p, &BigUint::from(a)));
    }
    assert!(Fermat::is_witness(&p, &BigUint::from(0u8)));
    assert!(Fermat::is_witness(&p, &BigUint::from(97u8)));
}

#[test]
fn fermat_prime_is_accepted_at_any_round_count() {
    let p = BigUint::parse_bytes(b"170141183460469231731687303715884105727", 10).unwrap();
    for rounds in 0u32..8 {
        assert_eq!(Fermat::test(&p, rounds), Primality::ProbablyPrime);
    }
}
