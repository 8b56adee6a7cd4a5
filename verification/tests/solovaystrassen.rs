use num_bigint::BigUint;
use prime_find::solovaystrassen::jacobi_symbol;
use prime_find::{Primality, ProbabilisticPrimalityTester, SolovayStrassen};

#[test]
fn jacobi() {
    // Tests some known jacobi symbol values
    assert_eq!(
        jacobi_symbol(BigUint::from(1u8), BigUint::from(1u8)),
        Some(1)
    );
    assert_eq!(
        jacobi_symbol(BigUint::from(2u8), BigUint::from(3u8)),
        Some(-1)
    );
    assert_eq!(
        jacobi_symbol(BigUint::from(5u8), BigUint::from(51u8)),
        Some(1)
    );
    assert_eq!(
        jacobi_symbol(BigUint::from(21u8), BigUint::from(53u8)),
        Some(-1)
    );
    assert_eq!(
        jacobi_symbol(BigUint::from(6u8), BigUint::from(21u8)),
        Some(0)
    );
}

#[test]
fn solovaystrassen_large_prime() {
    const LARGE_PRIMES: [&str; 1] = ["359334085968622831041960188598043661065388726959079837"];

    for prime in LARGE_PRIMES {
        let prime = BigUint::parse_bytes(prime.as_bytes(), 10).unwrap();
        assert_eq!(SolovayStrassen::test(&prime, 2), Primality::ProbablyPrime);
    }
}

#[test]
fn solovaystrassen_small_primes() {
    const SMALL_PRIMES: [u32; 52] = [
        0x05, 0x07, 0x0B, 0x0D, 0x11, 0x13, 0x17, 0x1D, 0x1F, 0x25, 0x29, 0x2B, 0x2F, 0x35,
        0x3B, 0x3D, 0x43, 0x47, 0x49, 0x4F, 0x53, 0x59, 0x61, 0x65, 0x67, 0x6B, 0x6D, 0x71,
        0x7F, 0x83, 0x89, 0x8B, 0x95, 0x97, 0x9D, 0xA3, 0xA7, 0xAD, 0xB3, 0xB5, 0xBF, 0xC1,
        0xC5, 0xC7, 0xD3, 0xDF, 0xE3, 0xE5, 0xE9, 0xEF, 0xF1, 0xFB,
    ];

    for prime in SMALL_PRIMES {
        assert_eq!(
            SolovayStrassen::test(&prime.into(), 2),
            Primality::ProbablyPrime
        );
    }
}

#[test]
fn solovaystrassen_test_non_prime() {
    const SOME_NON_PRIMES: [&str; 2] = ["25", "235"];
    for non_prime in SOME_NON_PRIMES {
        let non_prime = BigUint::parse_bytes(non_prime.as_bytes(), 10).unwrap();
        assert_eq!(SolovayStrassen::test(&non_prime, 2), Primality::Composite);
    }
}

#[test]
fn jacobi_is_undefined_for_even_moduli() {
    for n in [0u32, 2, 4, 10, 1 << 20] {
        for a in [0u32, 1, 2, 3, 7] {
            assert_eq!(jacobi_symbol(BigUint::from(a), BigUint::from(n)), None);
        }
    }
}

#[test]
fn jacobi_of_zero() {
    assert_eq!(jacobi_symbol(BigUint::from(0u8), BigUint::from(1u8)), Some(1));
    assert_eq!(jacobi_symbol(BigUint::from(0u8), BigUint::from(3u8)), Some(0));
    assert_eq!(jacobi_symbol(BigUint::from(9u8), BigUint::from(9u8)), Some(0));
}

#[test]
fn jacobi_of_two() {
    // (2/n) is 1 for n = 1, 7 and -1 for n = 3, 5, modulo 8.
    let expected = [(1u32, 1i8), (3, -1), (5, -1), (7, 1), (9, 1), (11, -1), (13, -1), (15, 1)];
    for (n, symbol) in expected {
        assert_eq!(jacobi_symbol(BigUint::from(2u8), BigUint::from(n)), Some(symbol));
    }
}

#[test]
fn jacobi_agrees_with_eulers_criterion_on_primes() {
    for p in [3u32, 5, 7, 11, 13, 23, 97, 251] {
        let modulus = BigUint::from(p);
        let exponent = BigUint::from((p - 1) / 2);
        for a in 0..(2 * p) {
            let power = BigUint::from(a).modpow(&exponent, &modulus);
            let expected = if power == BigUint::from(p - 1) {
                -1
            } else if power == BigUint::from(1u8) {
                1
            } else {
                0
            };
            assert_eq!(jacobi_symbol(BigUint::from(a), modulus.clone()), Some(expected));
        }
    }
}

#[test]
fn jacobi_is_multiplicative_in_the_modulus() {
    for (m, n) in [(3u32, 5u32), (9, 5), (7, 11), (15, 7), (21, 55)] {
        for a in 0..(m * n) {
            let left = jacobi_symbol(BigUint::from(a), BigUint::from(m)).unwrap();
            let right = jacobi_symbol(BigUint::from(a), BigUint::from(n)).unwrap();
            let product = jacobi_symbol(BigUint::from(a), BigUint::from(m * n)).unwrap();
            assert_eq!(product, left * right);
        }
    }
}

#[test]
fn jacobi_vanishes_on_common_factors() {
    let n = 105u32;
    for a in 0..n {
        let coprime = a % 3 != 0 && a % 5 != 0 && a % 7 != 0;
        let symbol = jacobi_symbol(BigUint::from(a), BigUint::from(n)).unwrap();
        assert_eq!(symbol != 0, coprime);
    }
}

#[test]
fn jacobi_of_large_arguments() {
    // 2^89 - 1 and 2^127 - 1 are primes; 2 is a square modulo both.
    let p = BigUint::parse_bytes(b"618970019642690137449562111", 10).unwrap();
    let q = BigUint::parse_bytes(b"170141183460469231731687303715884105727", 10).unwrap();
    assert_eq!(jacobi_symbol(BigUint::from(2u8), q.clone()), Some(1));
    assert_eq!(jacobi_symbol(q.clone() - 1u8, q.clone()), Some(-1));
    let forward = jacobi_symbol(p.clone(), q.clone()).unwrap();
    let backward = jacobi_symbol(q.clone(), p.clone()).unwrap();
    // Both are 3 modulo 4, so reciprocity flips the sign.
    assert_eq!(forward, -backward);
    assert_ne!(forward, 0);
}

#[test]
fn solovaystrassen_boundaries() {
    for rounds in [0u32, 1, 5] {
        assert_eq!(SolovayStrassen::test(&BigUint::from(0u8), rounds), Primality::Composite);
        assert_eq!(SolovayStrassen::test(&BigUint::from(1u8), rounds), Primality::Composite);
        assert_eq!(SolovayStrassen::test(&BigUint::from(2u8), rounds), Primality::ProbablyPrime);
        assert_eq!(SolovayStrassen::test(&BigUint::from(3u8), rounds), Primality::ProbablyPrime);
        assert_eq!(SolovayStrassen::test(&BigUint::from(4u8), rounds), Primality::Composite);
        assert_eq!(
            SolovayStrassen::test(&BigUint::from(1_000_000u32), rounds),
            Primality::Composite
        );
    }
}

#[test]
fn solovaystrassen_no_rounds_gives_no_evidence() {
    assert_eq!(SolovayStrassen::test(&BigUint::from(9u8), 0), Primality::ProbablyPrime);
    assert_eq!(SolovayStrassen::test(&BigUint::from(235u8), 0), Primality::ProbablyPrime);
}

#[test]
fn solovaystrassen_witnesses() {
    // 341: 2^170 = 1 modulo 341, but (2/341) = -1.
    assert!(SolovayStrassen::is_witness(&BigUint::from(341u32), &BigUint::from(2u8)));
    // 561: 2^280 = 1 modulo 561 and (2/561) = 1: an Euler liar.
    assert!(!SolovayStrassen::is_witness(&BigUint::from(561u32), &BigUint::from(2u8)));
    // A common factor is a witness at once.
    assert!(SolovayStrassen::is_witness(&BigUint::from(561u32), &BigUint::from(3u8)));
    // 5^280 = 67 modulo 561.
    assert!(SolovayStrassen::is_witness(&BigUint::from(561u32), &BigUint::from(5u8)));
    // The symbol -1 is matched against n - 1: 3^8 = 16 modulo 17 and (3/17) = -1.
    assert!(!SolovayStrassen::is_witness(&BigUint::from(17u8), &BigUint::from(3u8)));
}

#[test]
fn solovaystrassen_prime_has_no_witness() {
    let p = BigUint::from(97u8);
    for a in 1u32..97 {
        assert!(!SolovayStrassen::is_witness(&p, &BigUint::from(a)));
    }
    assert!(SolovayStrassen::is_witness(&p, &BigUint::from(0u8)));
}
