use num_bigint::BigUint;
use prime_find::trial::gcd;
use prime_find::{prime_test_trial, Primality};

#[test]
fn test_gcd() {
    assert_eq!(gcd(5u32.into(), 15u32.into()), 5u32.into());
    assert_eq!(gcd(12u32.into(), 8u32.into()), 4u32.into());
}

#[test]
fn trial_large_prime() {
    const LARGE_PRIMES: [&str; 1] = ["359334085968622831041960188598043661065388726959079837"];

    for prime in LARGE_PRIMES {
        let prime = BigUint::parse_bytes(prime.as_bytes(), 10).unwrap();
        assert_eq!(prime_test_trial(&prime).unwrap(), Primality::ProbablyPrime);
    }
}

#[test]
fn trial_test_non_prime() {
    const SOME_NON_PRIMES: [&str; 2] = ["2500", "235182349"];
    for non_prime in SOME_NON_PRIMES {
        let non_prime = BigUint::parse_bytes(non_prime.as_bytes(), 10).unwrap();
        assert_eq!(prime_test_trial(&non_prime).unwrap(), Primality::Composite);
    }
}

#[test]
fn gcd_with_zero() {
    let x = BigUint::parse_bytes(b"123456789012345678901234567890", 10).unwrap();
    assert_eq!(gcd(x.clone(), BigUint::from(0u8)), x);
    assert_eq!(gcd(BigUint::from(0u8), x.clone()), x);
    assert_eq!(gcd(BigUint::from(0u8), BigUint::from(0u8)), BigUint::from(0u8));
    assert_eq!(gcd(BigUint::from(7u8), BigUint::from(0u8)), BigUint::from(7u8));
    assert_eq!(gcd(BigUint::from(0u8), BigUint::from(8u8)), BigUint::from(8u8));
}

#[test]
fn gcd_small_values() {
    fn euclid(a: u64, b: u64) -> u64 {
        if b == 0 {
            a
        } else {
            euclid(b, a % b)
        }
    }
    for a in 0u64..60 {
        for b in 0u64..60 {
            assert_eq!(gcd(BigUint::from(a), BigUint::from(b)), BigUint::from(euclid(a, b)));
        }
    }
}

#[test]
fn gcd_keeps_the_shared_power_of_two() {
    let one = BigUint::from(1u8);
    // gcd(3 * 2^100, 9 * 2^90) = 3 * 2^90
    let a = BigUint::from(3u8) << 100u32;
    let b = BigUint::from(9u8) << 90u32;
    assert_eq!(gcd(a.clone(), b.clone()), BigUint::from(3u8) << 90u32);
    assert_eq!(gcd(b, a), BigUint::from(3u8) << 90u32);
    assert_eq!(gcd(one.clone() << 70u32, one.clone() << 64u32), one.clone() << 64u32);
    assert_eq!(gcd(one.clone() << 70u32, BigUint::from(5u8)), one);
}

#[test]
fn gcd_of_large_values() {
    let p = BigUint::parse_bytes(b"618970019642690137449562111", 10).unwrap();
    let q = BigUint::parse_bytes(b"170141183460469231731687303715884105727", 10).unwrap();
    let r = BigUint::parse_bytes(b"359334085968622831041960188598043661065388726959079837", 10)
        .unwrap();
    assert_eq!(gcd(&p * &q, &p * &r), p);
    assert_eq!(gcd(&q * &r, &p * &r), r);
    assert_eq!(gcd(q.clone(), r.clone()), BigUint::from(1u8));
    assert_eq!(gcd(q.clone(), q.clone()), q);
}

#[test]
fn trial_cannot_screen_small_candidates() {
    for n in [0u32, 1, 2, 3, 4, 9, 25, 235, 250, 251] {
        assert_eq!(prime_test_trial(&BigUint::from(n)), None);
    }
}

#[test]
fn trial_just_above_the_table() {
    // 252 = 4 * 63, 253 = 11 * 23, 255 = 3 * 5 * 17
    assert_eq!(prime_test_trial(&BigUint::from(252u32)), Some(Primality::Composite));
    assert_eq!(prime_test_trial(&BigUint::from(253u32)), Some(Primality::Composite));
    assert_eq!(prime_test_trial(&BigUint::from(255u32)), Some(Primality::Composite));
    // 256 = 2^8 has no odd prime factor; 257 is prime.
    assert_eq!(prime_test_trial(&BigUint::from(256u32)), Some(Primality::ProbablyPrime));
    assert_eq!(prime_test_trial(&BigUint::from(257u32)), Some(Primality::ProbablyPrime));
}

#[test]
fn trial_finds_every_prime_of_the_table() {
    const ODD_PRIMES: [u32; 53] = [
        3, 5, 7, 11, 13, 17, 19, 23, 29, 31, 37, 41, 43, 47, 53, 59, 61, 67, 71, 73, 79, 83, 89,
        97, 101, 103, 107, 109, 113, 127, 131, 137, 139, 149, 151, 157, 163, 167, 173, 179, 181,
        191, 193, 197, 199, 211, 223, 227, 229, 233, 239, 241, 251,
    ];
    // 65537 is prime, so each product has exactly one factor below 256.
    for p in ODD_PRIMES {
        assert_eq!(prime_test_trial(&BigUint::from(p * 65537)), Some(Primality::Composite));
        assert_eq!(prime_test_trial(&BigUint::from(p * p * 257)), Some(Primality::Composite));
    }
}

#[test]
fn trial_misses_larger_factors() {
    // 257 * 263 and 2 * 65537 have no odd prime factor below 256.
    assert_eq!(prime_test_trial(&BigUint::from(257u32 * 263)), Some(Primality::ProbablyPrime));
    assert_eq!(prime_test_trial(&BigUint::from(2u32 * 65537)), Some(Primality::ProbablyPrime));
    assert_eq!(prime_test_trial(&BigUint::from(65537u32)), Some(Primality::ProbablyPrime));
}
