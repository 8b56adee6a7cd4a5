use num_bigint::{BigUint, RandBigInt};
use prime_find::{
    prime_test_trial, Fermat, MillerRabin, Primality, ProbabilisticPrimalityTester, SolovayStrassen,
};
use rand::thread_rng;

#[test]
// Tests all algorithms with 100 randomly generated 256-bit integers.
fn random_numbers() {
    let mut rng = thread_rng();

    for _ in 0..200 {
        let mut test = rng.gen_biguint(256);

        while &test < &4u8.into() {
            test = rng.gen_biguint(256);
        }

        test.set_bit(0, true); // Assure that test ist odd

        let mr = MillerRabin::test(&test, 3);
        let sostr = SolovayStrassen::test(&test, 3);
        let f = Fermat::test(&test, 3);
        assert_eq!(mr, sostr);
        assert_eq!(mr, f);
    }
}

#[test]
fn testers_agree_on_known_primes() {
    const PRIMES: [&str; 4] = [
        "65537",
        "2147483647",
        "618970019642690137449562111",
        "170141183460469231731687303715884105727",
    ];
    for prime in PRIMES {
        let prime = BigUint::parse_bytes(prime.as_bytes(), 10).unwrap();
        assert_eq!(prime_test_trial(&prime), Some(Primality::ProbablyPrime));
        assert_eq!(Fermat::test(&prime, 4), Primality::ProbablyPrime);
        assert_eq!(MillerRabin::test(&prime, 4), Primality::ProbablyPrime);
        assert_eq!(SolovayStrassen::test(&prime, 4), Primality::ProbablyPrime);
    }
}

#[test]
fn testers_reject_a_product_of_large_primes() {
    let p = BigUint::parse_bytes(b"618970019642690137449562111", 10).unwrap();
    let q = BigUint::parse_bytes(b"170141183460469231731687303715884105727", 10).unwrap();
    let n = p * q;
    assert_eq!(prime_test_trial(&n), Some(Primality::ProbablyPrime));
    assert_eq!(Fermat::test(&n, 4), Primality::Composite);
    assert_eq!(MillerRabin::test(&n, 4), Primality::Composite);
    assert_eq!(SolovayStrassen::test(&n, 4), Primality::Composite);
}

#[test]
fn fermat_witnesses_are_witnesses_of_the_sharper_tests() {
    for n in [9u32, 15, 21, 25, 49, 91, 105, 341, 561, 1105, 1729, 2047] {
        let modulus = BigUint::from(n);
        for a in 0..n {
            let base = BigUint::from(a);
            if Fermat::is_witness(&modulus, &base) {
                assert!(MillerRabin::is_witness(&modulus, &base));
                assert!(SolovayStrassen::is_witness(&modulus, &base));
            }
        }
    }
}

#[test]
fn primes_have_no_witnesses_among_their_bases() {
    for p in [3u32, 5, 7, 11, 13, 17, 19, 23, 29, 31, 37, 41, 43, 47, 53, 59, 61, 67, 71, 257] {
        let modulus = BigUint::from(p);
        for a in 1..p {
            let base = BigUint::from(a);
            assert!(!Fermat::is_witness(&modulus, &base));
            assert!(!MillerRabin::is_witness(&modulus, &base));
            assert!(!SolovayStrassen::is_witness(&modulus, &base));
        }
    }
}

#[test]
fn every_odd_composite_below_256_has_a_witness_in_each_test() {
    for n in (9u32..256).step_by(2) {
        if (2..n).all(|d| n % d != 0) {
            continue;
        }
        let modulus = BigUint::from(n);
        let witnessed = |is_witness: fn(&BigUint, &BigUint) -> bool, high: u32| {
            (2..high).any(|a| is_witness(&modulus, &BigUint::from(a)))
        };
        assert!(witnessed(Fermat::is_witness, n - 1));
        assert!(witnessed(MillerRabin::is_witness, n - 1));
        assert!(witnessed(SolovayStrassen::is_witness, n));
    }
}
