use num_bigint::BigUint;
use prime_find::search::{accepts_candidate, rounds_for_bits};

#[test]
fn rounds_shrink_as_candidates_grow() {
    assert_eq!(rounds_for_bits(0), 80);
    assert_eq!(rounds_for_bits(64), 80);
    assert_eq!(rounds_for_bits(100), 80);
    assert_eq!(rounds_for_bits(101), 40);
    assert_eq!(rounds_for_bits(400), 40);
    assert_eq!(rounds_for_bits(401), 10);
    assert_eq!(rounds_for_bits(4096), 10);
    assert_eq!(rounds_for_bits(u64::MAX), 10);
}

#[test]
fn search_accepts_primes() {
    for p in [2u32, 3, 5, 7, 251, 257, 65537, 2147483647] {
        assert!(accepts_candidate(&BigUint::from(p), 32));
    }
    let p = BigUint::parse_bytes(b"359334085968622831041960188598043661065388726959079837", 10)
        .unwrap();
    assert!(accepts_candidate(&p, 178));
    assert!(accepts_candidate(&p, 512));
}

#[test]
fn search_rejects_what_trial_division_rejects() {
    // 3 * 65537, 251 * 257
    for n in [196611u32, 64507, 255, 1_000_001] {
        assert!(!accepts_candidate(&BigUint::from(n), 32));
    }
}

#[test]
fn search_rejects_small_and_even_candidates() {
    for n in [0u32, 1, 4, 6, 250, 256, 65536] {
        assert!(!accepts_candidate(&BigUint::from(n), 32));
    }
}

#[test]
fn search_rejects_composites_without_small_factors() {
    // 257 * 263 passes trial division; eighty rounds of Miller-Rabin find a witness.
    assert!(!accepts_candidate(&BigUint::from(257u32 * 263), 17));
    // A Carmichael number with large factors: 252601 = 41 * 61 * 101 is caught by
    // trial division, 2^32 + 1 = 641 * 6700417 only by Miller-Rabin.
    assert!(!accepts_candidate(&BigUint::from(252601u32), 18));
    assert!(!accepts_candidate(&BigUint::from(4294967297u64), 33));
}
