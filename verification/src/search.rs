//! The decisions of a prime search: how many rounds a candidate of a given size
//! deserves, and whether a candidate is accepted.
//!
//! Drawing the candidates and repeating until one is accepted is the caller's part.
use crate::biguint::value;
use crate::divisibility::is_prime;
use crate::millerrabin::MillerRabin;
use crate::small_primes::LARGEST_SMALL_PRIME;
use crate::trial::{has_small_odd_prime_factor, prime_test_trial};
use crate::Primality;
use crate::ProbabilisticPrimalityTester;
use num_bigint::BigUint;
use vstd::prelude::*;

verus! {

/// The number of Miller–Rabin rounds for a candidate of `bits` random bits.
///
/// Ten rounds give enough certainty above 400 bits; smaller candidates are cheap to
/// test and get more rounds.
pub fn rounds_for_bits(bits: u64) -> (rounds: u32)
    ensures
        rounds == if bits <= 100 {
            80u32
        } else if bits <= 400 {
            40u32
        } else {
            10u32
        },
{
    if bits <= 100 {
        80
    } else if bits <= 400 {
        40
    } else {
        10
    }
}

/// Whether the search accepts `candidate`, drawn with `bits` random bits: trial
/// division must not reject it, and it must pass the Miller–Rabin test with the
/// rounds that its size deserves.
///
/// A prime is always accepted.  An accepted candidate is two or an odd number from
/// three on, and if it is larger than the small primes it has none of them as a
/// factor.
pub fn accepts_candidate(candidate: &BigUint, bits: u64) -> (accepted: bool)
    ensures
        is_prime(value(*candidate)) ==> accepted,
        accepted ==> value(*candidate) == 2 || (value(*candidate) >= 3 && value(*candidate) % 2
            == 1),
        accepted && value(*candidate) > LARGEST_SMALL_PRIME ==> !has_small_odd_prime_factor(
            value(*candidate),
        ),
{
    match prime_test_trial(candidate) {
        Some(Primality::Composite) => false,
        _ => match MillerRabin::test(candidate, rounds_for_bits(bits)) {
            Primality::ProbablyPrime => true,
            Primality::Composite => false,
        },
    }
}

} // verus!
