//! Probabilistic primality testing over arbitrary-precision unsigned integers.
//!
//! The crate offers a cheap deterministic filter ([`prime_test_trial`]) and three
//! randomised testers ([`Fermat`], [`MillerRabin`], [`SolovayStrassen`]) that share
//! the [`ProbabilisticPrimalityTester`] capability.  Every tester is proved never to
//! call a prime composite.
//!
//! The big-integer arithmetic is done by `num_bigint`; every call into it goes
//! through the module [`biguint`], whose contracts are the only unproved statements
//! of the crate.  The number theory that the proofs need is developed in
//! [`divisibility`] (greatest common divisors, primes, Euclid's lemma), [`modular`]
//! (Fermat's little theorem), [`gauss`] (Gauss's lemma) and [`reciprocity`] (the law
//! of quadratic reciprocity and Euler's criterion).
use crate::biguint::value;
use crate::divisibility::is_prime;
use num_bigint::BigUint;
use vstd::prelude::*;

pub mod biguint;
pub mod divisibility;
pub mod fermat;
pub mod gauss;
pub mod millerrabin;
pub mod modular;
pub mod permutation;
pub mod reciprocity;
pub mod search;
pub mod small_primes;
pub mod solovaystrassen;
pub mod trial;

pub use fermat::Fermat;
pub use millerrabin::MillerRabin;
pub use solovaystrassen::SolovayStrassen;
pub use trial::prime_test_trial;

verus! {

/// The verdict of a primality test.
#[derive(PartialEq, Eq, Debug, Structural)]
pub enum Primality {
    /// The candidate has a proper divisor, or is smaller than two.
    Composite,
    /// No evidence of compositeness was found.
    ProbablyPrime,
}

/// A primality test that tries `rounds` random bases.
///
/// The error of such a test is one-sided: a verdict of `Composite` is conclusive,
/// one of `ProbablyPrime` is wrong with a probability that shrinks as `rounds`
/// grows.  The contract below holds of every tester; which bases a tester draws and
/// what makes a base a witness is stated on its implementation.
pub trait ProbabilisticPrimalityTester {
    /// Tests `n` with `rounds` independent random bases.
    ///
    /// A prime is never called `Composite`.  Candidates below two and even
    /// candidates above two are `Composite`, two and three are `ProbablyPrime`.
    /// With no rounds, every odd candidate from three on is `ProbablyPrime`, without
    /// evidence.
    fn test(n: &BigUint, rounds: u32) -> (verdict: Primality)
        ensures
            verdict == Primality::Composite ==> !is_prime(value(*n)),
            value(*n) < 2 ==> verdict == Primality::Composite,
            value(*n) == 2 || value(*n) == 3 ==> verdict == Primality::ProbablyPrime,
            value(*n) > 2 && value(*n) % 2 == 0 ==> verdict == Primality::Composite,
            value(*n) > 2 && value(*n) % 2 == 1 && rounds == 0
                ==> verdict == Primality::ProbablyPrime,
    ;
}

} // verus!
