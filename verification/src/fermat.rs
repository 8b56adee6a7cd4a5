//! The Fermat test.
use crate::biguint::{
    big_bit, big_clone, big_eq, big_from_u64, big_lt, big_modpow, big_random_range, big_sub, value,
};
use crate::divisibility::{divides, is_prime, lemma_divisor_bound};
use crate::modular::lemma_fermat_little;
use crate::Primality;
use crate::ProbabilisticPrimalityTester;
use num_bigint::BigUint;
use vstd::arithmetic::power::pow;
use vstd::arithmetic::power2::lemma2_to64;
use vstd::prelude::*;

verus! {

/// The test based on Fermat's little theorem: a prime `n` satisfies
/// `a^(n-1) = 1 (mod n)` for every base `a` that it does not divide.
///
/// Composite numbers that satisfy the congruence for every base coprime to them
/// exist; the test cannot tell those from primes.
pub struct Fermat;

/// The base `a` shows by Fermat's little theorem that `n` is composite:
/// `a^(n-1)` does not leave the remainder one modulo `n`.
pub open spec fn fermat_witness(n: nat, a: nat) -> bool {
    pow(a as int, (n - 1) as nat) % (n as int) != 1
}

/// Some base from two up to, but not including, `n - 1` is a Fermat witness.
pub open spec fn has_fermat_witness(n: nat) -> bool {
    exists|a: nat| 2 <= a < n - 1 && fermat_witness(n, a)
}

/// Some base from two up to, but not including, `n - 1` is no Fermat witness.
pub open spec fn has_fermat_liar(n: nat) -> bool {
    exists|a: nat| 2 <= a < n - 1 && !fermat_witness(n, a)
}

/// A prime has no Fermat witness among the bases that it does not divide.
pub proof fn lemma_prime_has_no_fermat_witness(n: nat, a: nat)
    requires
        is_prime(n),
        !divides(n, a),
    ensures
        !fermat_witness(n, a),
{
    lemma_fermat_little(n, a);
}

impl Fermat {
    /// Whether the base `a` is a Fermat witness of the compositeness of `n`.
    pub fn is_witness(n: &BigUint, a: &BigUint) -> (witness: bool)
        requires
            value(*n) > 0,
        ensures
            witness == fermat_witness(value(*n), value(*a)),
    {
        let one = big_from_u64(1);
        let n_decrement = big_sub(big_clone(n), &one);
        !big_eq(&big_modpow(a, &n_decrement, n), &one)
    }
}

impl ProbabilisticPrimalityTester for Fermat {
    /// Tests `n` with `rounds` random bases from `[2, n - 1)`.
    ///
    /// Two and three are `ProbablyPrime` without a round, since no base exists for
    /// them.  On an odd candidate above three, a verdict of `Composite` rests on a
    /// base that is a Fermat witness, so it is never given to a prime; a verdict of
    /// `ProbablyPrime` after at least one round rests on a base that is none.
    fn test(n: &BigUint, rounds: u32) -> (verdict: Primality)
        ensures
            verdict == Primality::Composite && value(*n) > 3 && value(*n) % 2 == 1
                ==> has_fermat_witness(value(*n)),
            verdict == Primality::ProbablyPrime && value(*n) > 3 && value(*n) % 2 == 1
                && rounds > 0 ==> has_fermat_liar(value(*n)),
    {
        let two = big_from_u64(2);
        if big_lt(n, &two) {
            return Primality::Composite;
        }
        let three = big_from_u64(3);
        if !big_lt(&three, n) {
            return Primality::ProbablyPrime;
        }
        proof {
            lemma2_to64();
        }
        if !big_bit(n, 0) {
            assert(value(*n) % 2 == 0);
            return Primality::Composite;
        }
        let one = big_from_u64(1);
        let n_decrement = big_sub(big_clone(n), &one);
        let mut round: u32 = 0;
        let ghost mut passed: nat = 0;
        while round < rounds
            invariant
                value(*n) > 3,
                value(two) == 2,
                value(n_decrement) == value(*n) - 1,
                round > 0 ==> 2 <= passed < value(*n) - 1 && !fermat_witness(value(*n), passed),
            decreases rounds - round,
        {
            let a = big_random_range(&two, &n_decrement);
            if Fermat::is_witness(n, &a) {
                proof {
                    if is_prime(value(*n)) {
                        if divides(value(*n), value(a)) {
                            lemma_divisor_bound(value(*n), value(a));
                        }
                        lemma_prime_has_no_fermat_witness(value(*n), value(a));
                    }
                }
                return Primality::Composite;
            }
            proof {
                passed = value(a);
            }
            round += 1;
        }
        Primality::ProbablyPrime
    }
}

} // verus!
