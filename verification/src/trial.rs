//! The deterministic pre-screen: greatest common divisors with products of small
//! primes.
use crate::biguint::{
    big_clone, big_eq, big_from_u64, big_lt, big_shl, big_shr, big_sub, big_trailing_zeros, value,
};
use crate::divisibility::{
    divides, is_prime, lemma_divides_transitive, lemma_divisor_bound, lemma_gcd_difference,
    lemma_gcd_divides, lemma_gcd_greatest, lemma_gcd_positive, lemma_gcd_remove_twos,
    lemma_gcd_self, lemma_gcd_split_twos, lemma_gcd_symmetric, lemma_gcd_zero,
    lemma_power_of_two_quotient, lemma_prime_divisor_exists,
};
use crate::small_primes::{
    group_product_word, in_group, lemma_group_factor, lemma_group_member,
    lemma_groups_complete, GROUPS, LARGEST_SMALL_PRIME,
};
use crate::Primality;
use num_bigint::BigUint;
use vstd::arithmetic::power2::*;
use vstd::prelude::*;

verus! {

/// The greatest common divisor of `u` and `v`, by the binary algorithm: common
/// factors of two are set aside by shifting, and the odd remainders are reduced by
/// subtracting and shifting until they meet.  No division is performed.
///
/// Either argument may be zero; the result is then the other one.
pub fn gcd(u: BigUint, v: BigUint) -> (g: BigUint)
    ensures
        value(g) == crate::divisibility::gcd(value(u), value(v)),
        value(v) == 0 ==> value(g) == value(u),
        value(u) == 0 ==> value(g) == value(v),
{
    let ghost u0 = value(u);
    let ghost v0 = value(v);
    proof {
        lemma_gcd_zero(u0);
        lemma_gcd_zero(v0);
    }
    let zero = big_from_u64(0);
    if big_eq(&u, &zero) {
        return v;
    }
    if big_eq(&v, &zero) {
        return u;
    }
    let u_twos = big_trailing_zeros(&u).unwrap();
    let v_twos = big_trailing_zeros(&v).unwrap();
    let shared_twos = if u_twos <= v_twos {
        u_twos
    } else {
        v_twos
    };

    let mut u = big_shr(u, u_twos);
    let mut v = big_shr(v, v_twos);
    let ghost odd_gcd = crate::divisibility::gcd(value(u), value(v));
    proof {
        lemma_power_of_two_quotient(u0, u_twos as nat);
        lemma_power_of_two_quotient(v0, v_twos as nat);
        lemma_gcd_split_twos(value(u), u_twos as nat, value(v), v_twos as nat);
    }

    while !big_eq(&u, &v)
        invariant
            value(u) % 2 == 1,
            value(v) % 2 == 1,
            crate::divisibility::gcd(value(u), value(v)) == odd_gcd,
        decreases value(u) + value(v),
    {
        if big_lt(&u, &v) {
            proof {
                lemma_gcd_symmetric(value(u), value(v));
            }
            std::mem::swap(&mut u, &mut v);
        }
        let ghost larger = value(u);
        u = big_sub(u, &v);
        let ghost difference = value(u);
        let twos = big_trailing_zeros(&u).unwrap();
        u = big_shr(u, twos);
        proof {
            lemma_gcd_difference(larger, value(v));
            lemma_power_of_two_quotient(difference, twos as nat);
            lemma_gcd_remove_twos(value(u), twos as nat, value(v));
        }
    }
    proof {
        lemma_gcd_self(value(u));
        assert(value(u) * pow2(shared_twos as nat) == pow2(shared_twos as nat) * value(u))
            by (nonlinear_arith);
    }
    big_shl(u, shared_twos)
}

/// `n` is divisible by an odd prime below 256.
pub open spec fn has_small_odd_prime_factor(n: nat) -> bool {
    exists|p: nat| 3 <= p <= LARGEST_SMALL_PRIME && is_prime(p) && #[trigger] divides(p, n)
}

/// Screens `n` against the odd primes below 256.
///
/// Candidates up to the largest of these primes cannot be screened, since a prime
/// among them would be reported as its own factor: the answer is `None`.  For a
/// larger candidate the answer is `Composite` exactly when one of these primes
/// divides it, and `ProbablyPrime` otherwise, which then only means that the
/// candidate has no odd prime factor below 256.
pub fn prime_test_trial(n: &BigUint) -> (verdict: Option<Primality>)
    ensures
        value(*n) <= LARGEST_SMALL_PRIME ==> verdict is None,
        value(*n) > LARGEST_SMALL_PRIME ==> verdict == Some(
            if has_small_odd_prime_factor(value(*n)) {
                Primality::Composite
            } else {
                Primality::ProbablyPrime
            },
        ),
        verdict == Some(Primality::Composite) ==> !is_prime(value(*n)),
{
    let largest = big_from_u64(LARGEST_SMALL_PRIME);
    if !big_lt(&largest, n) {
        return None;
    }
    let one = big_from_u64(1);
    let mut j: usize = 0;
    while j < GROUPS
        invariant
            j <= GROUPS,
            value(one) == 1,
            value(*n) > LARGEST_SMALL_PRIME,
            forall|i: int, p: nat|
                0 <= i < j && #[trigger] in_group(i, p) ==> !divides(p, value(*n)),
        decreases GROUPS - j,
    {
        let product = group_product_word(j);
        let g = gcd(big_clone(n), big_from_u64(product));
        proof {
            lemma_gcd_divides(value(*n), product as nat);
        }
        if !big_eq(&g, &one) {
            proof {
                lemma_gcd_positive(value(*n), product as nat);
                let r = lemma_prime_divisor_exists(value(g));
                lemma_divides_transitive(r, value(g), value(*n));
                lemma_divides_transitive(r, value(g), product as nat);
                lemma_group_factor(j as int, r);
                lemma_group_member(j as int, r);
                assert(has_small_odd_prime_factor(value(*n)));
            }
            return Some(Primality::Composite);
        }
        proof {
            assert forall|p: nat| #[trigger]
                in_group(j as int, p) implies !divides(p, value(*n)) by {
                lemma_group_member(j as int, p);
                if divides(p, value(*n)) {
                    lemma_gcd_greatest(value(*n), product as nat, p);
                    lemma_divisor_bound(p, 1);
                }
            }
        }
        j += 1;
    }
    proof {
        assert forall|p: nat| 3 <= p <= LARGEST_SMALL_PRIME && is_prime(p) implies !#[trigger]
            divides(p, value(*n)) by {
            lemma_groups_complete(p);
        }
    }
    Some(Primality::ProbablyPrime)
}

} // verus!
