//! The Miller–Rabin test.
use crate::biguint::{
    big_bit, big_clone, big_eq, big_from_u64, big_lt, big_modpow, big_random_range, big_shr,
    big_sub, big_trailing_zeros, value,
};
use crate::divisibility::{
    divides, is_prime, lemma_divisor_bound, lemma_twos_decompose, lemma_twos_unique, odd_part,
    twos,
};
use crate::fermat::fermat_witness;
use crate::modular::{lemma_fermat_little, lemma_square_root_of_one};
use crate::Primality;
use crate::ProbabilisticPrimalityTester;
use num_bigint::BigUint;
use vstd::arithmetic::div_mod::*;
use vstd::arithmetic::power::*;
use vstd::arithmetic::power2::*;
use vstd::prelude::*;

verus! {

/// The strong probable-prime test: with `n - 1 = d * 2^r` and `d` odd, a prime `n`
/// has, for every base `a` that it does not divide, `a^d = 1` or `a^(d * 2^i) = -1`
/// for some `i < r`, modulo `n`.
pub struct MillerRabin;

/// The remainder modulo `n` of `a^(d * 2^i)`, where `d` is the odd part of `n - 1`.
pub open spec fn strong_power(n: nat, a: nat, i: nat) -> int {
    pow(a as int, odd_part((n - 1) as nat) * pow2(i)) % (n as int)
}

/// The base `a` shows by the strong test that the odd number `n` is composite:
/// `a^d` is not one, and none of `a^d, a^(2d), .., a^(d * 2^(r-1))` is `n - 1`,
/// modulo `n`.
pub open spec fn strong_witness(n: nat, a: nat) -> bool {
    &&& strong_power(n, a, 0) != 1
    &&& forall|i: nat| i < twos((n - 1) as nat) ==> #[trigger] strong_power(n, a, i) != n - 1
}

/// Some base from two up to, but not including, `n - 1` is a strong witness.
pub open spec fn has_strong_witness(n: nat) -> bool {
    exists|a: nat| 2 <= a < n - 1 && strong_witness(n, a)
}

/// Some base from two up to, but not including, `n - 1` is no strong witness.
pub open spec fn has_strong_liar(n: nat) -> bool {
    exists|a: nat| 2 <= a < n - 1 && !strong_witness(n, a)
}

/// Each strong power is the square of the one before, modulo `n`.
pub proof fn lemma_strong_power_squares(n: nat, a: nat, i: nat)
    requires
        n > 0,
    ensures
        strong_power(n, a, i + 1) == (strong_power(n, a, i) * strong_power(n, a, i)) % (n as int),
        strong_power(n, a, i + 1) == pow(strong_power(n, a, i), 2) % (n as int),
{
    let d = odd_part((n - 1) as nat);
    let e = d * pow2(i);
    let x = pow(a as int, e);
    lemma_pow2_unfold(i + 1);
    assert(d * pow2(i + 1) == e * 2) by (nonlinear_arith)
        requires
            e == d * pow2(i),
            pow2(i + 1) == 2 * pow2(i),
    ;
    lemma_pow_multiplies(a as int, e, 2);
    lemma_square_is_pow2(x);
    lemma_square_is_pow2(x % (n as int));
    lemma_mul_mod_noop(x, x, n as int);
}

/// If the strong power of index `r` is one and none below it is `n - 1`, then all
/// strong powers up to `r` are one, `n` being prime.
proof fn lemma_strong_powers_are_one(n: nat, a: nat, r: nat, i: nat)
    requires
        is_prime(n),
        i <= r,
        strong_power(n, a, r) == 1,
        forall|k: nat| k < r ==> #[trigger] strong_power(n, a, k) != n - 1,
    ensures
        strong_power(n, a, i) == 1,
    decreases r - i,
{
    if i < r {
        lemma_strong_powers_are_one(n, a, r, i + 1);
        lemma_strong_power_squares(n, a, i);
        let x = strong_power(n, a, i);
        lemma_mod_bound(pow(a as int, odd_part((n - 1) as nat) * pow2(i)), n as int);
        lemma_square_root_of_one(n, x as nat);
    }
}

/// An odd prime has no strong witness among the bases that it does not divide.
pub proof fn lemma_prime_has_no_strong_witness(n: nat, a: nat)
    requires
        is_prime(n),
        n > 2,
        !divides(n, a),
    ensures
        !strong_witness(n, a),
{
    if strong_witness(n, a) {
        let m = (n - 1) as nat;
        let r = twos(m);
        lemma_twos_decompose(m);
        assert(odd_part(m) * pow2(r) == m) by (nonlinear_arith)
            requires
                m == pow2(r) * odd_part(m),
        ;
        lemma_fermat_little(n, a);
        lemma_strong_powers_are_one(n, a, r, 0);
    }
}

/// Once a strong power is one, all later ones are.
proof fn lemma_strong_powers_stay_one(n: nat, a: nat, i: nat, j: nat)
    requires
        n > 1,
        i <= j,
        strong_power(n, a, i) == 1,
    ensures
        strong_power(n, a, j) == 1,
    decreases j - i,
{
    if i < j {
        lemma_strong_power_squares(n, a, i);
        lemma_small_mod(1, n);
        lemma_strong_powers_stay_one(n, a, i + 1, j);
    }
}

/// The strong test is at least as sharp as the Fermat test: a base that is no
/// strong witness of the odd number `n` is no Fermat witness either.
pub proof fn lemma_fermat_witness_is_strong_witness(n: nat, a: nat)
    requires
        n > 2,
        n % 2 == 1,
        fermat_witness(n, a),
    ensures
        strong_witness(n, a),
{
    let m = (n - 1) as nat;
    let r = twos(m);
    lemma_twos_decompose(m);
    assert(odd_part(m) * pow2(r) == m) by (nonlinear_arith)
        requires
            m == pow2(r) * odd_part(m),
    ;
    assert(strong_power(n, a, r) != 1);
    if strong_power(n, a, 0) == 1 {
        lemma_strong_powers_stay_one(n, a, 0, r);
    }
    assert forall|i: nat| i < r implies #[trigger] strong_power(n, a, i) != n - 1 by {
        if strong_power(n, a, i) == n - 1 {
            lemma_strong_power_squares(n, a, i);
            assert((n - 1) * (n - 1) == n * (n - 2) + 1) by (nonlinear_arith)
                requires
                    n > 2,
            ;
            lemma_mod_multiples_vanish((n - 2) as int, 1, n as int);
            lemma_small_mod(1, n);
            lemma_strong_powers_stay_one(n, a, i + 1, r);
        }
    }
}

impl MillerRabin {
    /// Whether the base `a` is a strong witness of the compositeness of the odd
    /// number `n`.
    pub fn is_witness(n: &BigUint, a: &BigUint) -> (witness: bool)
        requires
            value(*n) >= 3,
            value(*n) % 2 == 1,
        ensures
            witness == strong_witness(value(*n), value(*a)),
    {
        let one = big_from_u64(1);
        let n_decrement = big_sub(big_clone(n), &one);
        let r = big_trailing_zeros(&n_decrement).unwrap();
        let d = big_shr(big_clone(&n_decrement), r);
        proof {
            lemma_twos_unique(value(n_decrement), r as nat);
        }
        MillerRabin::round(n, &n_decrement, &d, r, a)
    }

    /// One round of the test on the base `a`, given the decomposition
    /// `n - 1 = d * 2^r`.
    fn round(
        n: &BigUint,
        n_decrement: &BigUint,
        d: &BigUint,
        r: u64,
        a: &BigUint,
    ) -> (witness: bool)
        requires
            value(*n) >= 3,
            value(*n) % 2 == 1,
            value(*n_decrement) == value(*n) - 1,
            value(*d) == odd_part(value(*n_decrement)),
            r == twos(value(*n_decrement)),
        ensures
            witness == strong_witness(value(*n), value(*a)),
    {
        let ghost modulus = value(*n);
        let ghost base = value(*a);
        let one = big_from_u64(1);
        let two = big_from_u64(2);
        let mut x = big_modpow(a, d, n);
        proof {
            lemma2_to64();
            lemma_twos_decompose(value(*n_decrement));
            assert(value(*d) * pow2(0) == value(*d));
        }
        if big_eq(&x, &one) {
            return false;
        }
        if big_eq(&x, n_decrement) {
            return false;
        }
        let mut i: u64 = 1;
        while i < r
            invariant
                1 <= i <= r,
                modulus == value(*n),
                base == value(*a),
                modulus >= 3,
                value(two) == 2,
                value(*n_decrement) == modulus - 1,
                r == twos((modulus - 1) as nat),
                value(x) == strong_power(modulus, base, (i - 1) as nat),
                strong_power(modulus, base, 0) != 1,
                forall|k: nat| k < i ==> #[trigger] strong_power(modulus, base, k) != modulus - 1,
            decreases r - i,
        {
            proof {
                lemma_strong_power_squares(modulus, base, (i - 1) as nat);
            }
            x = big_modpow(&x, &two, n);
            if big_eq(&x, n_decrement) {
                return false;
            }
            i += 1;
        }
        true
    }
}

impl ProbabilisticPrimalityTester for MillerRabin {
    /// Tests `n` with `rounds` random bases from `[2, n - 1)`.
    ///
    /// Three is `ProbablyPrime` without a round, since no base exists for it.  On an
    /// odd candidate above three, a verdict of `Composite` rests on a base that is a
    /// strong witness, so it is never given to a prime; a verdict of `ProbablyPrime`
    /// after at least one round rests on a base that is none.
    fn test(n: &BigUint, rounds: u32) -> (verdict: Primality)
        ensures
            verdict == Primality::Composite && value(*n) > 3 && value(*n) % 2 == 1
                ==> has_strong_witness(value(*n)),
            verdict == Primality::ProbablyPrime && value(*n) > 3 && value(*n) % 2 == 1
                && rounds > 0 ==> has_strong_liar(value(*n)),
    {
        let two = big_from_u64(2);
        if big_lt(n, &two) {
            return Primality::Composite;
        }
        let three = big_from_u64(3);
        if !big_lt(&three, n) {
            return Primality::ProbablyPrime;
        }
        proof {
            lemma2_to64();
        }
        if !big_bit(n, 0) {
            assert(value(*n) % 2 == 0);
            return Primality::Composite;
        }
        let one = big_from_u64(1);
        let n_decrement = big_sub(big_clone(n), &one);
        let r = big_trailing_zeros(&n_decrement).unwrap();
        let d = big_shr(big_clone(&n_decrement), r);
        proof {
            lemma_twos_unique(value(n_decrement), r as nat);
        }
        let mut round: u32 = 0;
        let ghost mut passed: nat = 0;
        while round < rounds
            invariant
                value(*n) > 3,
                value(*n) % 2 == 1,
                value(two) == 2,
                value(n_decrement) == value(*n) - 1,
                value(d) == odd_part(value(n_decrement)),
                r == twos(value(n_decrement)),
                round > 0 ==> 2 <= passed < value(*n) - 1 && !strong_witness(value(*n), passed),
            decreases rounds - round,
        {
            let a = big_random_range(&two, &n_decrement);
            if MillerRabin::round(n, &n_decrement, &d, r, &a) {
                proof {
                    if is_prime(value(*n)) {
                        if divides(value(*n), value(a)) {
                            lemma_divisor_bound(value(*n), value(a));
                        }
                        lemma_prime_has_no_strong_witness(value(*n), value(a));
                    }
                }
                return Primality::Composite;
            }
            proof {
                passed = value(a);
            }
            round += 1;
        }
        Primality::ProbablyPrime
    }
}

} // verus!
