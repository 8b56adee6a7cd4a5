//! The Jacobi symbol and the Solovay–Strassen test.
use crate::biguint::{
    big_bit, big_clone, big_eq, big_from_u64, big_lt, big_modpow, big_random_range, big_rem,
    big_shr, big_sub, big_trailing_zeros, value,
};
use crate::divisibility::{
    divides, gcd, is_prime, lemma_divisor_bound, lemma_gcd_halve, lemma_gcd_remainder,
    lemma_gcd_symmetric, lemma_gcd_zero, lemma_power_of_two_quotient,
};
use crate::fermat::fermat_witness;
use crate::gauss::flip;
use crate::reciprocity::lemma_prime_has_no_euler_witness;
use crate::Primality;
use crate::ProbabilisticPrimalityTester;
use num_bigint::BigUint;
use vstd::arithmetic::div_mod::*;
use vstd::arithmetic::power::*;
use vstd::arithmetic::power2::*;
use vstd::prelude::*;

verus! {

/// The test based on Euler's criterion: a prime `n` satisfies
/// `a^((n-1)/2) = (a/n) (mod n)` for every base `a`, where `(a/n)` is the Jacobi
/// symbol.
pub struct SolovayStrassen;

/// Whether `(2/n)` is `-1`: the odd number `n` leaves the remainder 3 or 5 modulo 8.
pub open spec fn two_flips(n: nat) -> bool {
    n % 8 == 3 || n % 8 == 5
}

/// Whether `(a/n)` and `(n/a)` differ in sign, for odd coprime `a` and `n`: both
/// leave the remainder 3 modulo 4.
pub open spec fn reciprocity_flips(a: nat, n: nat) -> bool {
    a % 4 == 3 && n % 4 == 3
}

/// The Jacobi symbol `(a/n)` of an odd `n`, by the laws that determine it:
/// it depends on `a` modulo `n` only; `(0/n)` is one for `n = 1` and zero
/// otherwise; `(2a/n) = (2/n) (a/n)`; and `(a/n) = ±(n/a)` for odd `a`, by
/// quadratic reciprocity.  For an even `n`, where the symbol is not defined, the
/// value is zero.
///
/// That a symbol with these laws exists is the content of [`crate::reciprocity`]:
/// this function is Gauss's symbol, it is multiplicative in both arguments, it obeys
/// the reciprocity law, and modulo an odd prime `p` it is congruent to
/// `a^((p-1)/2)`.
pub open spec fn jacobi(a: nat, n: nat) -> int
    decreases n, a,
{
    let r = a % n;
    if n % 2 == 0 {
        0
    } else if r == 0 {
        if n == 1 {
            1
        } else {
            0
        }
    } else if r % 2 == 0 {
        proof {
            lemma_mod_decreases(a, n);
        }
        flip(two_flips(n), jacobi(r / 2, n))
    } else {
        proof {
            lemma_mod_bound(a as int, n as int);
        }
        flip(reciprocity_flips(r, n), jacobi(n, r))
    }
}

/// The Jacobi symbol is `-1`, `0` or `1`.
pub proof fn lemma_jacobi_range(a: nat, n: nat)
    ensures
        -1 <= jacobi(a, n) <= 1,
    decreases n, a,
{
    let r = a % n;
    if n % 2 == 1 && r != 0 {
        lemma_mod_decreases(a, n);
        lemma_mod_bound(a as int, n as int);
        if r % 2 == 0 {
            lemma_jacobi_range(r / 2, n);
        } else {
            lemma_jacobi_range(n, r);
        }
    }
}

/// The Jacobi symbol of an odd `n` is zero exactly when `a` and `n` have a common
/// factor.
pub proof fn lemma_jacobi_zero(a: nat, n: nat)
    requires
        n % 2 == 1,
    ensures
        jacobi(a, n) == 0 <==> gcd(a, n) != 1,
    decreases n, a,
{
    let r = a % n;
    lemma_gcd_remainder(a, n);
    lemma_mod_decreases(a, n);
    lemma_mod_bound(a as int, n as int);
    if r == 0 {
        lemma_gcd_zero(n);
    } else if r % 2 == 0 {
        lemma_jacobi_zero(r / 2, n);
        lemma_gcd_halve(r / 2, n);
    } else {
        lemma_jacobi_zero(n, r);
        lemma_gcd_symmetric(n, r);
    }
}

/// The Jacobi symbol depends on `a` modulo `n` only.
pub proof fn lemma_jacobi_reduce(a: nat, n: nat)
    requires
        n > 0,
    ensures
        jacobi(a % n, n) == jacobi(a, n),
{
    lemma_mod_twice(a as int, n as int);
}

/// Taking `2^k` out of a reduced `a` multiplies the symbol by `(2/n)^k`.
pub proof fn lemma_jacobi_strip_twos(a: nat, k: nat, n: nat)
    requires
        n % 2 == 1,
        0 < a < n,
        a % pow2(k) == 0,
    ensures
        jacobi(a, n) == flip(k % 2 == 1 && two_flips(n), jacobi(a / pow2(k), n)),
    decreases k,
{
    lemma2_to64();
    lemma_power_of_two_quotient(a, k);
    lemma_small_mod(a, n);
    let q = a / pow2(k);
    if k == 0 {
        assert(a == q) by (nonlinear_arith)
            requires
                a == pow2(k) * q,
                pow2(k) == 1,
        ;
    } else {
        let before = (k - 1) as nat;
        let h = pow2(before) * q;
        lemma_pow2_unfold(k);
        lemma_pow2_pos(before);
        assert(a == 2 * h) by (nonlinear_arith)
            requires
                a == pow2(k) * q,
                pow2(k) == 2 * pow2(before),
                h == pow2(before) * q,
        ;
        lemma_mod_multiples_basic(q as int, pow2(before) as int);
        assert(h == q * pow2(before)) by (nonlinear_arith)
            requires
                h == pow2(before) * q,
        ;
        lemma_div_multiples_vanish(q as int, pow2(before) as int);
        lemma_jacobi_strip_twos(h, before, n);
        assert(jacobi(a, n) == flip(two_flips(n), jacobi(h, n)));
    }
}

/// The residue modulo `n` that stands for a non-zero symbol: `1` for `1` and
/// `n - 1` for `-1`.
pub open spec fn symbol_residue(symbol: int, n: nat) -> int {
    if symbol == 1 {
        1
    } else {
        n - 1
    }
}

/// The base `a` shows by Euler's criterion that the odd number `n` is composite:
/// its Jacobi symbol is zero, or `a^((n-1)/2)` is not congruent to the symbol
/// modulo `n`.
pub open spec fn euler_witness(n: nat, a: nat) -> bool {
    let symbol = jacobi(a, n);
    symbol == 0 || pow(a as int, ((n - 1) / 2) as nat) % (n as int) != symbol_residue(symbol, n)
}

/// Some base from two up to, but not including, `n` is an Euler witness.
pub open spec fn has_euler_witness(n: nat) -> bool {
    exists|a: nat| 2 <= a < n && euler_witness(n, a)
}

/// Some base from two up to, but not including, `n` is no Euler witness.
pub open spec fn has_euler_liar(n: nat) -> bool {
    exists|a: nat| 2 <= a < n && !euler_witness(n, a)
}

/// The Euler test is at least as sharp as the Fermat test: a base that is no Euler
/// witness of the odd number `n` is no Fermat witness either.
pub proof fn lemma_fermat_witness_is_euler_witness(n: nat, a: nat)
    requires
        n > 2,
        n % 2 == 1,
        fermat_witness(n, a),
    ensures
        euler_witness(n, a),
{
    let h = ((n - 1) / 2) as nat;
    let x = pow(a as int, h);
    let modulus = n as int;
    assert(h * 2 == n - 1);
    lemma_pow_multiplies(a as int, h, 2);
    lemma_square_is_pow2(x);
    lemma_mul_mod_noop(x, x, modulus);
    lemma_small_mod(1, n);
    if x % modulus == n - 1 {
        assert((n - 1) * (n - 1) == n * (n - 2) + 1) by (nonlinear_arith)
            requires
                n > 2,
        ;
        lemma_mod_multiples_vanish((n - 2) as int, 1, modulus);
    }
}

/// The Jacobi symbol `(a/n)`, or `None` for an even `n`, for which it is not
/// defined.
///
/// The symbol is computed without factoring: `a` is reduced modulo `n`, its factors
/// of two are taken out, each at the price of `(2/n)`, and the two arguments are
/// swapped by quadratic reciprocity, until `a` is zero.
pub fn jacobi_symbol(a: BigUint, n: BigUint) -> (symbol: Option<i8>)
    ensures
        value(n) % 2 == 0 ==> symbol is None,
        value(n) % 2 == 1 ==> (symbol matches Some(j) && j == jacobi(value(a), value(n))),
        symbol matches Some(j) ==> -1 <= j <= 1 && (j == 0 <==> gcd(value(a), value(n)) != 1),
{
    proof {
        lemma2_to64();
        lemma_jacobi_range(value(a), value(n));
        if value(n) % 2 == 1 {
            lemma_jacobi_zero(value(a), value(n));
        }
    }
    if !big_bit(&n, 0) {
        assert(value(n) % 2 == 0);
        return None;
    }
    let ghost a0 = value(a);
    let ghost n0 = value(n);
    let zero = big_from_u64(0);
    let one = big_from_u64(1);
    let three = big_from_u64(3);
    let four = big_from_u64(4);
    let five = big_from_u64(5);
    let eight = big_from_u64(8);
    let mut n = n;
    let mut a = big_rem(&a, &n);
    let mut t: i8 = 1;
    proof {
        lemma_jacobi_reduce(a0, n0);
        lemma_mod_bound(a0 as int, n0 as int);
    }
    while !big_eq(&a, &zero)
        invariant
            value(zero) == 0,
            value(three) == 3,
            value(four) == 4,
            value(five) == 5,
            value(eight) == 8,
            value(n) % 2 == 1,
            value(a) < value(n),
            t == 1 || t == -1,
            jacobi(a0, n0) == flip(t == -1, jacobi(value(a), value(n))),
        decreases value(n),
    {
        let ghost even = value(a);
        let twos = big_trailing_zeros(&a).unwrap();
        let n_mod_8 = big_rem(&n, &eight);
        if twos % 2 == 1 && (big_eq(&n_mod_8, &three) || big_eq(&n_mod_8, &five)) {
            t = -t;
        }
        a = big_shr(a, twos);
        proof {
            lemma_jacobi_strip_twos(even, twos as nat, value(n));
            lemma_power_of_two_quotient(even, twos as nat);
            lemma_small_mod(value(a), value(n));
            lemma_jacobi_reduce(value(n), value(a));
        }
        std::mem::swap(&mut a, &mut n);
        let a_mod_4 = big_rem(&a, &four);
        let n_mod_4 = big_rem(&n, &four);
        if big_eq(&a_mod_4, &three) && big_eq(&n_mod_4, &three) {
            t = -t;
        }
        a = big_rem(&a, &n);
        proof {
            lemma_mod_bound(value(a) as int, value(n) as int);
        }
    }
    if big_eq(&n, &one) {
        Some(t)
    } else {
        Some(0)
    }
}

impl SolovayStrassen {
    /// Whether the base `a` is an Euler witness of the compositeness of the odd
    /// number `n`.
    pub fn is_witness(n: &BigUint, a: &BigUint) -> (witness: bool)
        requires
            value(*n) >= 3,
            value(*n) % 2 == 1,
        ensures
            witness == euler_witness(value(*n), value(*a)),
    {
        let one = big_from_u64(1);
        let n_decrement = big_sub(big_clone(n), &one);
        let legendre_power = big_shr(big_clone(&n_decrement), 1);
        proof {
            lemma2_to64();
        }
        let symbol = jacobi_symbol(big_clone(a), big_clone(n)).unwrap();
        if symbol == 0 {
            return true;
        }
        let power = big_modpow(a, &legendre_power, n);
        if symbol == 1 {
            !big_eq(&power, &one)
        } else {
            !big_eq(&power, &n_decrement)
        }
    }
}

impl ProbabilisticPrimalityTester for SolovayStrassen {
    /// Tests `n` with `rounds` random bases from `[2, n)`.
    ///
    /// On an odd candidate from three on, a verdict of `Composite` rests on a base
    /// that is an Euler witness, so it is never given to a prime; a verdict of
    /// `ProbablyPrime` after at least one round rests on a base that is none.
    fn test(n: &BigUint, rounds: u32) -> (verdict: Primality)
        ensures
            verdict == Primality::Composite && value(*n) > 2 && value(*n) % 2 == 1
                ==> has_euler_witness(value(*n)),
            verdict == Primality::ProbablyPrime && value(*n) > 2 && value(*n) % 2 == 1
                && rounds > 0 ==> has_euler_liar(value(*n)),
    {
        let two = big_from_u64(2);
        if big_lt(n, &two) {
            return Primality::Composite;
        }
        if big_eq(n, &two) {
            return Primality::ProbablyPrime;
        }
        proof {
            lemma2_to64();
        }
        if !big_bit(n, 0) {
            assert(value(*n) % 2 == 0);
            return Primality::Composite;
        }
        let mut round: u32 = 0;
        let ghost mut passed: nat = 0;
        while round < rounds
            invariant
                value(*n) > 2,
                value(*n) % 2 == 1,
                value(two) == 2,
                round > 0 ==> 2 <= passed < value(*n) && !euler_witness(value(*n), passed),
            decreases rounds - round,
        {
            let a = big_random_range(&two, n);
            if SolovayStrassen::is_witness(n, &a) {
                proof {
                    if is_prime(value(*n)) {
                        if divides(value(*n), value(a)) {
                            lemma_divisor_bound(value(*n), value(a));
                        }
                        lemma_prime_has_no_euler_witness(value(*n), value(a));
                    }
                }
                return Primality::Composite;
            }
            proof {
                passed = value(a);
            }
            round += 1;
        }
        Primality::ProbablyPrime
    }
}

} // verus!
