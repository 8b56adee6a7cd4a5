//! Powers modulo a prime: Fermat's little theorem and the square roots of one.
//!
//! Fermat's little theorem is proved by the classical counting argument: modulo a
//! prime `p`, the multiples `a, 2a, .., (p-1)a` of a number that `p` does not divide
//! are the numbers `1, .., p-1` in another order, so both lists have the same
//! product.
use crate::divisibility::{
    divides, is_prime, lemma_divides_basics, lemma_divisor_bound, lemma_euclid,
};
use crate::permutation::{factorial, is_rearrangement, lemma_permutation_product, seq_product};
use vstd::arithmetic::div_mod::*;
use vstd::arithmetic::power::*;
use vstd::prelude::*;

verus! {

/// The remainders modulo `p` of the first `k` positive multiples of `a`.
pub open spec fn multiples(a: nat, p: nat, k: nat) -> Seq<int> {
    Seq::new(k, |i: int| (a * (i + 1)) % (p as int))
}

/// Modulo `p`, the product of the first `k` multiples of `a` is `a^k * k!`.
pub proof fn lemma_multiples_product(a: nat, p: nat, k: nat)
    requires
        p > 0,
    ensures
        seq_product(multiples(a, p, k)) % (p as int)
            == (pow(a as int, k) * factorial(k)) % (p as int),
    decreases k,
{
    reveal(pow);
    if k > 0 {
        let before = (k - 1) as nat;
        lemma_multiples_product(a, p, before);
        let m = p as int;
        let s = multiples(a, p, k);
        assert(s.drop_last() =~= multiples(a, p, before));
        let x = seq_product(multiples(a, p, before));
        let y = pow(a as int, before) * factorial(before);
        let z = (a * k) as int;
        assert(s.last() == z % m);
        assert(seq_product(s) == x * (z % m));
        lemma_mul_mod_noop_general(x, z, m);
        lemma_mul_mod_noop_general(y, z, m);
        assert((x * z) % m == (y * z) % m);
        assert(y * z == pow(a as int, k) * factorial(k)) by (nonlinear_arith)
            requires
                y == pow(a as int, before) * factorial(before),
                z == a * k,
                pow(a as int, k) == a * pow(a as int, before),
                factorial(k) == k * factorial(before),
        ;
    } else {
        assert(multiples(a, p, k).len() == 0);
    }
}

/// If `a * i` and `a * j` leave the same remainder modulo a prime that does not
/// divide `a`, then the prime divides `j - i`.
pub proof fn lemma_cancel_factor(p: nat, a: nat, i: nat, j: nat)
    requires
        is_prime(p),
        !divides(p, a),
        i <= j,
        (a * i) % p == (a * j) % p,
    ensures
        divides(p, (j - i) as nat),
{
    lemma_mod_equivalence((a * j) as int, (a * i) as int, p as int);
    let d = (j - i) as nat;
    assert(a * j - a * i == a * d) by (nonlinear_arith)
        requires
            d == j - i,
    ;
    lemma_euclid(p, a, d);
}

/// Modulo a prime that does not divide `a`, the first `p - 1` multiples of `a`
/// leave distinct remainders between `1` and `p - 1`.
pub proof fn lemma_multiples_permute(a: nat, p: nat)
    requires
        is_prime(p),
        !divides(p, a),
    ensures
        is_rearrangement(multiples(a, p, (p - 1) as nat), (p - 1) as nat),
{
    let s = multiples(a, p, (p - 1) as nat);
    assert forall|i: int| 0 <= i < p - 1 implies 1 <= #[trigger] s[i] <= p - 1 by {
        let k = (i + 1) as nat;
        assert(s[i] == (a * k) % p);
        if s[i] == 0 {
            assert(a * 0 == 0);
            lemma_small_mod(0, p);
            lemma_cancel_factor(p, a, 0, k);
            lemma_divisor_bound(p, k);
        }
    }
    assert forall|i: int, j: int| 0 <= i < s.len() && 0 <= j < s.len() && i != j implies s[i]
        != s[j] by {
        let lo = (if i < j { i } else { j } + 1) as nat;
        let hi = (if i < j { j } else { i } + 1) as nat;
        assert(s[i] == (a * (i + 1)) % (p as int));
        assert(s[j] == (a * (j + 1)) % (p as int));
        if s[i] == s[j] {
            lemma_cancel_factor(p, a, lo, hi);
            lemma_divisor_bound(p, (hi - lo) as nat);
        }
    }
}

/// A prime does not divide the factorial of a smaller number.
pub proof fn lemma_factorial_coprime(p: nat, k: nat)
    requires
        is_prime(p),
        k < p,
    ensures
        !divides(p, factorial(k)),
        factorial(k) >= 1,
    decreases k,
{
    if k == 0 {
        lemma_small_mod(1, p);
    } else {
        lemma_factorial_coprime(p, (k - 1) as nat);
        let f = factorial((k - 1) as nat);
        assert(k * f >= 1) by (nonlinear_arith)
            requires
                k >= 1,
                f >= 1,
        ;
        if divides(p, factorial(k)) {
            lemma_euclid(p, k, f);
            lemma_divisor_bound(p, k);
        }
    }
}

/// Fermat's little theorem: if the prime `p` does not divide `a`, then
/// `a^(p-1)` leaves the remainder one modulo `p`.
pub proof fn lemma_fermat_little(p: nat, a: nat)
    requires
        is_prime(p),
        !divides(p, a),
    ensures
        pow(a as int, (p - 1) as nat) % (p as int) == 1,
{
    let k = (p - 1) as nat;
    let s = multiples(a, p, k);
    let f = factorial(k);
    let x = pow(a as int, k);
    lemma_multiples_permute(a, p);
    lemma_permutation_product(s, k);
    lemma_multiples_product(a, p, k);
    lemma_factorial_coprime(p, k);
    assert(a >= 1) by {
        lemma_divides_basics(p);
    }
    lemma_pow_positive(a as int, k);
    assert((x * f) % (p as int) == f % p);
    lemma_mod_equivalence(x * f, f as int, p as int);
    let y = (x - 1) as nat;
    assert(x * f - f == y * f) by (nonlinear_arith)
        requires
            y == x - 1,
    ;
    lemma_euclid(p, y, f);
    lemma_mod_equivalence(x, 1, p as int);
    lemma_small_mod(1, p);
}

/// Modulo a prime, one has no square roots but `1` and `p - 1`.
pub proof fn lemma_square_root_of_one(p: nat, x: nat)
    requires
        is_prime(p),
        x < p,
        (x * x) % p == 1,
    ensures
        x == 1 || x == p - 1,
{
    lemma_small_mod(1, p);
    if x == 0 {
        assert(x * x == 0);
        lemma_small_mod(0, p);
    } else {
        let below = (x - 1) as nat;
        let above = x + 1;
        lemma_mod_equivalence((x * x) as int, 1, p as int);
        assert(x * x - 1 == below * above) by (nonlinear_arith)
            requires
                below == x - 1,
                above == x + 1,
        ;
        lemma_euclid(p, below, above);
        if divides(p, below) {
            if below > 0 {
                lemma_divisor_bound(p, below);
            }
        } else {
            lemma_divisor_bound(p, above);
        }
    }
}

} // verus!
