//! Gauss's lemma: the quadratic character of `a` modulo an odd `n`, read off the
//! multiples `a, 2a, .., ((n-1)/2) a`.
//!
//! Each multiple is reduced modulo `n` to a remainder.  The remainders above `n/2`
//! are counted, and the parity of that count gives a sign, [`gauss_symbol`].  The
//! module proves that this sign is multiplicative in `a`, what it is for `a = 2`,
//! and that modulo an odd prime it is congruent to `a^((n-1)/2)`.
use crate::divisibility::{
    divides, gcd, is_prime, lemma_coprime_cancel, lemma_coprime_factor, lemma_coprime_product,
    lemma_divisor_bound, lemma_euclid, lemma_gcd_remainder, lemma_gcd_symmetric,
    lemma_prime_coprime,
    lemma_two_coprime_to_odd,
};
use crate::modular::{lemma_factorial_coprime, lemma_multiples_product, multiples};
use crate::permutation::{
    factorial, is_rearrangement, lemma_permutation_product, lemma_permutation_sum, seq_product,
    sum_over, sum_to,
};
use vstd::arithmetic::div_mod::*;
use vstd::arithmetic::power::*;
use vstd::prelude::*;

verus! {

/// `x`, negated if `negate` holds.
pub open spec fn flip(negate: bool, x: int) -> int {
    if negate {
        -x
    } else {
        x
    }
}

/// The remainder of `a * k` modulo `n`.
pub open spec fn residue(a: nat, n: nat, k: nat) -> nat {
    (a * k) % n
}

/// The remainder of `a * k` lies in the upper half of the remainders of the odd `n`.
pub open spec fn is_upper(a: nat, n: nat, k: nat) -> bool {
    residue(a, n, k) > n / 2
}

/// The distance from `a * k` to the nearest multiple of the odd `n`.
pub open spec fn folded(a: nat, n: nat, k: nat) -> nat {
    if is_upper(a, n, k) {
        (n - residue(a, n, k)) as nat
    } else {
        residue(a, n, k)
    }
}

/// How many of the multiples `a, 2a, .., m a` have their remainder in the upper half.
pub open spec fn upper_count(a: nat, n: nat, m: nat) -> nat
    decreases m,
{
    if m == 0 {
        0
    } else {
        upper_count(a, n, (m - 1) as nat) + if is_upper(a, n, m) {
            1nat
        } else {
            0nat
        }
    }
}

/// The sign that Gauss's lemma attaches to `a` and the odd number `n`: zero if they
/// have a common factor, otherwise one or minus one as the number of multiples
/// `a, 2a, .., ((n-1)/2) a` with a remainder above `n/2` is even or odd.
pub open spec fn gauss_symbol(a: nat, n: nat) -> int {
    if gcd(a, n) != 1 {
        0
    } else if upper_count(a, n, n / 2) % 2 == 0 {
        1
    } else {
        -1
    }
}

/// The distances of the first `m` multiples of `a` to the multiples of `n`.
pub open spec fn folded_prefix(a: nat, n: nat, m: nat) -> Seq<int> {
    Seq::new(m, |i: int| folded(a, n, (i + 1) as nat) as int)
}

/// A multiple `a * k` of a number coprime to `n`, with `0 < k < n`, leaves a
/// non-zero remainder.
pub proof fn lemma_residue_nonzero(a: nat, n: nat, k: nat)
    requires
        gcd(a, n) == 1,
        0 < k < n,
    ensures
        0 < residue(a, n, k) < n,
{
    lemma_mod_bound((a * k) as int, n as int);
    if residue(a, n, k) == 0 {
        lemma_coprime_cancel(n, a, k);
        lemma_divisor_bound(n, k);
    }
}

/// The distance of such a multiple to the multiples of `n` lies between one and
/// `n/2`.
pub proof fn lemma_folded_range(a: nat, n: nat, k: nat)
    requires
        n % 2 == 1,
        gcd(a, n) == 1,
        1 <= k <= n / 2,
    ensures
        1 <= folded(a, n, k) <= n / 2,
{
    lemma_residue_nonzero(a, n, k);
}

/// Distinct multipliers up to `n/2` give distinct distances.
pub proof fn lemma_folded_distinct(a: nat, n: nat, k: nat, l: nat)
    requires
        n % 2 == 1,
        gcd(a, n) == 1,
        1 <= k < l <= n / 2,
    ensures
        folded(a, n, k) != folded(a, n, l),
{
    lemma_residue_nonzero(a, n, k);
    lemma_residue_nonzero(a, n, l);
    let x = a * k;
    let y = a * l;
    if folded(a, n, k) == folded(a, n, l) {
        if is_upper(a, n, k) == is_upper(a, n, l) {
            let d = (l - k) as nat;
            lemma_mod_equivalence(y as int, x as int, n as int);
            assert(y - x == a * d) by (nonlinear_arith)
                requires
                    x == a * k,
                    y == a * l,
                    d == l - k,
            ;
            lemma_coprime_cancel(n, a, d);
            lemma_divisor_bound(n, d);
        } else {
            let s = k + l;
            lemma_add_mod_noop(x as int, y as int, n as int);
            lemma_mod_self_0(n as int);
            assert(x + y == a * s) by (nonlinear_arith)
                requires
                    x == a * k,
                    y == a * l,
                    s == k + l,
            ;
            lemma_coprime_cancel(n, a, s);
            lemma_divisor_bound(n, s);
        }
    }
}

/// The distances of the multiples `a, 2a, .., ((n-1)/2) a` are the numbers from one
/// to `(n-1)/2` in some order.
pub proof fn lemma_folded_permutation(a: nat, n: nat)
    requires
        n % 2 == 1,
        gcd(a, n) == 1,
    ensures
        is_rearrangement(folded_prefix(a, n, n / 2), n / 2),
{
    let s = folded_prefix(a, n, n / 2);
    assert forall|i: int| 0 <= i < n / 2 implies 1 <= #[trigger] s[i] <= n / 2 by {
        lemma_folded_range(a, n, (i + 1) as nat);
    }
    assert forall|i: int, j: int| 0 <= i < s.len() && 0 <= j < s.len() && i != j implies s[i]
        != s[j] by {
        if i < j {
            lemma_folded_distinct(a, n, (i + 1) as nat, (j + 1) as nat);
        } else {
            lemma_folded_distinct(a, n, (j + 1) as nat, (i + 1) as nat);
        }
    }
}

/// One if the remainder of `a * k` lies in the upper half, zero otherwise.
pub open spec fn upper_indicator(a: nat, n: nat, k: int) -> int {
    if k >= 0 && is_upper(a, n, k as nat) {
        1
    } else {
        0
    }
}

/// The count of upper remainders is the sum of the indicators.
pub proof fn lemma_upper_count_is_sum(a: nat, n: nat, m: nat)
    ensures
        upper_count(a, n, m) == sum_to(|k: int| upper_indicator(a, n, k), m),
    decreases m,
{
    if m > 0 {
        lemma_upper_count_is_sum(a, n, (m - 1) as nat);
    }
}

/// Two remainders between one and `n - 1` whose sum is divisible by `n` add up to
/// `n`.
proof fn lemma_opposite_remainders(u: nat, x: nat, n: nat)
    requires
        0 < u < n,
        0 < x < n,
        (u + x) % n == 0,
    ensures
        u + x == n,
{
    if u + x < n {
        lemma_small_mod(u + x, n);
    } else if u + x > n {
        lemma_mod_sub_multiples_vanish((u + x) as int, n as int);
        lemma_small_mod((u + x - n) as nat, n);
    }
}

/// Multiplying by `a * b` is multiplying by `b` and then by `a`: the multiple
/// `(a * b) k` is as far from the multiples of `n` as `a j`, where `j` is the
/// distance of `b k`, and it lies in the upper half exactly when one of `b k` and
/// `a j` does, but not both.
pub proof fn lemma_folded_composes(a: nat, b: nat, n: nat, k: nat)
    requires
        n % 2 == 1,
        gcd(a, n) == 1,
        gcd(b, n) == 1,
        1 <= k <= n / 2,
    ensures
        folded(a * b, n, k) == folded(a, n, folded(b, n, k)),
        is_upper(a * b, n, k) == (is_upper(b, n, k) != is_upper(a, n, folded(b, n, k))),
{
    let r = residue(b, n, k);
    let j = folded(b, n, k);
    let x = residue(a * b, n, k);
    lemma_coprime_product(a, b, n);
    lemma_residue_nonzero(b, n, k);
    lemma_residue_nonzero(a * b, n, k);
    lemma_residue_nonzero(a, n, j);
    assert((a * b) * k == a * (b * k)) by (nonlinear_arith);
    lemma_mul_mod_noop_general(a as int, (b * k) as int, n as int);
    assert(x == (a * r) % n);
    if is_upper(b, n, k) {
        let u = residue(a, n, j);
        assert(a * j + a * r == a * n) by (nonlinear_arith)
            requires
                j + r == n,
        ;
        lemma_mod_multiples_basic(a as int, n as int);
        lemma_add_mod_noop((a * j) as int, (a * r) as int, n as int);
        lemma_opposite_remainders(u, x, n);
    }
}

/// The distances of the first `m` multiples of `b`, as the multipliers of `a`, have
/// as many upper remainders as the multiples of `a * b` and of `b` differ by, up to
/// parity.
proof fn lemma_upper_count_composes(a: nat, b: nat, n: nat, m: nat)
    requires
        n % 2 == 1,
        gcd(a, n) == 1,
        gcd(b, n) == 1,
        m <= n / 2,
    ensures
        (upper_count(a * b, n, m) - upper_count(b, n, m) - sum_over(
            |k: int| upper_indicator(a, n, k),
            folded_prefix(b, n, m),
        )) % 2 == 0,
    decreases m,
{
    let f = |k: int| upper_indicator(a, n, k);
    let s = folded_prefix(b, n, m);
    if m > 0 {
        let before = (m - 1) as nat;
        lemma_upper_count_composes(a, b, n, before);
        lemma_folded_composes(a, b, n, m);
        assert(s.drop_last() =~= folded_prefix(b, n, before));
        assert(s.last() == folded(b, n, m));
        assert(sum_over(f, s) == sum_over(f, folded_prefix(b, n, before)) + f(s.last()));
    } else {
        assert(s.len() == 0);
    }
}

/// Up to parity, the upper remainders of the multiples of `a * b` are as many as
/// those of `a` and of `b` together.
pub proof fn lemma_upper_count_product(a: nat, b: nat, n: nat)
    requires
        n % 2 == 1,
        gcd(a, n) == 1,
        gcd(b, n) == 1,
    ensures
        upper_count(a * b, n, n / 2) % 2 == (upper_count(a, n, n / 2) + upper_count(b, n, n / 2))
            % 2,
{
    let f = |k: int| upper_indicator(a, n, k);
    lemma_upper_count_composes(a, b, n, n / 2);
    lemma_folded_permutation(b, n);
    lemma_permutation_sum(f, folded_prefix(b, n, n / 2), n / 2);
    lemma_upper_count_is_sum(a, n, n / 2);
}

/// Gauss's symbol is multiplicative in its first argument.
pub proof fn lemma_gauss_multiplicative(a: nat, b: nat, n: nat)
    requires
        n % 2 == 1,
    ensures
        gauss_symbol(a * b, n) == gauss_symbol(a, n) * gauss_symbol(b, n),
{
    if gcd(a * b, n) == 1 {
        lemma_coprime_factor(a, b, n);
        lemma_upper_count_product(a, b, n);
    } else if gcd(a, n) == 1 && gcd(b, n) == 1 {
        lemma_coprime_product(a, b, n);
    }
    assert(gauss_symbol(a, n) == 0 ==> gauss_symbol(a, n) * gauss_symbol(b, n) == 0)
        by (nonlinear_arith);
    assert(gauss_symbol(b, n) == 0 ==> gauss_symbol(a, n) * gauss_symbol(b, n) == 0)
        by (nonlinear_arith);
}

/// Gauss's symbol depends on its first argument modulo `n` only.
pub proof fn lemma_gauss_reduce(a: nat, n: nat)
    requires
        n > 0,
    ensures
        gauss_symbol(a % n, n) == gauss_symbol(a, n),
{
    lemma_gcd_remainder(a, n);
    lemma_upper_count_reduce(a, n, n / 2);
}

/// The multiples of `a` and of its remainder modulo `n` have the same upper
/// remainders.
proof fn lemma_upper_count_reduce(a: nat, n: nat, m: nat)
    requires
        n > 0,
    ensures
        upper_count(a % n, n, m) == upper_count(a, n, m),
    decreases m,
{
    if m > 0 {
        lemma_upper_count_reduce(a, n, (m - 1) as nat);
        lemma_mul_mod_noop_general(a as int, m as int, n as int);
    }
}

/// The multiples of two up to `n - 1` are their own remainders, so those above
/// `n/2` are easily counted.
proof fn lemma_upper_count_two(n: nat, m: nat)
    requires
        n % 2 == 1,
        m <= n / 2,
    ensures
        upper_count(2, n, m) == if m <= n / 4 {
            0
        } else {
            m - n / 4
        },
    decreases m,
{
    if m > 0 {
        lemma_upper_count_two(n, (m - 1) as nat);
        lemma_small_mod(2 * m, n);
    }
}

/// Gauss's symbol of two: minus one for `n = 3, 5 (mod 8)`, one for
/// `n = 1, 7 (mod 8)`.
pub proof fn lemma_gauss_two(n: nat)
    requires
        n % 2 == 1,
    ensures
        gauss_symbol(2, n) == if n % 8 == 3 || n % 8 == 5 {
            -1int
        } else {
            1int
        },
{
    lemma_two_coprime_to_odd(n);
    lemma_upper_count_two(n, n / 2);
}

/// Modulo `n`, the product of the remainders of the first `m` multiples of `a` is
/// the product of their distances, negated once for each upper remainder.
proof fn lemma_residue_product(a: nat, n: nat, m: nat)
    requires
        n % 2 == 1,
        gcd(a, n) == 1,
        m <= n / 2,
    ensures
        (seq_product(multiples(a, n, m)) - flip(
            upper_count(a, n, m) % 2 == 1,
            seq_product(folded_prefix(a, n, m)),
        )) % (n as int) == 0,
    decreases m,
{
    let rs = multiples(a, n, m);
    let fs = folded_prefix(a, n, m);
    let modulus = n as int;
    if m == 0 {
        assert(rs.len() == 0 && fs.len() == 0);
        lemma_small_mod(0, n);
    } else {
        let before = (m - 1) as nat;
        lemma_residue_product(a, n, before);
        lemma_residue_nonzero(a, n, m);
        assert(rs.drop_last() =~= multiples(a, n, before));
        assert(fs.drop_last() =~= folded_prefix(a, n, before));
        let r = seq_product(multiples(a, n, before));
        let f = seq_product(folded_prefix(a, n, before));
        let odd = upper_count(a, n, before) % 2 == 1;
        let d = r - flip(odd, f);
        let x = folded(a, n, m) as int;
        assert(rs.last() == residue(a, n, m));
        assert(fs.last() == x);
        lemma_mul_mod_noop_general(d, x, modulus);
        assert((d * x) % modulus == 0) by {
            assert(0 * x == 0);
            lemma_small_mod(0, n);
        }
        if is_upper(a, n, m) {
            lemma_mod_multiples_basic(r, modulus);
            lemma_sub_mod_noop(r * modulus, d * x, modulus);
            assert(r * (modulus - x) - flip(!odd, f * x) == r * modulus - d * x)
                by (nonlinear_arith)
                requires
                    d == r - flip(odd, f),
                    flip(odd, f) == if odd {
                        -f
                    } else {
                        f
                    },
                    flip(!odd, f * x) == if odd {
                        f * x
                    } else {
                        -(f * x)
                    },
            ;
        } else {
            assert(r * x - flip(odd, f * x) == d * x) by (nonlinear_arith)
                requires
                    d == r - flip(odd, f),
                    flip(odd, f) == if odd {
                        -f
                    } else {
                        f
                    },
                    flip(odd, f * x) == if odd {
                        -(f * x)
                    } else {
                        f * x
                    },
            ;
        }
    }
}

/// Gauss's lemma: modulo an odd prime `p` that does not divide `a`, the power
/// `a^((p-1)/2)` is congruent to Gauss's symbol of `a` and `p`.
pub proof fn lemma_gauss(p: nat, a: nat)
    requires
        is_prime(p),
        p > 2,
        !divides(p, a),
    ensures
        gauss_symbol(a, p) == 1 ==> pow(a as int, p / 2) % (p as int) == 1,
        gauss_symbol(a, p) == -1 ==> pow(a as int, p / 2) % (p as int) == p - 1,
        gauss_symbol(a, p) != 0,
{
    let h = p / 2;
    let modulus = p as int;
    assert(p % 2 == 1) by {
        if p % 2 == 0 {
            assert(p % 2 != 0);
        }
    }
    lemma_prime_coprime(p, a);
    lemma_gcd_symmetric(p, a);
    let r = seq_product(multiples(a, p, h));
    let f = factorial(h);
    let x = pow(a as int, h);
    let negative = upper_count(a, p, h) % 2 == 1;
    lemma_folded_permutation(a, p);
    lemma_permutation_product(folded_prefix(a, p, h), h);
    lemma_residue_product(a, p, h);
    lemma_multiples_product(a, p, h);
    lemma_factorial_coprime(p, h);
    assert(a >= 1) by {
        if a == 0 {
            lemma_small_mod(0, p);
        }
    }
    lemma_pow_positive(a as int, h);
    lemma_mod_equivalence(r, x * f, modulus);
    lemma_sub_mod_noop(r - flip(negative, f as int), r - x * f, modulus);
    lemma_small_mod(0, p);
    lemma_small_mod(1, p);
    assert((x * f - flip(negative, f as int)) % modulus == 0);
    if negative {
        let y = (x + 1) as nat;
        assert(x * f + f == y * f) by (nonlinear_arith)
            requires
                y == x + 1,
        ;
        lemma_euclid(p, y, f);
        lemma_add_mod_noop(x, 1, modulus);
        lemma_mod_bound(x, modulus);
        if x % modulus + 1 < modulus {
            lemma_small_mod((x % modulus + 1) as nat, p);
        }
    } else {
        let y = (x - 1) as nat;
        assert(x * f - f == y * f) by (nonlinear_arith)
            requires
                y == x - 1,
        ;
        lemma_euclid(p, y, f);
        lemma_mod_equivalence(x, 1, modulus);
    }
}

} // verus!
