//! Quadratic reciprocity, and with it the meaning of the Jacobi symbol.
//!
//! Eisenstein's argument turns the count of Gauss's lemma, for an odd `a`, into a
//! sum of quotients `(a k) / n`, and counts lattice points to relate the sum for
//! `(a, n)` to the sum for `(n, a)`.  That gives the reciprocity law for Gauss's
//! symbol.  The Jacobi symbol is defined by the laws that the symbol of Gauss obeys,
//! so the two agree, and modulo an odd prime both are congruent to
//! `a^((p-1)/2)`: Euler's criterion.  The symbol is multiplicative in both
//! arguments, so it is the product of these quadratic characters over the prime
//! factors of the modulus.
use crate::divisibility::{
    divides, gcd, is_prime, lemma_coprime_cancel, lemma_coprime_factor, lemma_coprime_product,
    lemma_divisor_bound, lemma_gcd_symmetric, lemma_gcd_zero,
};
use crate::gauss::{
    flip, folded, folded_prefix, gauss_symbol, lemma_folded_permutation, lemma_gauss,
    lemma_gauss_multiplicative, lemma_gauss_reduce, lemma_gauss_two, lemma_residue_nonzero,
    residue, upper_count,
};
use crate::permutation::{lemma_permutation_sum, sum_over, sum_to};
use crate::solovaystrassen::{
    euler_witness, jacobi, lemma_jacobi_zero, reciprocity_flips, two_flips,
};
use vstd::arithmetic::div_mod::*;
use vstd::prelude::*;

verus! {

/// The sum `1 + 2 + .. + m`.
pub open spec fn triangle(m: nat) -> nat
    decreases m,
{
    if m == 0 {
        0
    } else {
        triangle((m - 1) as nat) + m
    }
}

/// The sum of the quotients `(a k) / n` for `k` from one to `m`.
pub open spec fn floor_sum(a: nat, n: nat, m: nat) -> nat
    decreases m,
{
    if m == 0 {
        0
    } else {
        floor_sum(a, n, (m - 1) as nat) + (a * m) / n
    }
}

/// The sum of the remainders `(a k) % n` for `k` from one to `m`.
pub open spec fn residue_sum(a: nat, n: nat, m: nat) -> nat
    decreases m,
{
    if m == 0 {
        0
    } else {
        residue_sum(a, n, (m - 1) as nat) + residue(a, n, m)
    }
}

/// The smaller of two numbers.
pub open spec fn smaller(x: nat, y: nat) -> nat {
    if x <= y {
        x
    } else {
        y
    }
}

/// The sum of the quotients `(a k) / n` for `k` from one to `m`, each capped at
/// `cap`: the number of lattice points `(k, l)` with `1 <= k <= m`,
/// `1 <= l <= cap` and `n l <= a k`.
pub open spec fn capped_floor_sum(a: nat, n: nat, m: nat, cap: nat) -> nat
    decreases m,
{
    if m == 0 {
        0
    } else {
        capped_floor_sum(a, n, (m - 1) as nat, cap) + smaller(cap, (a * m) / n)
    }
}

/// Multiplying by an odd number keeps the parity.
proof fn lemma_odd_multiple(a: nat, t: nat)
    requires
        a % 2 == 1,
    ensures
        (a * t) % 2 == t % 2,
{
    let h = a / 2;
    assert(a * t == 2 * (h * t) + t) by (nonlinear_arith)
        requires
            a == 2 * h + 1,
    ;
}

/// A product is odd exactly when both factors are.
proof fn lemma_product_parity(x: nat, y: nat)
    ensures
        (x * y) % 2 == 1 <==> (x % 2 == 1 && y % 2 == 1),
{
    if x % 2 == 1 {
        lemma_odd_multiple(x, y);
    } else {
        let h = x / 2;
        assert(x * y == 2 * (h * y)) by (nonlinear_arith)
            requires
                x == 2 * h,
        ;
    }
}

/// The first `m` multiples of `a` add up to `n` times their quotients plus their
/// remainders.
proof fn lemma_multiples_sum(a: nat, n: nat, m: nat)
    requires
        n > 0,
    ensures
        a * triangle(m) == n * floor_sum(a, n, m) + residue_sum(a, n, m),
    decreases m,
{
    if m == 0 {
        assert(a * 0 == 0) by (nonlinear_arith);
        assert(n * 0 == 0) by (nonlinear_arith);
    } else {
        let before = (m - 1) as nat;
        lemma_multiples_sum(a, n, before);
        lemma_fundamental_div_mod((a * m) as int, n as int);
        let t = triangle(before);
        let f = floor_sum(a, n, before);
        let q = (a * m) / n;
        assert(a * (t + m) == a * t + a * m) by (nonlinear_arith);
        assert(n * (f + q) == n * f + n * q) by (nonlinear_arith);
    }
}

/// The sum of the numbers from one to `m`, as a sum of the identity function.
proof fn lemma_triangle_is_sum(m: nat)
    ensures
        triangle(m) == sum_to(|k: int| k, m),
    decreases m,
{
    if m > 0 {
        lemma_triangle_is_sum((m - 1) as nat);
    }
}

/// Up to parity, the remainders of the first `m` multiples add up to their
/// distances plus one for each upper remainder.
proof fn lemma_residue_sum_parity(a: nat, n: nat, m: nat)
    requires
        n % 2 == 1,
        gcd(a, n) == 1,
        m <= n / 2,
    ensures
        (residue_sum(a, n, m) - sum_over(|k: int| k, folded_prefix(a, n, m)) - upper_count(
            a,
            n,
            m,
        )) % 2 == 0,
    decreases m,
{
    let s = folded_prefix(a, n, m);
    if m == 0 {
        assert(s.len() == 0);
    } else {
        let before = (m - 1) as nat;
        lemma_residue_sum_parity(a, n, before);
        lemma_residue_nonzero(a, n, m);
        assert(s.drop_last() =~= folded_prefix(a, n, before));
        assert(s.last() == folded(a, n, m));
    }
}

/// Eisenstein's lemma: for odd coprime `a` and `n`, the number of upper remainders
/// among the multiples `a, 2a, .., ((n-1)/2) a` has the parity of the sum of their
/// quotients by `n`.
pub proof fn lemma_eisenstein(a: nat, n: nat)
    requires
        a % 2 == 1,
        n % 2 == 1,
        gcd(a, n) == 1,
    ensures
        upper_count(a, n, n / 2) % 2 == floor_sum(a, n, n / 2) % 2,
{
    let h = n / 2;
    lemma_multiples_sum(a, n, h);
    lemma_residue_sum_parity(a, n, h);
    lemma_folded_permutation(a, n);
    lemma_permutation_sum(|k: int| k, folded_prefix(a, n, h), h);
    lemma_triangle_is_sum(h);
    lemma_odd_multiple(a, triangle(h));
    lemma_odd_multiple(n, floor_sum(a, n, h));
}

/// For coprime `p` and `q` and `0 < x < p`, the quotient `(p l) / q` reaches `x`
/// exactly when `l` exceeds the quotient `(q x) / p`.
proof fn lemma_quotients_cross(p: nat, q: nat, x: nat, l: nat)
    requires
        p > 0,
        q > 0,
        gcd(q, p) == 1,
        0 < x < p,
    ensures
        (p * l) / q >= x <==> l > (q * x) / p,
{
    let v = (p * l) / q;
    let t = (q * x) / p;
    lemma_fundamental_div_mod((p * l) as int, q as int);
    lemma_fundamental_div_mod((q * x) as int, p as int);
    lemma_mod_bound((p * l) as int, q as int);
    lemma_mod_bound((q * x) as int, p as int);
    if p * l == q * x {
        lemma_mod_multiples_basic(l as int, p as int);
        assert(p * l == l * p) by (nonlinear_arith);
        lemma_coprime_cancel(p, q, x);
        lemma_divisor_bound(p, x);
    }
    assert(v >= x <==> p * l >= q * x) by (nonlinear_arith)
        requires
            q > 0,
            p * l == q * v + (p * l) % q,
            0 <= (p * l) % q < q,
    ;
    assert(l > t <==> p * l > q * x) by (nonlinear_arith)
        requires
            p > 0,
            q * x == p * t + (q * x) % p,
            0 <= (q * x) % p < p,
            p * l != q * x,
    ;
}

/// Raising the cap from `x - 1` to `x` adds one for each `l` beyond the quotient
/// `(q x) / p`.
proof fn lemma_cap_step(p: nat, q: nat, x: nat, y: nat)
    requires
        p > 0,
        q > 0,
        gcd(q, p) == 1,
        0 < x < p,
    ensures
        capped_floor_sum(p, q, y, x) == capped_floor_sum(p, q, y, (x - 1) as nat) + y - smaller(
            y,
            (q * x) / p,
        ),
    decreases y,
{
    if y > 0 {
        lemma_cap_step(p, q, x, (y - 1) as nat);
        lemma_quotients_cross(p, q, x, y);
    }
}

/// With the cap zero, the sum is zero.
proof fn lemma_cap_zero(a: nat, n: nat, m: nat)
    requires
        n > 0,
    ensures
        capped_floor_sum(a, n, m, 0) == 0,
    decreases m,
{
    if m > 0 {
        lemma_cap_zero(a, n, (m - 1) as nat);
        lemma_div_pos_is_pos((a * m) as int, n as int);
    }
}

/// The lattice points of the rectangle `[1, x] x [1, y]` lie on one side or the
/// other of the line `p l = q k`, none on it.
proof fn lemma_lattice(p: nat, q: nat, x: nat, y: nat)
    requires
        p > 0,
        q > 0,
        gcd(q, p) == 1,
        x < p,
    ensures
        capped_floor_sum(q, p, x, y) + capped_floor_sum(p, q, y, x) == x * y,
    decreases x,
{
    if x == 0 {
        lemma_cap_zero(p, q, y);
        assert(x * y == 0) by (nonlinear_arith)
            requires
                x == 0,
        ;
    } else {
        let before = (x - 1) as nat;
        lemma_lattice(p, q, before, y);
        lemma_cap_step(p, q, x, y);
        assert(x * y == before * y + y) by (nonlinear_arith)
            requires
                before == x - 1,
        ;
    }
}

/// For odd `p` and `q`, the quotients `(q k) / p` with `k <= p/2` stay below the
/// cap `q/2`.
proof fn lemma_cap_is_idle(q: nat, p: nat, m: nat)
    requires
        p % 2 == 1,
        q % 2 == 1,
        m <= p / 2,
    ensures
        capped_floor_sum(q, p, m, q / 2) == floor_sum(q, p, m),
    decreases m,
{
    if m > 0 {
        lemma_cap_is_idle(q, p, (m - 1) as nat);
        let f = (q * m) / p;
        lemma_fundamental_div_mod((q * m) as int, p as int);
        lemma_mod_bound((q * m) as int, p as int);
        assert(2 * f < q) by (nonlinear_arith)
            requires
                q * m == p * f + (q * m) % p,
                0 <= (q * m) % p,
                2 * m < p,
                q > 0,
                p > 0,
        ;
    }
}

/// The sums of quotients for `(q, p)` and for `(p, q)` add up to
/// `((p-1)/2) * ((q-1)/2)`, for odd coprime `p` and `q`.
pub proof fn lemma_floor_sums(p: nat, q: nat)
    requires
        p % 2 == 1,
        q % 2 == 1,
        gcd(q, p) == 1,
    ensures
        floor_sum(q, p, p / 2) + floor_sum(p, q, q / 2) == (p / 2) * (q / 2),
{
    lemma_lattice(p, q, p / 2, q / 2);
    lemma_cap_is_idle(q, p, p / 2);
    lemma_cap_is_idle(p, q, q / 2);
}

/// The law of quadratic reciprocity for Gauss's symbol: for odd coprime `m` and
/// `n`, the symbols of `(m, n)` and `(n, m)` are equal, unless both numbers leave
/// the remainder three modulo four, when they are opposite.
pub proof fn lemma_gauss_reciprocity(m: nat, n: nat)
    requires
        m % 2 == 1,
        n % 2 == 1,
        gcd(m, n) == 1,
    ensures
        gauss_symbol(m, n) == flip(reciprocity_flips(m, n), gauss_symbol(n, m)),
{
    lemma_gcd_symmetric(m, n);
    lemma_eisenstein(m, n);
    lemma_eisenstein(n, m);
    lemma_floor_sums(n, m);
    lemma_product_parity(n / 2, m / 2);
}

/// The Jacobi symbol is Gauss's symbol.
pub proof fn lemma_jacobi_is_gauss(a: nat, n: nat)
    requires
        n % 2 == 1,
    ensures
        jacobi(a, n) == gauss_symbol(a, n),
    decreases n, a,
{
    let r = a % n;
    lemma_gauss_reduce(a, n);
    lemma_mod_decreases(a, n);
    lemma_mod_bound(a as int, n as int);
    if r == 0 {
        lemma_gcd_zero(n);
        assert(upper_count(0, 1, 0) == 0);
    } else if r % 2 == 0 {
        let c = r / 2;
        lemma_jacobi_is_gauss(c, n);
        lemma_gauss_multiplicative(2, c, n);
        lemma_gauss_two(n);
        assert(2 * c == r);
        assert(gauss_symbol(2, n) * gauss_symbol(c, n) == flip(two_flips(n), gauss_symbol(c, n)))
            by (nonlinear_arith)
            requires
                gauss_symbol(2, n) == if two_flips(n) {
                    -1int
                } else {
                    1int
                },
                flip(two_flips(n), gauss_symbol(c, n)) == if two_flips(n) {
                    -gauss_symbol(c, n)
                } else {
                    gauss_symbol(c, n)
                },
        ;
    } else {
        lemma_jacobi_is_gauss(n, r);
        lemma_gcd_symmetric(r, n);
        if gcd(r, n) == 1 {
            lemma_gauss_reciprocity(r, n);
        }
    }
}

/// Euler's criterion: an odd prime has no Euler witness among the bases that it
/// does not divide.  For such a base `a`, the power `a^((p-1)/2)` is congruent to
/// the Jacobi symbol of `a` and `p`, which is not zero.
pub proof fn lemma_prime_has_no_euler_witness(p: nat, a: nat)
    requires
        is_prime(p),
        p > 2,
        !divides(p, a),
    ensures
        !euler_witness(p, a),
        jacobi(a, p) == 1 || jacobi(a, p) == -1,
{
    assert(p % 2 == 1) by {
        if p % 2 == 0 {
            assert(p % 2 != 0);
        }
    }
    lemma_jacobi_is_gauss(a, p);
    lemma_gauss(p, a);
}

/// The Jacobi symbol is multiplicative in its first argument.
pub proof fn lemma_jacobi_multiplicative(a: nat, b: nat, n: nat)
    requires
        n % 2 == 1,
    ensures
        jacobi(a * b, n) == jacobi(a, n) * jacobi(b, n),
{
    lemma_jacobi_is_gauss(a, n);
    lemma_jacobi_is_gauss(b, n);
    lemma_jacobi_is_gauss(a * b, n);
    lemma_gauss_multiplicative(a, b, n);
}

/// The law of quadratic reciprocity: for odd coprime `m` and `n`, the symbols
/// `(m/n)` and `(n/m)` are equal, unless both numbers leave the remainder three
/// modulo four, when they are opposite.
pub proof fn lemma_jacobi_reciprocity(m: nat, n: nat)
    requires
        m % 2 == 1,
        n % 2 == 1,
        gcd(m, n) == 1,
    ensures
        jacobi(m, n) == flip(reciprocity_flips(m, n), jacobi(n, m)),
{
    lemma_jacobi_is_gauss(m, n);
    lemma_jacobi_is_gauss(n, m);
    lemma_gauss_reciprocity(m, n);
}

/// The symbol of two is multiplicative in the modulus: `(2/mn)` is `-1` exactly
/// when one of `(2/m)` and `(2/n)` is, but not both.
proof fn lemma_two_flips_product(m: nat, n: nat)
    requires
        m % 2 == 1,
        n % 2 == 1,
    ensures
        two_flips(m * n) == (two_flips(m) != two_flips(n)),
{
    let x = m % 8;
    let y = n % 8;
    lemma_mul_mod_noop(m as int, n as int, 8);
    assert(x * y == if x == 1 {
        y
    } else if x == 3 {
        3 * y
    } else if x == 5 {
        5 * y
    } else {
        7 * y
    }) by (nonlinear_arith)
        requires
            x == 1 || x == 3 || x == 5 || x == 7,
    ;
}

/// The sign of the reciprocity law is multiplicative in its second argument.
proof fn lemma_reciprocity_flips_product(b: nat, m: nat, n: nat)
    requires
        m % 2 == 1,
        n % 2 == 1,
    ensures
        reciprocity_flips(b, m * n) == (reciprocity_flips(b, m) != reciprocity_flips(b, n)),
        (m * n) % 2 == 1,
{
    let x = m % 4;
    let y = n % 4;
    lemma_mul_mod_noop(m as int, n as int, 4);
    assert(x * y == if x == 1 {
        y
    } else {
        3 * y
    }) by (nonlinear_arith)
        requires
            x == 1 || x == 3,
    ;
}

/// The Jacobi symbol of an odd numerator coprime to `m` and `n` is multiplicative in
/// the modulus.
proof fn lemma_jacobi_odd_multiplicative_modulus(b: nat, m: nat, n: nat)
    requires
        b % 2 == 1,
        m % 2 == 1,
        n % 2 == 1,
        gcd(b, m) == 1,
        gcd(b, n) == 1,
    ensures
        jacobi(b, m * n) == jacobi(b, m) * jacobi(b, n),
{
    let mn = m * n;
    lemma_reciprocity_flips_product(b, m, n);
    lemma_gcd_symmetric(b, m);
    lemma_gcd_symmetric(b, n);
    lemma_coprime_product(m, n, b);
    lemma_gcd_symmetric(mn, b);
    lemma_jacobi_reciprocity(b, mn);
    lemma_jacobi_reciprocity(b, m);
    lemma_jacobi_reciprocity(b, n);
    lemma_jacobi_multiplicative(m, n, b);
    let x = jacobi(m, b);
    let y = jacobi(n, b);
    assert(flip(reciprocity_flips(b, mn), x * y) == flip(reciprocity_flips(b, m), x) * flip(
        reciprocity_flips(b, n),
        y,
    )) by (nonlinear_arith)
        requires
            reciprocity_flips(b, mn) == (reciprocity_flips(b, m) != reciprocity_flips(b, n)),
            flip(reciprocity_flips(b, mn), x * y) == if reciprocity_flips(b, mn) {
                -(x * y)
            } else {
                x * y
            },
            flip(reciprocity_flips(b, m), x) == if reciprocity_flips(b, m) {
                -x
            } else {
                x
            },
            flip(reciprocity_flips(b, n), y) == if reciprocity_flips(b, n) {
                -y
            } else {
                y
            },
    ;
}

/// The Jacobi symbol is multiplicative in the modulus: `(a/mn) = (a/m) (a/n)` for
/// odd `m` and `n`.  With Euler's criterion this makes it the product, over the
/// prime factors of the modulus, of the quadratic characters of `a`.
pub proof fn lemma_jacobi_multiplicative_modulus(a: nat, m: nat, n: nat)
    requires
        m % 2 == 1,
        n % 2 == 1,
    ensures
        jacobi(a, m * n) == jacobi(a, m) * jacobi(a, n),
    decreases a,
{
    let mn = m * n;
    lemma_reciprocity_flips_product(a, m, n);
    lemma_jacobi_zero(a, m);
    lemma_jacobi_zero(a, n);
    lemma_jacobi_zero(a, mn);
    lemma_gcd_symmetric(a, m);
    lemma_gcd_symmetric(a, n);
    lemma_gcd_symmetric(a, mn);
    if gcd(a, m) != 1 || gcd(a, n) != 1 {
        if gcd(mn, a) == 1 {
            lemma_coprime_factor(m, n, a);
        }
        assert(jacobi(a, m) * jacobi(a, n) == 0) by (nonlinear_arith)
            requires
                jacobi(a, m) == 0 || jacobi(a, n) == 0,
        ;
    } else if a % 2 == 1 {
        lemma_jacobi_odd_multiplicative_modulus(a, m, n);
    } else if a == 0 {
        lemma_gcd_zero(m);
        lemma_gcd_zero(n);
        assert(mn == 1) by (nonlinear_arith)
            requires
                mn == m * n,
                m == 1,
                n == 1,
        ;
        lemma_jacobi_is_gauss(0, 1);
        lemma_gcd_zero(1);
        assert(upper_count(0, 1, 0) == 0);
        assert(jacobi(0, 1) == 1);
    } else {
        let c = a / 2;
        assert(a == 2 * c);
        lemma_jacobi_multiplicative_modulus(c, m, n);
        lemma_jacobi_multiplicative(2, c, m);
        lemma_jacobi_multiplicative(2, c, n);
        lemma_jacobi_multiplicative(2, c, mn);
        lemma_jacobi_is_gauss(2, m);
        lemma_jacobi_is_gauss(2, n);
        lemma_jacobi_is_gauss(2, mn);
        lemma_gauss_two(m);
        lemma_gauss_two(n);
        lemma_gauss_two(mn);
        lemma_two_flips_product(m, n);
        let x = jacobi(c, m);
        let y = jacobi(c, n);
        let s = jacobi(2, m);
        let t = jacobi(2, n);
        assert((s * t) * (x * y) == (s * x) * (t * y)) by (nonlinear_arith);
        assert(jacobi(2, mn) == s * t) by (nonlinear_arith)
            requires
                s == 1 || s == -1,
                t == 1 || t == -1,
                jacobi(2, mn) == if (s == -1) != (t == -1) {
                    -1int
                } else {
                    1int
                },
        ;
    }
}

} // verus!
