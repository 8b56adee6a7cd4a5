//! Divisibility, greatest common divisors and primes over the natural numbers.
//!
//! These are the mathematical notions that the contracts of the testers speak of,
//! together with the lemmas that connect them: the characterisation of the greatest
//! common divisor, the identities that the binary algorithm relies on, and Euclid's
//! lemma.
use vstd::arithmetic::div_mod::*;
use vstd::arithmetic::power2::*;
use vstd::prelude::*;

verus! {

/// `d` divides `n`.  Zero divides only zero.
pub open spec fn divides(d: nat, n: nat) -> bool {
    if d == 0 {
        n == 0
    } else {
        n % d == 0
    }
}

/// The greatest common divisor, by Euclid's recursion.  `gcd(0, 0)` is `0`.
pub open spec fn gcd(a: nat, b: nat) -> nat
    decreases b,
{
    if b == 0 {
        a
    } else {
        gcd(b, a % b)
    }
}

/// `n` is a prime number.
pub open spec fn is_prime(n: nat) -> bool {
    n >= 2 && forall|d: nat| 1 < d < n ==> #[trigger] (n % d) != 0
}

/// The exponent of the largest power of two that divides `m`, and zero for zero.
pub open spec fn twos(m: nat) -> nat
    decreases m,
{
    if m == 0 || m % 2 == 1 {
        0
    } else {
        1 + twos(m / 2)
    }
}

/// What is left of `m` when its factors of two are taken out.
pub open spec fn odd_part(m: nat) -> nat {
    m / pow2(twos(m))
}

/// Every multiple of `d` is divisible by `d`.
pub proof fn lemma_divides_multiple(d: nat, k: nat)
    ensures
        divides(d, d * k),
        divides(d, k * d),
{
    assert(d * k == k * d) by (nonlinear_arith);
    if d == 0 {
        assert(d * k == 0) by (nonlinear_arith)
            requires
                d == 0,
        ;
    } else {
        lemma_mod_multiples_basic(k as int, d as int);
    }
}

/// A number that `d` divides is `d` times the quotient.
pub proof fn lemma_divides_quotient(d: nat, n: nat)
    requires
        divides(d, n),
        d > 0,
    ensures
        n == d * (n / d),
{
    lemma_fundamental_div_mod(n as int, d as int);
}

/// Every number divides itself and zero, and one divides everything.
pub proof fn lemma_divides_basics(n: nat)
    ensures
        divides(n, n),
        divides(n, 0),
        divides(1, n),
{
    if n > 0 {
        lemma_mod_self_0(n as int);
        lemma_small_mod(0, n);
    }
}

/// A divisor of two numbers divides their sum.
pub proof fn lemma_divides_sum(d: nat, a: nat, b: nat)
    requires
        divides(d, a),
        divides(d, b),
    ensures
        divides(d, a + b),
{
    if d > 0 {
        lemma_add_mod_noop(a as int, b as int, d as int);
        lemma_small_mod(0, d);
    }
}

/// A divisor of two numbers divides their difference.
pub proof fn lemma_divides_difference(d: nat, a: nat, b: nat)
    requires
        divides(d, a),
        divides(d, b),
        a >= b,
    ensures
        divides(d, (a - b) as nat),
{
    if d > 0 {
        lemma_sub_mod_noop(a as int, b as int, d as int);
        lemma_small_mod(0, d);
    }
}

/// A divisor of `n` divides every multiple of `n`.
pub proof fn lemma_divides_product(d: nat, n: nat, k: nat)
    requires
        divides(d, n),
    ensures
        divides(d, n * k),
        divides(d, k * n),
{
    assert(n * k == k * n) by (nonlinear_arith);
    if d == 0 {
        assert(n * k == 0) by (nonlinear_arith)
            requires
                n == 0,
        ;
    } else {
        lemma_divides_quotient(d, n);
        let q = n / d;
        assert(n * k == d * (q * k)) by (nonlinear_arith)
            requires
                n == d * q,
        ;
        lemma_divides_multiple(d, q * k);
    }
}

/// Divisibility is transitive.
pub proof fn lemma_divides_transitive(a: nat, b: nat, c: nat)
    requires
        divides(a, b),
        divides(b, c),
    ensures
        divides(a, c),
{
    if b == 0 {
        lemma_divides_basics(a);
    } else {
        lemma_divides_quotient(b, c);
        lemma_divides_product(a, b, c / b);
    }
}

/// A divisor of a positive number is positive and not larger than it.
pub proof fn lemma_divisor_bound(d: nat, n: nat)
    requires
        divides(d, n),
        n > 0,
    ensures
        1 <= d <= n,
{
    lemma_divides_quotient(d, n);
    let q = n / d;
    assert(d <= n) by (nonlinear_arith)
        requires
            n == d * q,
            n > 0,
    ;
}

/// Two numbers that divide each other are equal.
pub proof fn lemma_divides_antisymmetric(a: nat, b: nat)
    requires
        divides(a, b),
        divides(b, a),
    ensures
        a == b,
{
    if a > 0 && b > 0 {
        lemma_divisor_bound(a, b);
        lemma_divisor_bound(b, a);
    }
}

/// For a positive `b`, the common divisors of `a` and `b` are those of `b` and
/// `a % b`.
pub proof fn lemma_divides_remainder(d: nat, a: nat, b: nat)
    requires
        b > 0,
        divides(d, b),
    ensures
        divides(d, a) <==> divides(d, a % b),
{
    lemma_fundamental_div_mod(a as int, b as int);
    let q = a / b;
    let r = a % b;
    lemma_divides_product(d, b, q);
    assert(a == b * q + r);
    if divides(d, a) {
        lemma_divides_difference(d, a, b * q);
    }
    if divides(d, r) {
        lemma_divides_sum(d, b * q, r);
    }
}

/// The greatest common divisor divides both numbers.
pub proof fn lemma_gcd_divides(a: nat, b: nat)
    ensures
        divides(gcd(a, b), a),
        divides(gcd(a, b), b),
    decreases b,
{
    if b == 0 {
        lemma_divides_basics(a);
    } else {
        lemma_gcd_divides(b, a % b);
        lemma_divides_remainder(gcd(a, b), a, b);
    }
}

/// Every common divisor divides the greatest common divisor.
pub proof fn lemma_gcd_greatest(a: nat, b: nat, d: nat)
    requires
        divides(d, a),
        divides(d, b),
    ensures
        divides(d, gcd(a, b)),
    decreases b,
{
    if b != 0 {
        lemma_divides_remainder(d, a, b);
        lemma_gcd_greatest(b, a % b, d);
    }
}

/// The greatest common divisor is determined by the set of common divisors: two
/// pairs with the same common divisors have the same greatest common divisor.
pub proof fn lemma_gcd_by_common_divisors(a: nat, b: nat, x: nat, y: nat)
    requires
        forall|d: nat| (divides(d, a) && divides(d, b)) <==> (divides(d, x) && divides(d, y)),
    ensures
        gcd(a, b) == gcd(x, y),
{
    let g = gcd(a, b);
    let h = gcd(x, y);
    lemma_gcd_divides(a, b);
    lemma_gcd_divides(x, y);
    lemma_gcd_greatest(x, y, g);
    lemma_gcd_greatest(a, b, h);
    lemma_divides_antisymmetric(g, h);
}

/// The greatest common divisor with zero is the other number.
pub proof fn lemma_gcd_zero(a: nat)
    ensures
        gcd(a, 0) == a,
        gcd(0, a) == a,
{
    if a > 0 {
        lemma_small_mod(0, a);
        assert(gcd(0, a) == gcd(a, 0));
    }
}

/// The greatest common divisor does not depend on the order of its arguments.
pub proof fn lemma_gcd_symmetric(a: nat, b: nat)
    ensures
        gcd(a, b) == gcd(b, a),
{
    lemma_gcd_by_common_divisors(a, b, b, a);
}

/// The greatest common divisor of a number with itself is that number.
pub proof fn lemma_gcd_self(a: nat)
    ensures
        gcd(a, a) == a,
{
    if a > 0 {
        lemma_mod_self_0(a as int);
        assert(gcd(a, a) == gcd(a, 0));
    }
}

/// The greatest common divisor of two numbers, one of which is positive, is
/// positive.
pub proof fn lemma_gcd_positive(a: nat, b: nat)
    requires
        a > 0 || b > 0,
    ensures
        gcd(a, b) > 0,
{
    lemma_gcd_divides(a, b);
}

/// Subtracting the smaller number from the larger one keeps the greatest common
/// divisor.
pub proof fn lemma_gcd_difference(a: nat, b: nat)
    requires
        a >= b,
    ensures
        gcd((a - b) as nat, b) == gcd(a, b),
{
    let c = (a - b) as nat;
    assert forall|d: nat|
        (divides(d, c) && divides(d, b)) <==> (divides(d, a) && divides(d, b)) by {
        if divides(d, c) && divides(d, b) {
            lemma_divides_sum(d, c, b);
        }
        if divides(d, a) && divides(d, b) {
            lemma_divides_difference(d, a, b);
        }
    }
    lemma_gcd_by_common_divisors(c, b, a, b);
}

/// Reducing the first number modulo the second keeps the greatest common divisor.
pub proof fn lemma_gcd_remainder(a: nat, b: nat)
    requires
        b > 0,
    ensures
        gcd(a % b, b) == gcd(a, b),
{
    lemma_gcd_symmetric(a % b, b);
}

/// A common factor can be taken out of the greatest common divisor.
pub proof fn lemma_gcd_scale(c: nat, a: nat, b: nat)
    ensures
        gcd(c * a, c * b) == c * gcd(a, b),
    decreases b,
{
    if c == 0 {
        assert(c * a == 0 && c * b == 0 && c * gcd(a, b) == 0) by (nonlinear_arith)
            requires
                c == 0,
        ;
    } else if b == 0 {
        assert(c * b == 0) by (nonlinear_arith)
            requires
                b == 0,
        ;
    } else {
        lemma_truncate_middle(a as int, c as int, b as int);
        lemma_gcd_scale(c, b, a % b);
    }
}

/// A number coprime to `a` that divides `a * c` divides `c`.
pub proof fn lemma_coprime_cancel(n: nat, a: nat, c: nat)
    requires
        gcd(a, n) == 1,
        divides(n, a * c),
    ensures
        divides(n, c),
{
    lemma_gcd_scale(c, a, n);
    assert(c * a == a * c) by (nonlinear_arith);
    assert(c * 1 == c);
    lemma_divides_multiple(n, c);
    lemma_gcd_greatest(c * a, c * n, n);
}

/// A number coprime to a product is coprime to each factor.
pub proof fn lemma_coprime_factor(a: nat, b: nat, n: nat)
    requires
        gcd(a * b, n) == 1,
    ensures
        gcd(a, n) == 1,
        gcd(b, n) == 1,
{
    lemma_gcd_divides(a, n);
    lemma_gcd_divides(b, n);
    lemma_divides_product(gcd(a, n), a, b);
    lemma_divides_product(gcd(b, n), b, a);
    lemma_gcd_greatest(a * b, n, gcd(a, n));
    lemma_gcd_greatest(a * b, n, gcd(b, n));
    lemma_divisor_bound(gcd(a, n), 1);
    lemma_divisor_bound(gcd(b, n), 1);
}

/// A number coprime to two numbers is coprime to their product.
pub proof fn lemma_coprime_product(a: nat, b: nat, n: nat)
    requires
        gcd(a, n) == 1,
        gcd(b, n) == 1,
    ensures
        gcd(a * b, n) == 1,
{
    let g = gcd(a * b, n);
    lemma_gcd_divides(a * b, n);
    lemma_gcd_divides(a, g);
    lemma_divides_transitive(gcd(a, g), g, n);
    lemma_gcd_greatest(a, n, gcd(a, g));
    lemma_divisor_bound(gcd(a, g), 1);
    lemma_coprime_cancel(g, a, b);
    lemma_gcd_greatest(b, n, g);
    lemma_divisor_bound(g, 1);
}

/// A divisor of an odd number is odd.
pub proof fn lemma_divisor_of_odd(d: nat, n: nat)
    requires
        divides(d, n),
        n % 2 == 1,
    ensures
        d % 2 == 1,
{
    lemma_divides_quotient(d, n);
    let q = n / d;
    if d % 2 == 0 {
        let h = d / 2;
        assert(n == 2 * (h * q)) by (nonlinear_arith)
            requires
                n == d * q,
                d == 2 * h,
        ;
    }
}

/// An odd divisor of `2 * a` divides `a`.
pub proof fn lemma_odd_divisor_of_double(d: nat, a: nat)
    requires
        divides(d, 2 * a),
        d % 2 == 1,
    ensures
        divides(d, a),
{
    lemma_divides_quotient(d, 2 * a);
    let q = (2 * a) / d;
    if q % 2 == 1 {
        let dh = d / 2;
        let qh = q / 2;
        assert(d * q == 2 * (2 * dh * qh + dh + qh) + 1) by (nonlinear_arith)
            requires
                d == 2 * dh + 1,
                q == 2 * qh + 1,
        ;
    }
    let h = q / 2;
    assert(a == d * h) by (nonlinear_arith)
        requires
            2 * a == d * q,
            q == 2 * h,
    ;
    lemma_divides_multiple(d, h);
}

/// Two is coprime to every odd number.
pub proof fn lemma_two_coprime_to_odd(n: nat)
    requires
        n % 2 == 1,
    ensures
        gcd(2, n) == 1,
{
    lemma_gcd_divides(2, n);
    lemma_divisor_of_odd(gcd(2, n), n);
    lemma_divisor_bound(gcd(2, n), 2);
}

/// Halving an even number keeps its greatest common divisor with an odd number.
pub proof fn lemma_gcd_halve(a: nat, b: nat)
    requires
        b % 2 == 1,
    ensures
        gcd(2 * a, b) == gcd(a, b),
{
    assert forall|d: nat|
        (divides(d, 2 * a) && divides(d, b)) <==> (divides(d, a) && divides(d, b)) by {
        if divides(d, 2 * a) && divides(d, b) {
            lemma_divisor_of_odd(d, b);
            lemma_odd_divisor_of_double(d, a);
        }
        if divides(d, a) && divides(d, b) {
            lemma_divides_product(d, a, 2);
        }
    }
    lemma_gcd_by_common_divisors(2 * a, b, a, b);
}

/// Removing a power of two from a number keeps its greatest common divisor with an
/// odd number.
pub proof fn lemma_gcd_remove_twos(a: nat, k: nat, b: nat)
    requires
        b % 2 == 1,
    ensures
        gcd(pow2(k) * a, b) == gcd(a, b),
        gcd(b, pow2(k) * a) == gcd(b, a),
    decreases k,
{
    if k == 0 {
        lemma2_to64();
        assert(pow2(0) * a == a);
    } else {
        lemma_pow2_unfold(k);
        let h = pow2((k - 1) as nat);
        assert(pow2(k) * a == 2 * (h * a)) by (nonlinear_arith)
            requires
                pow2(k) == 2 * h,
        ;
        lemma_gcd_halve(h * a, b);
        lemma_gcd_remove_twos(a, (k - 1) as nat, b);
    }
    lemma_gcd_symmetric(pow2(k) * a, b);
    lemma_gcd_symmetric(a, b);
}

/// A number that `2^k` divides is `2^k` times the quotient, and the quotient is not
/// larger than the number.
pub proof fn lemma_power_of_two_quotient(m: nat, k: nat)
    requires
        m % pow2(k) == 0,
    ensures
        pow2(k) > 0,
        m == pow2(k) * (m / pow2(k)),
        m / pow2(k) <= m,
{
    lemma_pow2_pos(k);
    lemma_fundamental_div_mod(m as int, pow2(k) as int);
    let q = m / pow2(k);
    assert(q <= m) by (nonlinear_arith)
        requires
            m == pow2(k) * q,
            pow2(k) > 0,
    ;
}

/// A positive number is `2^twos` times its odd part, and the odd part is odd.
pub proof fn lemma_twos_decompose(m: nat)
    requires
        m > 0,
    ensures
        m == pow2(twos(m)) * odd_part(m),
        odd_part(m) % 2 == 1,
        m % 2 == 0 ==> twos(m) >= 1,
    decreases m,
{
    lemma2_to64();
    if m % 2 == 0 {
        let h = m / 2;
        let k = twos(h);
        lemma_twos_decompose(h);
        lemma_pow2_unfold(k + 1);
        lemma_pow2_pos(k);
        assert(m == pow2(k + 1) * odd_part(h)) by (nonlinear_arith)
            requires
                m == 2 * h,
                h == pow2(k) * odd_part(h),
                pow2(k + 1) == 2 * pow2(k),
        ;
        lemma_pow2_pos(k + 1);
        lemma_div_multiples_vanish(odd_part(h) as int, pow2(k + 1) as int);
        assert(twos(m) == k + 1);
        assert(odd_part(m) == odd_part(h));
    } else {
        assert(twos(m) == 0);
        assert(odd_part(m) == m);
    }
}

/// The decomposition into a power of two and an odd number is unique.
pub proof fn lemma_twos_unique(m: nat, k: nat)
    requires
        m % pow2(k) == 0,
        (m / pow2(k)) % 2 == 1,
    ensures
        twos(m) == k,
        odd_part(m) == m / pow2(k),
    decreases k,
{
    lemma2_to64();
    lemma_power_of_two_quotient(m, k);
    if k > 0 {
        let q = m / pow2(k);
        let before = (k - 1) as nat;
        let h = pow2(before) * q;
        lemma_pow2_unfold(k);
        lemma_pow2_pos(before);
        assert(m == 2 * h) by (nonlinear_arith)
            requires
                m == pow2(k) * q,
                pow2(k) == 2 * pow2(before),
                h == pow2(before) * q,
        ;
        assert(h > 0) by (nonlinear_arith)
            requires
                h == pow2(before) * q,
                pow2(before) > 0,
                q > 0,
        ;
        lemma_divides_multiple(pow2(before), q);
        lemma_div_multiples_vanish(q as int, pow2(before) as int);
        lemma_twos_unique(h, before);
        assert(m / 2 == h);
        assert(twos(m) == 1 + twos(h));
    } else {
        assert(m == m / pow2(k)) by (nonlinear_arith)
            requires
                m == pow2(k) * (m / pow2(k)),
                pow2(k) == 1,
        ;
    }
}

/// The greatest common divisor of two positive numbers, each written as a power of
/// two times an odd number: the smaller power of two times the greatest common
/// divisor of the odd parts.
pub proof fn lemma_gcd_split_twos(a: nat, i: nat, b: nat, j: nat)
    requires
        a % 2 == 1,
        b % 2 == 1,
    ensures
        gcd(pow2(i) * a, pow2(j) * b) == pow2(if i <= j { i } else { j }) * gcd(a, b),
{
    let s = if i <= j { i } else { j };
    let c = pow2(s);
    let x = pow2((i - s) as nat) * a;
    let y = pow2((j - s) as nat) * b;
    lemma_pow2_adds(s, (i - s) as nat);
    lemma_pow2_adds(s, (j - s) as nat);
    assert(pow2(i) * a == c * x) by (nonlinear_arith)
        requires
            pow2(i) == c * pow2((i - s) as nat),
            x == pow2((i - s) as nat) * a,
    ;
    assert(pow2(j) * b == c * y) by (nonlinear_arith)
        requires
            pow2(j) == c * pow2((j - s) as nat),
            y == pow2((j - s) as nat) * b,
    ;
    lemma_gcd_scale(c, x, y);
    lemma2_to64();
    if i <= j {
        assert(x == a);
        lemma_gcd_remove_twos(b, (j - s) as nat, a);
    } else {
        assert(y == b);
        lemma_gcd_remove_twos(a, (i - s) as nat, b);
    }
}

/// A prime has no divisors but one and itself.
pub proof fn lemma_prime_divisors(p: nat, d: nat)
    requires
        is_prime(p),
        divides(d, p),
    ensures
        d == 1 || d == p,
{
    lemma_divisor_bound(d, p);
}

/// A prime that does not divide a number is coprime to it.
pub proof fn lemma_prime_coprime(p: nat, a: nat)
    requires
        is_prime(p),
        !divides(p, a),
    ensures
        gcd(p, a) == 1,
{
    lemma_gcd_divides(p, a);
    lemma_prime_divisors(p, gcd(p, a));
}

/// Euclid's lemma: a prime that divides a product divides one of the factors.
pub proof fn lemma_euclid(p: nat, a: nat, b: nat)
    requires
        is_prime(p),
        divides(p, a * b),
    ensures
        divides(p, a) || divides(p, b),
{
    if !divides(p, a) {
        lemma_prime_coprime(p, a);
        lemma_gcd_symmetric(p, a);
        lemma_coprime_cancel(p, a, b);
    }
}

/// Every number from two on has a prime divisor.
pub proof fn lemma_prime_divisor_exists(n: nat) -> (p: nat)
    requires
        n >= 2,
    ensures
        is_prime(p),
        divides(p, n),
    decreases n,
{
    if is_prime(n) {
        lemma_divides_basics(n);
        n
    } else {
        let d = choose|d: nat| 1 < d < n && #[trigger] (n % d) == 0;
        let p = lemma_prime_divisor_exists(d);
        lemma_divides_transitive(p, d, n);
        p
    }
}

} // verus!
