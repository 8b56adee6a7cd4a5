//! The odd primes below 256, in six groups whose products each fit a machine word.
//!
//! The filter of [`crate::trial`] works with the six products only.  This module
//! says which primes they stand for and proves what the filter needs of them: each
//! member is a prime that divides its group's product, a prime that divides a
//! product is a member, and every odd prime below 256 is a member of some group.
use crate::divisibility::{
    divides, is_prime, lemma_divides_multiple, lemma_divides_transitive, lemma_divisor_bound,
    lemma_euclid, lemma_prime_divisors,
};
use vstd::arithmetic::div_mod::*;
use vstd::prelude::*;

verus! {

/// The number of groups.
pub const GROUPS: usize = 6;

/// The largest prime of the table.
pub const LARGEST_SMALL_PRIME: u64 = 251;

/// `p` is one of the primes of group `j`.
pub open spec fn in_group(j: int, p: nat) -> bool {
    if j == 0 {
        p == 3 || p == 5 || p == 7 || p == 11 || p == 13 || p == 17 || p == 19 || p == 23
        || p == 29 || p == 31 || p == 37 || p == 41 || p == 43 || p == 47 || p == 53
    } else if j == 1 {
        p == 59 || p == 61 || p == 67 || p == 71 || p == 73 || p == 79 || p == 83 || p == 89
        || p == 97 || p == 101
    } else if j == 2 {
        p == 103 || p == 107 || p == 109 || p == 113 || p == 127 || p == 131 || p == 137
        || p == 139 || p == 149
    } else if j == 3 {
        p == 151 || p == 157 || p == 163 || p == 167 || p == 173 || p == 179 || p == 181
        || p == 191
    } else if j == 4 {
        p == 193 || p == 197 || p == 199 || p == 211 || p == 223 || p == 227 || p == 229
        || p == 233
    } else if j == 5 {
        p == 239 || p == 241 || p == 251
    } else {
        false
    }
}

/// The product of the primes of group `j`.
pub open spec fn group_product(j: int) -> nat {
    if j == 0 {
        3 * 5 * 7 * 11 * 13 * 17 * 19 * 23 * 29 * 31 * 37 * 41 * 43 * 47 * 53
    } else if j == 1 {
        59 * 61 * 67 * 71 * 73 * 79 * 83 * 89 * 97 * 101
    } else if j == 2 {
        103 * 107 * 109 * 113 * 127 * 131 * 137 * 139 * 149
    } else if j == 3 {
        151 * 157 * 163 * 167 * 173 * 179 * 181 * 191
    } else if j == 4 {
        193 * 197 * 199 * 211 * 223 * 227 * 229 * 233
    } else if j == 5 {
        239 * 241 * 251
    } else {
        1
    }
}

/// `p` is divisible by none of the primes below 17, unless it is one of them.
pub open spec fn survives_sieve(p: nat) -> bool {
    &&& p == 2 || p % 2 != 0
    &&& p == 3 || p % 3 != 0
    &&& p == 5 || p % 5 != 0
    &&& p == 7 || p % 7 != 0
    &&& p == 11 || p % 11 != 0
    &&& p == 13 || p % 13 != 0
}

/// Below `17 * 17`, a number from two on that survives the sieve is prime.
pub proof fn lemma_sieve_proves_prime(p: nat)
    requires
        2 <= p < 289,
        survives_sieve(p),
    ensures
        is_prime(p),
{
    assert forall|d: nat| 1 < d < p implies #[trigger] (p % d) != 0 by {
        if p % d == 0 {
            lemma_fundamental_div_mod(p as int, d as int);
            let e = p / d;
            assert(1 < e < p && (d <= 16 || e <= 16)) by (nonlinear_arith)
                requires
                    p == d * e,
                    1 < d < p,
                    p < 289,
            ;
            assert(p == e * d) by (nonlinear_arith)
                requires
                    p == d * e,
            ;
            lemma_divides_multiple(e, d);
            let m = if d <= 16 { d } else { e };
            assert(divides(m, p));
            let q: nat = if m % 2 == 0 {
                2
            } else if m % 3 == 0 {
                3
            } else if m % 5 == 0 {
                5
            } else if m % 7 == 0 {
                7
            } else if m % 11 == 0 {
                11
            } else {
                13
            };
            assert(divides(q, m));
            lemma_divides_transitive(q, m, p);
            lemma_divisor_bound(q, m);
        }
    }
}

/// A prime survives the sieve.
pub proof fn lemma_prime_survives_sieve(p: nat)
    requires
        is_prime(p),
    ensures
        survives_sieve(p),
{
    assert(p > 2 ==> p % 2 != 0);
    assert(p > 3 ==> p % 3 != 0);
    assert(p > 5 ==> p % 5 != 0);
    assert(p > 7 ==> p % 7 != 0);
    assert(p > 11 ==> p % 11 != 0);
    assert(p > 13 ==> p % 13 != 0);
}

/// The members of a group are odd primes below 256 that divide the group's product.
pub proof fn lemma_group_member(j: int, p: nat)
    requires
        in_group(j, p),
    ensures
        is_prime(p),
        3 <= p <= LARGEST_SMALL_PRIME,
        divides(p, group_product(j)),
{
    lemma_sieve_proves_prime(p);
}

/// Every odd prime below 256 is a member of some group.
pub proof fn lemma_groups_complete(p: nat) -> (j: int)
    requires
        is_prime(p),
        3 <= p <= LARGEST_SMALL_PRIME,
    ensures
        0 <= j < GROUPS,
        in_group(j, p),
{
    lemma_prime_survives_sieve(p);
    let b = p as u8;
    assert(3 <= b <= 251 && b % 2 != 0 && (b == 3 || b % 3 != 0) && (b == 5 || b % 5 != 0) && (b
        == 7 || b % 7 != 0) && (b == 11 || b % 11 != 0) && (b == 13 || b % 13 != 0) ==> {
        b == 3 || b == 5 || b == 7 || b == 11 || b == 13 || b == 17 || b == 19 || b == 23
        || b == 29 || b == 31 || b == 37 || b == 41 || b == 43 || b == 47 || b == 53 || b == 59
        || b == 61 || b == 67 || b == 71 || b == 73 || b == 79 || b == 83 || b == 89 || b == 97
        || b == 101 || b == 103 || b == 107 || b == 109 || b == 113 || b == 127 || b == 131
        || b == 137 || b == 139 || b == 149 || b == 151 || b == 157 || b == 163 || b == 167
        || b == 173 || b == 179 || b == 181 || b == 191 || b == 193 || b == 197 || b == 199
        || b == 211 || b == 223 || b == 227 || b == 229 || b == 233 || b == 239 || b == 241
        || b == 251
    }) by (bit_vector);
    if p <= 53 {
        0
    } else if p <= 101 {
        1
    } else if p <= 149 {
        2
    } else if p <= 191 {
        3
    } else if p <= 233 {
        4
    } else {
        5
    }
}

/// A prime that divides `rest * q`, where `q` is a small prime, is `q` or divides
/// `rest`; in the latter case `rest` is not one.
proof fn lemma_split_off_prime(r: nat, rest: nat, q: nat)
    requires
        is_prime(r),
        2 <= q < 289,
        survives_sieve(q),
    ensures
        divides(r, rest * q) ==> r == q || (rest != 1 && divides(r, rest)),
{
    if divides(r, rest * q) {
        lemma_sieve_proves_prime(q);
        lemma_euclid(r, rest, q);
        if divides(r, q) {
            lemma_prime_divisors(q, r);
        } else if rest == 1 {
            lemma_divisor_bound(r, 1);
        }
    }
}

/// A prime that divides the product of a group is a member of the group.
pub proof fn lemma_group_factor(j: int, r: nat)
    requires
        0 <= j < GROUPS,
        is_prime(r),
        divides(r, group_product(j)),
    ensures
        in_group(j, r),
{
    if j == 0 {
        let m1: nat = 3;
        let m2: nat = m1 * 5;
        let m3: nat = m2 * 7;
        let m4: nat = m3 * 11;
        let m5: nat = m4 * 13;
        let m6: nat = m5 * 17;
        let m7: nat = m6 * 19;
        let m8: nat = m7 * 23;
        let m9: nat = m8 * 29;
        let m10: nat = m9 * 31;
        let m11: nat = m10 * 37;
        let m12: nat = m11 * 41;
        let m13: nat = m12 * 43;
        let m14: nat = m13 * 47;
        lemma_split_off_prime(r, m14, 53);
        lemma_split_off_prime(r, m13, 47);
        lemma_split_off_prime(r, m12, 43);
        lemma_split_off_prime(r, m11, 41);
        lemma_split_off_prime(r, m10, 37);
        lemma_split_off_prime(r, m9, 31);
        lemma_split_off_prime(r, m8, 29);
        lemma_split_off_prime(r, m7, 23);
        lemma_split_off_prime(r, m6, 19);
        lemma_split_off_prime(r, m5, 17);
        lemma_split_off_prime(r, m4, 13);
        lemma_split_off_prime(r, m3, 11);
        lemma_split_off_prime(r, m2, 7);
        lemma_split_off_prime(r, m1, 5);
        lemma_split_off_prime(r, 1, 3);
    } else if j == 1 {
        let m1: nat = 59;
        let m2: nat = m1 * 61;
        let m3: nat = m2 * 67;
        let m4: nat = m3 * 71;
        let m5: nat = m4 * 73;
        let m6: nat = m5 * 79;
        let m7: nat = m6 * 83;
        let m8: nat = m7 * 89;
        let m9: nat = m8 * 97;
        lemma_split_off_prime(r, m9, 101);
        lemma_split_off_prime(r, m8, 97);
        lemma_split_off_prime(r, m7, 89);
        lemma_split_off_prime(r, m6, 83);
        lemma_split_off_prime(r, m5, 79);
        lemma_split_off_prime(r, m4, 73);
        lemma_split_off_prime(r, m3, 71);
        lemma_split_off_prime(r, m2, 67);
        lemma_split_off_prime(r, m1, 61);
        lemma_split_off_prime(r, 1, 59);
    } else if j == 2 {
        let m1: nat = 103;
        let m2: nat = m1 * 107;
        let m3: nat = m2 * 109;
        let m4: nat = m3 * 113;
        let m5: nat = m4 * 127;
        let m6: nat = m5 * 131;
        let m7: nat = m6 * 137;
        let m8: nat = m7 * 139;
        lemma_split_off_prime(r, m8, 149);
        lemma_split_off_prime(r, m7, 139);
        lemma_split_off_prime(r, m6, 137);
        lemma_split_off_prime(r, m5, 131);
        lemma_split_off_prime(r, m4, 127);
        lemma_split_off_prime(r, m3, 113);
        lemma_split_off_prime(r, m2, 109);
        lemma_split_off_prime(r, m1, 107);
        lemma_split_off_prime(r, 1, 103);
    } else if j == 3 {
        let m1: nat = 151;
        let m2: nat = m1 * 157;
        let m3: nat = m2 * 163;
        let m4: nat = m3 * 167;
        let m5: nat = m4 * 173;
        let m6: nat = m5 * 179;
        let m7: nat = m6 * 181;
        lemma_split_off_prime(r, m7, 191);
        lemma_split_off_prime(r, m6, 181);
        lemma_split_off_prime(r, m5, 179);
        lemma_split_off_prime(r, m4, 173);
        lemma_split_off_prime(r, m3, 167);
        lemma_split_off_prime(r, m2, 163);
        lemma_split_off_prime(r, m1, 157);
        lemma_split_off_prime(r, 1, 151);
    } else if j == 4 {
        let m1: nat = 193;
        let m2: nat = m1 * 197;
        let m3: nat = m2 * 199;
        let m4: nat = m3 * 211;
        let m5: nat = m4 * 223;
        let m6: nat = m5 * 227;
        let m7: nat = m6 * 229;
        lemma_split_off_prime(r, m7, 233);
        lemma_split_off_prime(r, m6, 229);
        lemma_split_off_prime(r, m5, 227);
        lemma_split_off_prime(r, m4, 223);
        lemma_split_off_prime(r, m3, 211);
        lemma_split_off_prime(r, m2, 199);
        lemma_split_off_prime(r, m1, 197);
        lemma_split_off_prime(r, 1, 193);
    } else if j == 5 {
        let m1: nat = 239;
        let m2: nat = m1 * 241;
        lemma_split_off_prime(r, m2, 251);
        lemma_split_off_prime(r, m1, 241);
        lemma_split_off_prime(r, 1, 239);
    }
}

/// The product of group `j` as a machine word.
pub fn group_product_word(j: usize) -> (w: u64)
    requires
        j < GROUPS,
    ensures
        w == group_product(j as int),
{
    let words: [u64; 6] = [
        16294579238595022365,
        7145393598349078859,
        6408001374760705163,
        690862709424854779,
        4312024209383942993,
        14457349,
    ];
    words[j]
}

} // verus!
