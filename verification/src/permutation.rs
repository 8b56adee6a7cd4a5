//! Sums and products over a rearrangement of the numbers from one to `m`.
//!
//! A sequence of `m` distinct numbers between `1` and `m` holds each of them once.
//! Summing a function over it, or multiplying its elements, therefore gives the same
//! as doing so over `1, 2, .., m` in order.
use vstd::prelude::*;
use vstd::set_lib::*;

verus! {

/// The product `1 * 2 * .. * n`.
pub open spec fn factorial(n: nat) -> nat
    decreases n,
{
    if n == 0 {
        1
    } else {
        n * factorial((n - 1) as nat)
    }
}

/// The product of the elements of a sequence.
pub open spec fn seq_product(s: Seq<int>) -> int
    decreases s.len(),
{
    if s.len() == 0 {
        1
    } else {
        seq_product(s.drop_last()) * s.last()
    }
}

/// The sum of `f` over the elements of a sequence.
pub open spec fn sum_over(f: spec_fn(int) -> int, s: Seq<int>) -> int
    decreases s.len(),
{
    if s.len() == 0 {
        0
    } else {
        sum_over(f, s.drop_last()) + f(s.last())
    }
}

/// The sum `f(1) + f(2) + .. + f(m)`.
pub open spec fn sum_to(f: spec_fn(int) -> int, m: nat) -> int
    decreases m,
{
    if m == 0 {
        0
    } else {
        sum_to(f, (m - 1) as nat) + f(m as int)
    }
}

/// `s` holds `m` distinct numbers between `1` and `m`.
pub open spec fn is_rearrangement(s: Seq<int>, m: nat) -> bool {
    &&& s.len() == m
    &&& s.no_duplicates()
    &&& forall|i: int| 0 <= i < m ==> 1 <= #[trigger] s[i] <= m
}

/// A rearrangement of the numbers from one to a positive `m` holds `m`; without
/// it, a rearrangement of the numbers from one to `m - 1` is left.
pub proof fn lemma_rearrangement_holds_largest(s: Seq<int>, m: nat) -> (j: int)
    requires
        m > 0,
        is_rearrangement(s, m),
    ensures
        0 <= j < m,
        s[j] == m,
        is_rearrangement(s.remove(j), (m - 1) as nat),
{
    if !s.contains(m as int) {
        let below = set_int_range(1, m as int);
        lemma_int_range(1, m as int);
        assert(s.to_set().subset_of(below)) by {
            assert forall|x: int| s.to_set().contains(x) implies below.contains(x) by {
                let i = choose|i: int| 0 <= i < s.len() && s[i] == x;
                assert(1 <= s[i] <= m);
            }
        }
        lemma_len_subset(s.to_set(), below);
        s.unique_seq_to_set();
    }
    let j = choose|j: int| 0 <= j < s.len() && s[j] == m;
    let rest = s.remove(j);
    assert forall|i: int| 0 <= i < m - 1 implies 1 <= #[trigger] rest[i] <= m - 1 by {
        let k = if i < j { i } else { i + 1 };
        assert(rest[i] == s[k]);
        assert(1 <= s[k] <= m);
    }
    assert forall|i: int, k: int|
        0 <= i < rest.len() && 0 <= k < rest.len() && i != k implies rest[i] != rest[k] by {
        let si = if i < j { i } else { i + 1 };
        let sk = if k < j { k } else { k + 1 };
        assert(rest[i] == s[si] && rest[k] == s[sk]);
    }
    j
}

/// The product of a sequence is one of its elements times the product of the rest.
pub proof fn lemma_product_remove(s: Seq<int>, j: int)
    requires
        0 <= j < s.len(),
    ensures
        seq_product(s) == s[j] * seq_product(s.remove(j)),
    decreases s.len(),
{
    let front = s.drop_last();
    if j == s.len() - 1 {
        assert(s.remove(j) =~= front);
        assert(seq_product(front) * s.last() == s.last() * seq_product(front)) by (nonlinear_arith);
    } else {
        lemma_product_remove(front, j);
        let rest = s.remove(j);
        assert(rest.drop_last() =~= front.remove(j));
        assert(rest.last() == s.last());
        assert(seq_product(rest) == seq_product(front.remove(j)) * s.last());
        assert((s[j] * seq_product(front.remove(j))) * s.last() == s[j] * (seq_product(
            front.remove(j),
        ) * s.last())) by (nonlinear_arith);
    }
}

/// The sum over a sequence is the term of one of its elements plus the sum over the
/// rest.
pub proof fn lemma_sum_remove(f: spec_fn(int) -> int, s: Seq<int>, j: int)
    requires
        0 <= j < s.len(),
    ensures
        sum_over(f, s) == f(s[j]) + sum_over(f, s.remove(j)),
    decreases s.len(),
{
    let front = s.drop_last();
    if j == s.len() - 1 {
        assert(s.remove(j) =~= front);
    } else {
        lemma_sum_remove(f, front, j);
        let rest = s.remove(j);
        assert(rest.drop_last() =~= front.remove(j));
        assert(rest.last() == s.last());
    }
}

/// The product of a rearrangement of the numbers from one to `m` is `m!`.
pub proof fn lemma_permutation_product(s: Seq<int>, m: nat)
    requires
        is_rearrangement(s, m),
    ensures
        seq_product(s) == factorial(m),
    decreases m,
{
    if m > 0 {
        let j = lemma_rearrangement_holds_largest(s, m);
        lemma_permutation_product(s.remove(j), (m - 1) as nat);
        lemma_product_remove(s, j);
    }
}

/// The sum of `f` over a rearrangement of the numbers from one to `m` is
/// `f(1) + .. + f(m)`.
pub proof fn lemma_permutation_sum(f: spec_fn(int) -> int, s: Seq<int>, m: nat)
    requires
        is_rearrangement(s, m),
    ensures
        sum_over(f, s) == sum_to(f, m),
    decreases m,
{
    if m > 0 {
        let j = lemma_rearrangement_holds_largest(s, m);
        lemma_permutation_sum(f, s.remove(j), (m - 1) as nat);
        lemma_sum_remove(f, s, j);
    }
}

} // verus!
