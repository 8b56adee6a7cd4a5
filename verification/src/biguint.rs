//! The boundary to `num_bigint` and `rand`.
//!
//! [`BigUint`] is opaque to the verifier.  Its mathematical content is the natural
//! number [`value`]; each function below makes exactly one call into the outside
//! crate and states, over [`value`], what that call is documented to compute.
//! None of these contracts is proved: they are the assumptions on which every proof
//! of this crate rests.
//!
//! Where the outside crate panics on some arguments, the precondition excludes
//! them.  Running out of memory is not spoken of, here as elsewhere in Rust.
use num_bigint::BigUint;
use num_bigint::RandBigInt;
use vstd::arithmetic::power::pow;
use vstd::arithmetic::power2::pow2;
use vstd::prelude::*;

verus! {

/// Makes `num_bigint::BigUint` known to the verifier as an opaque type.
#[verifier::external_type_specification]
#[verifier::external_body]
pub struct ExBigUint(BigUint);

/// The natural number that a `BigUint` holds.
pub uninterp spec fn value(n: BigUint) -> nat;

/// `BigUint::from(u64)`: the big integer with the value of `x`.
#[verifier::external_body]
pub(crate) fn big_from_u64(x: u64) -> (r: BigUint)
    ensures
        value(r) == x,
{
    BigUint::from(x)
}

/// `Clone::clone` of `BigUint`: a copy with the same value.
#[verifier::external_body]
pub(crate) fn big_clone(a: &BigUint) -> (r: BigUint)
    ensures
        value(r) == value(*a),
{
    a.clone()
}

/// `PartialEq::eq` of `BigUint`: the digits are kept without leading zeros, so two
/// big integers compare equal exactly when their values are equal.
#[verifier::external_body]
pub(crate) fn big_eq(a: &BigUint, b: &BigUint) -> (r: bool)
    ensures
        r == (value(*a) == value(*b)),
{
    a == b
}

/// `PartialOrd::lt` of `BigUint`: the order of the values.
#[verifier::external_body]
pub(crate) fn big_lt(a: &BigUint, b: &BigUint) -> (r: bool)
    ensures
        r == (value(*a) < value(*b)),
{
    a < b
}

/// `BigUint - &BigUint`: the difference.  The outside crate panics when the
/// subtrahend is the larger one.
#[verifier::external_body]
pub(crate) fn big_sub(a: BigUint, b: &BigUint) -> (r: BigUint)
    requires
        value(a) >= value(*b),
    ensures
        value(r) == value(a) - value(*b),
{
    a - b
}

/// `&BigUint % &BigUint`: the remainder.  The outside crate panics on a zero
/// divisor.
#[verifier::external_body]
pub(crate) fn big_rem(a: &BigUint, m: &BigUint) -> (r: BigUint)
    requires
        value(*m) > 0,
    ensures
        value(r) == value(*a) % value(*m),
{
    a % m
}

/// `BigUint >> u64`: the value divided by `2^k`, rounded down.
#[verifier::external_body]
pub(crate) fn big_shr(a: BigUint, k: u64) -> (r: BigUint)
    ensures
        value(r) == value(a) / pow2(k as nat),
{
    a >> k
}

/// `BigUint << u64`: the value multiplied by `2^k`.  The outside crate panics when
/// the number of whole digits to shift by does not fit in `usize`.  A digit has 32
/// or 64 bits, so that number is at most `k / 32`.
#[verifier::external_body]
pub(crate) fn big_shl(a: BigUint, k: u64) -> (r: BigUint)
    requires
        k / 32 <= usize::MAX,
    ensures
        value(r) == value(a) * pow2(k as nat),
{
    a << k
}

/// `BigUint::bit`: whether the binary digit of weight `2^i` is one.
#[verifier::external_body]
pub(crate) fn big_bit(a: &BigUint, i: u64) -> (r: bool)
    ensures
        r == ((value(*a) / pow2(i as nat)) % 2 == 1),
{
    a.bit(i)
}

/// `BigUint::trailing_zeros`: `None` for zero, otherwise the number `k` of zero bits
/// below the lowest one bit, so that `2^k` divides the value and the quotient is
/// odd.  The lowest one bit lies in a digit whose index fits in `usize`, and a
/// digit has 32 or 64 bits, hence the bound on `k`.
#[verifier::external_body]
pub(crate) fn big_trailing_zeros(a: &BigUint) -> (r: Option<u64>)
    ensures
        r is None <==> value(*a) == 0,
        r matches Some(k) ==> {
            &&& value(*a) % pow2(k as nat) == 0
            &&& (value(*a) / pow2(k as nat)) % 2 == 1
            &&& k / 32 <= usize::MAX
        },
{
    a.trailing_zeros()
}

/// `BigUint::modpow`: the remainder of `base^exponent` modulo `modulus`.  The
/// outside crate panics on a zero modulus.
#[verifier::external_body]
pub(crate) fn big_modpow(base: &BigUint, exponent: &BigUint, modulus: &BigUint) -> (r: BigUint)
    requires
        value(*modulus) > 0,
    ensures
        value(r) == pow(value(*base) as int, value(*exponent)) % (value(*modulus) as int),
{
    base.modpow(exponent, modulus)
}

/// `RandBigInt::gen_biguint_range` on `rand::thread_rng()`: some number from `low`
/// up to, but not including, `high`.  Which one is left open: two calls need not
/// agree.  The outside crate panics on an empty range.
#[verifier::external_body]
pub(crate) fn big_random_range(low: &BigUint, high: &BigUint) -> (r: BigUint)
    requires
        value(*low) < value(*high),
    ensures
        value(*low) <= value(r) < value(*high),
{
    rand::thread_rng().gen_biguint_range(low, high)
}

} // verus!
