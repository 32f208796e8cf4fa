//! Arbitrary-precision integers.
//!
//! The numbers are `num_bigint::BigInt` values. Verus does not look inside
//! them: each one stands for the mathematical integer `integer_value` gives,
//! and the functions below state, without proof, what the arithmetic of
//! `num_bigint` does to that integer.

use crate::text::{all_digits, decimal_value, integer_text};
use num_bigint::BigInt;
use num_traits::ToPrimitive;
use vstd::prelude::*;

verus! {

/// `num_bigint::BigInt`, taken as a type whose values cannot be looked
/// into.
#[verifier::external_type_specification]
#[verifier::external_body]
pub struct ExBigInt(num_bigint::BigInt);

/// The mathematical integer that a `BigInt` holds.
pub uninterp spec fn integer_value(i: BigInt) -> int;

/// `BigInt::clone`: the copy holds the same integer.
pub assume_specification[ <BigInt as Clone>::clone ](i: &BigInt) -> (r: BigInt)
    ensures
        integer_value(r) == integer_value(*i),
;

/// `BigInt::from` on a `u64`: the result holds that number.
#[verifier::external_body]
pub(crate) fn integer_from_u64(n: u64) -> (r: BigInt)
    ensures
        integer_value(r) == n,
{
    BigInt::from(n)
}

/// `str::parse` to a `BigInt`, on a string of one or more decimal digits:
/// the result holds the number that the digits write.
#[verifier::external_body]
pub(crate) fn integer_from_decimal(digits: &str) -> (r: BigInt)
    requires
        digits@.len() >= 1,
        all_digits(digits@),
    ensures
        integer_value(r) == decimal_value(digits@),
{
    digits.parse::<BigInt>().unwrap_or_default()
}

/// `ToPrimitive::to_u64` on a `BigInt`: the integer as a `u64` where it is
/// in that type's range, and `None` where it is not.
#[verifier::external_body]
pub(crate) fn integer_to_u64(i: &BigInt) -> (r: Option<u64>)
    ensures
        r is Some <==> 0 <= integer_value(*i) <= u64::MAX,
        r is Some ==> r->0 == integer_value(*i),
{
    i.to_u64()
}

/// `BigInt`'s `*=` with a `u64` on the right: the integer is multiplied in
/// place, and the product is exact whatever its size.
#[verifier::external_body]
pub(crate) fn integer_mul_assign(i: &mut BigInt, n: u64)
    ensures
        integer_value(*final(i)) == integer_value(*old(i)) * n,
{
    *i *= n;
}

/// `+` on two `BigInt` references: the exact sum.
#[verifier::external_body]
pub(crate) fn integer_add(a: &BigInt, b: &BigInt) -> (r: BigInt)
    ensures
        integer_value(r) == integer_value(*a) + integer_value(*b),
{
    a + b
}

/// `-` on two `BigInt` references: the exact difference.
#[verifier::external_body]
pub(crate) fn integer_sub(a: &BigInt, b: &BigInt) -> (r: BigInt)
    ensures
        integer_value(r) == integer_value(*a) - integer_value(*b),
{
    a - b
}

/// `<` on two `BigInt` values compares the integers they hold.
#[verifier::external_body]
pub(crate) fn integer_lt(a: &BigInt, b: &BigInt) -> (r: bool)
    ensures
        r == (integer_value(*a) < integer_value(*b)),
{
    a < b
}

/// `==` on two `BigInt` values holds exactly when they hold the same integer.
#[verifier::external_body]
pub(crate) fn integer_eq(a: &BigInt, b: &BigInt) -> (r: bool)
    ensures
        r == (integer_value(*a) == integer_value(*b)),
{
    a == b
}

/// `BigInt::to_string`: the decimal digits of the integer, after a minus
/// sign where it is negative.
#[verifier::external_body]
pub(crate) fn integer_to_string(i: &BigInt) -> (r: String)
    ensures
        r@ == integer_text(integer_value(*i)),
{
    i.to_string()
}

} // verus!
