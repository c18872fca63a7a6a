//! Arbitrary-precision integers. The type is `rug::Integer`; what the library
//! knows of it is stated here, one contract for each operation that it uses,
//! all of them over the mathematical integer that a value holds. None of these
//! contracts is proved: they restate the documentation of `rug`. As with any
//! value on the heap, a number that the machine has no memory for ends the
//! process.

use rug::ops::Pow;
use rug::Integer;
use vstd::arithmetic::div_mod::lemma_mod_mod;
use vstd::arithmetic::power::pow;
use vstd::prelude::*;

verus! {

/// Makes `rug::Integer` known as a type whose inside is not looked at.
#[verifier::external_type_specification]
#[verifier::external_body]
pub struct ExInteger(Integer);

/// An integer of any size.
pub type LargeInt = Integer;

/// An integer below 256.
pub type SmallInt = u8;

/// The mathematical integer that an `Integer` holds.
pub uninterp spec fn integer_value(x: Integer) -> int;

/// `Integer::from` on a `u8` (`From<u8> for Integer`): the result holds the
/// number given.
#[verifier::external_body]
pub(crate) fn small_to_large(x: SmallInt) -> (large: LargeInt)
    ensures
        integer_value(large) == x,
{
    Integer::from(x)
}

/// `Integer::to_u32_wrapping`: the value reduced modulo 2^32, which for a
/// negative value is the two's complement pattern of its low 32 bits.
#[verifier::external_body]
pub(crate) fn to_u32_wrapping(x: &LargeInt) -> (low: u32)
    ensures
        low == integer_value(*x) % 0x1_0000_0000,
{
    x.to_u32_wrapping()
}

/// `Clone::clone` for `Integer`: the copy holds the same number.
#[verifier::external_body]
pub(crate) fn duplicate(x: &LargeInt) -> (copy: LargeInt)
    ensures
        integer_value(copy) == integer_value(*x),
{
    x.clone()
}

/// The operator `<` between two `Integer`s (`PartialOrd::lt`): the order of
/// the numbers they hold.
#[verifier::external_body]
pub(crate) fn less(a: &LargeInt, b: &LargeInt) -> (below: bool)
    ensures
        below == (integer_value(*a) < integer_value(*b)),
{
    a < b
}

/// The operator `*` between two `Integer`s (`Mul<&Integer> for Integer`): the
/// result holds the product.
#[verifier::external_body]
pub(crate) fn multiply(a: LargeInt, b: &LargeInt) -> (product: LargeInt)
    ensures
        integer_value(product) == integer_value(a) * integer_value(*b),
{
    a * b
}

/// The operator `+` between two `Integer`s (`Add<&Integer> for Integer`): the
/// result holds the sum.
#[verifier::external_body]
pub(crate) fn sum(a: LargeInt, b: &LargeInt) -> (total: LargeInt)
    ensures
        integer_value(total) == integer_value(a) + integer_value(*b),
{
    a + b
}

/// `Pow::pow` of an `Integer` to a `u32` (`rug::ops::Pow<u32> for Integer`):
/// the result holds the power, which is 1 for the exponent 0.
#[verifier::external_body]
pub(crate) fn power(base: LargeInt, exponent: u32) -> (raised: LargeInt)
    ensures
        integer_value(raised) == pow(integer_value(base), exponent as nat),
{
    base.pow(exponent)
}

/// `Integer::div_rem_mut`: the quotient replaces the dividend and the
/// remainder replaces the divisor. It rounds towards zero and panics on a zero
/// divisor; the contract covers a dividend that is not negative and a positive
/// divisor, where quotient and remainder are those of ordinary division.
#[verifier::external_body]
pub(crate) fn div_rem_mut(dividend: &mut LargeInt, divisor: &mut LargeInt)
    requires
        integer_value(*old(dividend)) >= 0,
        integer_value(*old(divisor)) > 0,
    ensures
        integer_value(*final(dividend)) == integer_value(*old(dividend)) / integer_value(
            *old(divisor),
        ),
        integer_value(*final(divisor)) == integer_value(*old(dividend)) % integer_value(
            *old(divisor),
        ),
{
    dividend.div_rem_mut(divisor)
}

/// The low eight bits of `x`: its value modulo 256.
pub fn large_to_small(x: LargeInt) -> (small: SmallInt)
    ensures
        small == integer_value(x) % 256,
{
    let low = to_u32_wrapping(&x);
    let small = low as u8;
    proof {
        assert(small == low % 256) by (bit_vector)
            requires
                small == low as u8,
        ;
        lemma_mod_mod(integer_value(x), 256, 0x100_0000);
    }
    small
}

} // verus!
