//! Digits of a number in a radix, their product, and the resistance of a
//! number: how often the digit product has to be taken until the number is a
//! single digit.

use crate::large::{
    div_rem_mut, duplicate, integer_value, large_to_small, less, multiply, small_to_large,
    LargeInt, SmallInt,
};
use crate::vectors::numbers;
use vstd::arithmetic::div_mod::{
    lemma_div_decreases, lemma_div_pos_is_pos, lemma_fundamental_div_mod, lemma_mod_bound,
    lemma_small_mod,
};
use vstd::prelude::*;

verus! {

/// The count of digit-product steps.
pub type Resistance = i32;

/// The digits of `v` in `radix`, most significant first. A number that is not
/// positive has no digits.
pub open spec fn digits_of(v: int, radix: int) -> Seq<int>
    decreases v,
    via digits_of_decreases
{
    if v <= 0 || radix < 2 {
        Seq::empty()
    } else {
        digits_of(v / radix, radix).push(v % radix)
    }
}

#[via_fn]
proof fn digits_of_decreases(v: int, radix: int) {
    if !(v <= 0 || radix < 2) {
        lemma_div_decreases(v, radix);
        lemma_div_pos_is_pos(v, radix);
    }
}

/// The product of the entries of `list`; 1 for the empty list.
pub open spec fn product_of(list: Seq<int>) -> int
    decreases list.len(),
{
    if list.len() == 0 {
        1
    } else {
        product_of(list.drop_last()) * list.last()
    }
}

/// The product of the digits of `v` in `radix`.
pub open spec fn digit_product_of(v: int, radix: int) -> int {
    product_of(digits_of(v, radix))
}

/// How often the digit product has to be taken, starting from `v`, until the
/// number is below `radix`.
pub open spec fn resistance_of(v: int, radix: int) -> nat
    decreases v,
    via resistance_of_decreases
{
    if v < radix || radix < 2 {
        0
    } else {
        1 + resistance_of(digit_product_of(v, radix), radix)
    }
}

#[via_fn]
proof fn resistance_of_decreases(v: int, radix: int) {
    if !(v < radix || radix < 2) {
        lemma_digit_product_bounds(v, radix);
    }
}

/// The count of steps as a `Resistance` holds it: counts beyond the largest
/// `Resistance` are held as the largest.
pub open spec fn held_resistance(steps: nat) -> Resistance {
    if steps <= Resistance::MAX {
        steps as Resistance
    } else {
        Resistance::MAX
    }
}

/// The digit product of a positive number is that of the number without its
/// last digit, times the last digit; that of any other number is 1.
pub proof fn lemma_digit_product_step(v: int, radix: int)
    requires
        radix >= 2,
    ensures
        v <= 0 ==> digit_product_of(v, radix) == 1,
        v > 0 ==> digit_product_of(v, radix) == digit_product_of(v / radix, radix) * (v % radix),
{
    if v > 0 {
        let rest = digits_of(v / radix, radix);
        assert(rest.push(v % radix).drop_last() =~= rest);
    }
}

/// A digit product is never negative, never above a positive number it is
/// taken of, and below every number of two or more digits.
pub proof fn lemma_digit_product_bounds(v: int, radix: int)
    requires
        radix >= 2,
    ensures
        0 <= digit_product_of(v, radix),
        v >= 1 ==> digit_product_of(v, radix) <= v,
        v >= radix ==> digit_product_of(v, radix) < v,
    decreases v,
{
    lemma_digit_product_step(v, radix);
    if v > 0 {
        let q = v / radix;
        let d = v % radix;
        lemma_div_decreases(v, radix);
        lemma_div_pos_is_pos(v, radix);
        lemma_mod_bound(v, radix);
        lemma_fundamental_div_mod(v, radix);
        lemma_digit_product_bounds(q, radix);
        lemma_digit_product_step(q, radix);
        let rest = digit_product_of(q, radix);
        assert(rest * d >= 0) by (nonlinear_arith)
            requires
                rest >= 0,
                d >= 0,
        ;
        if q == 0 {
            assert(rest * d == d) by (nonlinear_arith)
                requires
                    rest == 1,
            ;
        } else {
            assert(rest * d < radix * q) by (nonlinear_arith)
                requires
                    0 <= rest <= q,
                    0 <= d < radix,
                    q >= 1,
            ;
        }
    }
}

/// The resistance of a number below the radix is 0; that of any other number
/// is one more than the resistance of its digit product.
pub proof fn lemma_resistance_recurrence(v: int, radix: int)
    requires
        radix >= 2,
    ensures
        v < radix ==> resistance_of(v, radix) == 0,
        v >= radix ==> resistance_of(v, radix) == 1 + resistance_of(
            digit_product_of(v, radix),
            radix,
        ),
{
}

/// The list in reverse order.
fn reversed(list: Vec<SmallInt>) -> (turned: Vec<SmallInt>)
    ensures
        turned@ == list@.reverse(),
{
    let mut turned: Vec<SmallInt> = Vec::new();
    let mut left = list.len();
    while left > 0
        invariant
            left <= list@.len(),
            turned@.len() == list@.len() - left,
            forall|i: int| 0 <= i < turned@.len() ==> turned@[i] == list@[list@.len() - 1 - i],
        decreases left,
    {
        left -= 1;
        turned.push(list[left]);
    }
    assert(turned@ =~= list@.reverse());
    turned
}

/// The digits of `x` in `radix`, most significant first.
pub fn digits(x: LargeInt, radix: SmallInt) -> (list: Vec<SmallInt>)
    requires
        radix >= 2,
    ensures
        numbers(list@) == digits_of(integer_value(x), radix as int),
{
    let mut vec: Vec<SmallInt> = Vec::new();
    let mut remaining = x;
    let zero = small_to_large(0);
    while less(&zero, &remaining)
        invariant
            radix >= 2,
            integer_value(zero) == 0,
            digits_of(integer_value(x), radix as int) == digits_of(
                integer_value(remaining),
                radix as int,
            ) + numbers(vec@).reverse(),
        decreases integer_value(remaining),
    {
        let ghost before = integer_value(remaining);
        let ghost taken = numbers(vec@);
        let mut quot = small_to_large(radix);
        div_rem_mut(&mut remaining, &mut quot);
        proof {
            lemma_mod_bound(before, radix as int);
            lemma_small_mod((before % (radix as int)) as nat, 256);
            lemma_div_decreases(before, radix as int);
            lemma_div_pos_is_pos(before, radix as int);
        }
        let digit = large_to_small(quot);
        vec.push(digit);
        proof {
            let rest = digits_of(before / (radix as int), radix as int);
            assert(numbers(vec@) =~= taken.push(digit as int));
            assert(numbers(vec@).reverse() =~= seq![digit as int] + taken.reverse());
            assert(rest.push(digit as int) + taken.reverse() =~= rest + (seq![digit as int]
                + taken.reverse()));
        }
    }
    let list = reversed(vec);
    proof {
        assert(numbers(list@) =~= numbers(vec@).reverse());
        assert(digits_of(integer_value(remaining), radix as int) =~= Seq::<int>::empty());
        assert(Seq::<int>::empty() + numbers(vec@).reverse() =~= numbers(vec@).reverse());
    }
    list
}

/// The product of the digits of `x` in `radix`.
pub fn digit_product(x: LargeInt, radix: SmallInt) -> (result: LargeInt)
    requires
        radix >= 2,
    ensures
        integer_value(result) == digit_product_of(integer_value(x), radix as int),
{
    let list = digits(x, radix);
    let ghost all = numbers(list@);
    let mut result = small_to_large(1);
    let mut i: usize = 0;
    proof {
        assert(all.take(0) =~= Seq::<int>::empty());
    }
    while i < list.len()
        invariant
            i <= list@.len(),
            all == numbers(list@),
            integer_value(result) == product_of(all.take(i as int)),
        decreases list@.len() - i,
    {
        let digit = small_to_large(list[i]);
        result = multiply(result, &digit);
        proof {
            assert(all.take(i + 1).drop_last() =~= all.take(i as int));
            assert(all.take(i + 1).last() == list@[i as int]);
        }
        i += 1;
    }
    proof {
        assert(all.take(i as int) =~= all);
    }
    result
}

/// The resistance of `x` in `radix`: the count of digit-product steps that
/// bring it below the radix.
pub fn resistance(x: &LargeInt, radix: SmallInt) -> (steps: Resistance)
    requires
        radix >= 2,
    ensures
        steps == held_resistance(resistance_of(integer_value(*x), radix as int)),
{
    let mut res: Resistance = 0;
    let mut remaining = duplicate(x);
    let base = small_to_large(radix);
    let ghost total = resistance_of(integer_value(*x), radix as int);
    while !less(&remaining, &base)
        invariant
            radix >= 2,
            integer_value(base) == radix,
            total >= resistance_of(integer_value(remaining), radix as int),
            res == held_resistance(
                (total - resistance_of(integer_value(remaining), radix as int)) as nat,
            ),
        decreases integer_value(remaining),
    {
        proof {
            lemma_digit_product_bounds(integer_value(remaining), radix as int);
        }
        remaining = digit_product(remaining, radix);
        if res < Resistance::MAX {
            res += 1;
        }
    }
    res
}

} // verus!
