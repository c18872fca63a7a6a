//! The assembler: from an exponent vector to a number whose digits, multiplied
//! together, give what the vector stands for. It writes the largest digit that
//! still fits into the lowest free place, as long as a digit fits.

use crate::basis::{factor, PrimeBasis};
use crate::large::{
    duplicate, integer_value, multiply, small_to_large, sum, LargeInt, SmallInt,
};
use crate::primality::{
    factorization, is_prime, lemma_least_prime_factor, lemma_prime_basis,
    lemma_prime_basis_distinct, lemma_prime_in_basis, lemma_primes_below_monotone,
    least_prime_factor, multiplicity, prime_basis, primes_below,
};
use crate::vectors::{
    covers, divides, exponents, lemma_prefix_weight_monotone, minus, plus, prefix_weight, weight,
    zeros, Bins,
};
use crate::digits::digits_of;
use vstd::arithmetic::div_mod::{
    lemma_div_by_self, lemma_fundamental_div_mod_converse, lemma_mod_self_0, lemma_small_mod,
};
use vstd::arithmetic::power::{lemma_pow0, lemma_pow_positive, pow};
use vstd::prelude::*;
use vstd::seq_lib::{to_multiset_build, to_multiset_contains, to_multiset_len, to_multiset_update};

verus! {

/// The number that a list of digits, most significant first, writes in `radix`.
pub open spec fn digits_value(list: Seq<int>, radix: int) -> int
    decreases list.len(),
{
    if list.len() == 0 {
        0
    } else {
        digits_value(list.drop_last(), radix) * radix + list.last()
    }
}

/// The digits that the assembler writes for `e` when it may use the digits
/// from `d` down to 2, most significant first: as long as the factors of `d`
/// fit into what is left, `d` is written into the lowest free place; then the
/// digits below `d` have their turn.
pub open spec fn assembled_digits(e: Seq<nat>, d: int, radix: int) -> Seq<int>
    recommends
        e.len() == prime_basis(radix).len(),
        d <= radix,
    decreases d, weight(e),
    when e.len() == prime_basis(radix).len() && d <= radix
    via assembled_digits_decreases
{
    if d < 2 {
        Seq::empty()
    } else if covers(e, factorization(d, radix)) {
        assembled_digits(minus(e, factorization(d, radix)), d, radix).push(d)
    } else {
        assembled_digits(e, d - 1, radix)
    }
}

#[via_fn]
proof fn assembled_digits_decreases(e: Seq<nat>, d: int, radix: int) {
    if d >= 2 && covers(e, factorization(d, radix)) {
        lemma_digit_has_factors(d, radix);
        lemma_minus_weight(e, factorization(d, radix), e.len());
    }
}

/// What the assembler leaves of `e` when it may use the digits from `d` down
/// to 2.
pub open spec fn leftover(e: Seq<nat>, d: int, radix: int) -> Seq<nat>
    recommends
        e.len() == prime_basis(radix).len(),
        d <= radix,
    decreases d, weight(e),
    when e.len() == prime_basis(radix).len() && d <= radix
    via leftover_decreases
{
    if d < 2 {
        e
    } else if covers(e, factorization(d, radix)) {
        leftover(minus(e, factorization(d, radix)), d, radix)
    } else {
        leftover(e, d - 1, radix)
    }
}

#[via_fn]
proof fn leftover_decreases(e: Seq<nat>, d: int, radix: int) {
    if d >= 2 && covers(e, factorization(d, radix)) {
        lemma_digit_has_factors(d, radix);
        lemma_minus_weight(e, factorization(d, radix), e.len());
    }
}

/// The number that the assembler returns for `e`: the one that its digits,
/// taken from `radix - 1` down to 2, write.
pub open spec fn assembled_value(e: Seq<nat>, radix: int) -> int {
    digits_value(assembled_digits(e, radix - 1, radix), radix)
}

/// The factors of all digits of a list together, as an exponent vector.
pub open spec fn digits_content(list: Seq<int>, radix: int) -> Seq<nat>
    decreases list.len(),
{
    if list.len() == 0 {
        zeros(prime_basis(radix).len())
    } else {
        plus(digits_content(list.drop_last(), radix), factorization(list.last(), radix))
    }
}

/// Taking `f` out of a vector that covers it lowers each prefix sum by that of `f`.
pub proof fn lemma_minus_weight(e: Seq<nat>, f: Seq<nat>, k: nat)
    requires
        e.len() == f.len(),
        k <= e.len(),
        covers(e, f),
    ensures
        prefix_weight(minus(e, f), k) + prefix_weight(f, k) == prefix_weight(e, k),
    decreases k,
{
    if k > 0 {
        lemma_minus_weight(e, f, (k - 1) as nat);
    }
}

/// A digit from 2 up to the radix has a factor in the basis.
pub proof fn lemma_digit_has_factors(d: int, radix: int)
    requires
        2 <= d <= radix,
    ensures
        factorization(d, radix).len() == prime_basis(radix).len(),
        weight(factorization(d, radix)) >= 1,
{
    let f = factorization(d, radix);
    lemma_least_prime_factor(d);
    let q = least_prime_factor(d);
    lemma_prime_in_basis(q, radix);
    let i = primes_below(q) as int;
    assert(f[i] == multiplicity(q, d));
    assert(f[i] >= 1);
    lemma_prefix_weight_monotone(f, (i + 1) as nat, f.len());
}

/// The digits that the assembler writes lie between 2 and the largest digit
/// it may use, and none is above one in a lower place.
pub proof fn lemma_assembled_digits_ascend(e: Seq<nat>, d: int, radix: int)
    requires
        e.len() == prime_basis(radix).len(),
        d <= radix,
    ensures
        forall|i: int|
            0 <= i < assembled_digits(e, d, radix).len() ==> 2 <= #[trigger] assembled_digits(
                e,
                d,
                radix,
            )[i] <= d,
        forall|i: int, j: int|
            0 <= i <= j < assembled_digits(e, d, radix).len() ==> assembled_digits(e, d, radix)[i]
                <= assembled_digits(e, d, radix)[j],
    decreases d, weight(e),
{
    if d >= 2 {
        let f = factorization(d, radix);
        if covers(e, f) {
            lemma_digit_has_factors(d, radix);
            lemma_minus_weight(e, f, e.len());
            lemma_assembled_digits_ascend(minus(e, f), d, radix);
            let rest = assembled_digits(minus(e, f), d, radix);
            let all = assembled_digits(e, d, radix);
            assert(all == rest.push(d));
            assert forall|i: int| 0 <= i < all.len() implies 2 <= #[trigger] all[i] <= d by {
                if i < rest.len() {
                    assert(all[i] == rest[i]);
                }
            }
            assert forall|i: int, j: int| 0 <= i <= j < all.len() implies all[i] <= all[j] by {
                if j < rest.len() {
                    assert(all[i] == rest[i] && all[j] == rest[j]);
                } else if i < rest.len() {
                    assert(all[i] == rest[i]);
                }
            }
        } else {
            lemma_assembled_digits_ascend(e, d - 1, radix);
            let all = assembled_digits(e, d, radix);
            assert(all == assembled_digits(e, d - 1, radix));
            assert forall|i: int| 0 <= i < all.len() implies 2 <= #[trigger] all[i] <= d by {
                assert(all[i] <= d - 1);
            }
        }
    }
}

/// The factors of the digits that the assembler writes, and what it leaves,
/// make up the vector.
pub proof fn lemma_assembly_accounts(e: Seq<nat>, d: int, radix: int)
    requires
        e.len() == prime_basis(radix).len(),
        d <= radix,
    ensures
        digits_content(assembled_digits(e, d, radix), radix).len() == e.len(),
        leftover(e, d, radix).len() == e.len(),
        plus(digits_content(assembled_digits(e, d, radix), radix), leftover(e, d, radix)) == e,
    decreases d, weight(e),
{
    if d >= 2 {
        let f = factorization(d, radix);
        if covers(e, f) {
            lemma_digit_has_factors(d, radix);
            lemma_minus_weight(e, f, e.len());
            let less = minus(e, f);
            lemma_assembly_accounts(less, d, radix);
            let rest = assembled_digits(less, d, radix);
            assert(rest.push(d).drop_last() =~= rest);
            assert(plus(digits_content(rest.push(d), radix), leftover(e, d, radix)) =~= e) by {
                let held = plus(digits_content(rest, radix), leftover(less, d, radix));
                assert forall|i: int| 0 <= i < e.len() implies plus(
                    digits_content(rest.push(d), radix),
                    leftover(e, d, radix),
                )[i] == e[i] by {
                    assert(held[i] == less[i]);
                }
            }
        } else {
            lemma_assembly_accounts(e, d - 1, radix);
        }
    } else {
        assert(plus(zeros(e.len()), e) =~= e);
    }
}

/// The factorization of a prime of the basis has a 1 in the slot of that prime
/// and nothing else.
pub proof fn lemma_prime_digit(slot: int, radix: int)
    requires
        0 <= slot < prime_basis(radix).len(),
    ensures
        factorization(prime_basis(radix)[slot], radix).len() == prime_basis(radix).len(),
        forall|i: int|
            0 <= i < prime_basis(radix).len() ==> #[trigger] factorization(
                prime_basis(radix)[slot],
                radix,
            )[i] == if i == slot {
                1nat
            } else {
                0nat
            },
{
    let primes = prime_basis(radix);
    let p = primes[slot];
    let f = factorization(p, radix);
    lemma_prime_basis(radix);
    assert forall|i: int| 0 <= i < primes.len() implies #[trigger] f[i] == if i == slot {
        1nat
    } else {
        0nat
    } by {
        let q = primes[i];
        if i == slot {
            lemma_mod_self_0(p);
            lemma_div_by_self(p);
            lemma_small_mod(1, p as nat);
            reveal_with_fuel(multiplicity, 2);
        } else {
            lemma_prime_basis_distinct(radix, i, slot);
            if q > p {
                lemma_small_mod(p as nat, q as nat);
            }
        }
    }
}

/// The assembler leaves nothing of a prime that is itself a digit it may use.
pub proof fn lemma_leftover_primes(e: Seq<nat>, d: int, radix: int)
    requires
        e.len() == prime_basis(radix).len(),
        d <= radix,
    ensures
        leftover(e, d, radix).len() == e.len(),
        forall|i: int|
            0 <= i < e.len() && prime_basis(radix)[i] <= d ==> #[trigger] leftover(e, d, radix)[i]
                == 0,
    decreases d, weight(e),
{
    lemma_assembly_accounts(e, d, radix);
    if d >= 2 {
        let f = factorization(d, radix);
        if covers(e, f) {
            lemma_digit_has_factors(d, radix);
            lemma_minus_weight(e, f, e.len());
            lemma_leftover_primes(minus(e, f), d, radix);
        } else {
            lemma_leftover_primes(e, d - 1, radix);
            lemma_assembly_accounts(e, d - 1, radix);
            let left = leftover(e, d - 1, radix);
            let held = plus(digits_content(assembled_digits(e, d - 1, radix), radix), left);
            assert forall|i: int| 0 <= i < e.len() && prime_basis(radix)[i] == d implies left[i]
                == 0 by {
                lemma_prime_digit(i, radix);
                lemma_prime_basis(radix);
                assert(e[i] == 0) by {
                    if e[i] > 0 {
                        assert forall|t: int| 0 <= t < e.len() && t < f.len() implies e[t]
                            >= f[t] by {
                            if t != i {
                                assert(f[t] == 0);
                            } else {
                                assert(f[t] == 1);
                            }
                        }
                    }
                }
                assert(held[i] == e[i]);
            }
        }
    } else {
        lemma_prime_basis(radix);
    }
}

/// Over a radix that is no prime the assembler leaves nothing; over a prime
/// radix it leaves the exponent of the radix and nothing else.
pub proof fn lemma_leftover(e: Seq<nat>, radix: int)
    requires
        radix >= 3,
        e.len() == prime_basis(radix).len(),
    ensures
        !is_prime(radix) ==> leftover(e, radix - 1, radix) == zeros(e.len()),
        is_prime(radix) ==> leftover(e, radix - 1, radix) == zeros(e.len()).update(
            e.len() - 1,
            e.last(),
        ),
{
    let left = leftover(e, radix - 1, radix);
    let primes = prime_basis(radix);
    let k = e.len() as int;
    lemma_leftover_primes(e, radix - 1, radix);
    lemma_prime_basis(radix);
    if is_prime(radix) {
        lemma_prime_in_basis(radix, radix);
        let slot = primes_below(radix) as int;
        assert(slot == k - 1) by {
            if slot < k - 1 {
                lemma_primes_below_monotone(radix + 1, primes[k - 1]);
            }
        }
        lemma_assembly_accounts(e, radix - 1, radix);
        lemma_assembled_digits_ascend(e, radix - 1, radix);
        lemma_digits_without_prime(assembled_digits(e, radix - 1, radix), slot, radix);
        let held = plus(digits_content(assembled_digits(e, radix - 1, radix), radix), left);
        assert(held[slot] == e[slot]);
        assert forall|i: int| 0 <= i < k implies left[i] == zeros(e.len()).update(
            k - 1,
            e.last(),
        )[i] by {
            if i < k - 1 {
                lemma_prime_basis_distinct(radix, i, slot);
                assert(primes[i] <= radix - 1);
            }
        }
        assert(left =~= zeros(e.len()).update(k - 1, e.last()));
    } else {
        assert forall|i: int| 0 <= i < k implies left[i] == 0 by {
            assert(is_prime(primes[i]));
            assert(primes[i] <= radix - 1);
        }
        assert(left =~= zeros(e.len()));
    }
}

/// Digits below a prime of the basis hold nothing of that prime.
pub proof fn lemma_digits_without_prime(list: Seq<int>, slot: int, radix: int)
    requires
        0 <= slot < prime_basis(radix).len(),
        forall|i: int| 0 <= i < list.len() ==> 1 <= #[trigger] list[i] < prime_basis(radix)[slot],
    ensures
        digits_content(list, radix).len() == prime_basis(radix).len(),
        digits_content(list, radix)[slot] == 0,
    decreases list.len(),
{
    if list.len() > 0 {
        lemma_digits_without_prime(list.drop_last(), slot, radix);
        lemma_prime_basis(radix);
        lemma_small_mod(list.last() as nat, prime_basis(radix)[slot] as nat);
    }
}

/// A list of digits with no zero in front is the list of the digits of the
/// number that it writes.
pub proof fn lemma_digits_round_trip(list: Seq<int>, radix: int)
    requires
        radix >= 2,
        forall|i: int| 0 <= i < list.len() ==> 0 <= #[trigger] list[i] < radix,
        list.len() > 0 ==> list[0] > 0,
    ensures
        digits_value(list, radix) >= 0,
        list.len() > 0 ==> digits_value(list, radix) > 0,
        digits_of(digits_value(list, radix), radix) == list,
    decreases list.len(),
{
    if list.len() > 0 {
        let head = list.drop_last();
        let last = list.last();
        lemma_digits_round_trip(head, radix);
        let upper = digits_value(head, radix);
        let v = digits_value(list, radix);
        assert(upper * radix >= 0) by (nonlinear_arith)
            requires
                upper >= 0,
                radix >= 2,
        ;
        if head.len() > 0 {
            assert(upper * radix > 0) by (nonlinear_arith)
                requires
                    upper > 0,
                    radix >= 2,
            ;
        }
        assert(v == radix * upper + last) by (nonlinear_arith)
            requires
                v == upper * radix + last,
        ;
        lemma_fundamental_div_mod_converse(v, radix, upper, last);
        assert(digits_of(v, radix) =~= list);
    }
}

/// Where the assembler leaves nothing of a vector, the factors of the digits
/// of the number that it returns, taken together, are the vector again.
pub proof fn lemma_assembly_round_trip(e: Seq<nat>, radix: int)
    requires
        radix >= 3,
        e.len() == prime_basis(radix).len(),
        leftover(e, radix - 1, radix) == zeros(e.len()),
    ensures
        digits_content(digits_of(assembled_value(e, radix), radix), radix) == e,
{
    let written = assembled_digits(e, radix - 1, radix);
    lemma_assembled_digits_ascend(e, radix - 1, radix);
    lemma_digits_round_trip(written, radix);
    lemma_assembly_accounts(e, radix - 1, radix);
    assert(plus(digits_content(written, radix), zeros(e.len())) =~= digits_content(written, radix));
}

/// Another digit in one place changes the number by the difference of the
/// digits times the worth of the place.
pub proof fn lemma_digits_value_update(list: Seq<int>, j: int, x: int, radix: int)
    requires
        0 <= j < list.len(),
    ensures
        digits_value(list.update(j, x), radix) == digits_value(list, radix) + (x - list[j]) * pow(
            radix,
            (list.len() - 1 - j) as nat,
        ),
    decreases list.len(),
{
    let n = list.len();
    let head = list.drop_last();
    if j == n - 1 {
        assert(list.update(j, x).drop_last() =~= head);
        lemma_pow0(radix);
    } else {
        assert(list.update(j, x).drop_last() =~= head.update(j, x));
        lemma_digits_value_update(head, j, x, radix);
        let lower = pow(radix, (n - 2 - j) as nat);
        let higher = pow(radix, (n - 1 - j) as nat);
        assert(higher == radix * lower) by {
            reveal(pow);
        }
        let base = digits_value(head, radix);
        let delta = x - list[j];
        assert((base + delta * lower) * radix == base * radix + delta * higher) by (nonlinear_arith)
            requires
                higher == radix * lower,
        ;
    }
}

/// Of all lists that hold the digits of an ascending list, the ascending
/// list writes the least number.
pub proof fn lemma_ascending_is_least(list: Seq<int>, other: Seq<int>, radix: int)
    requires
        radix >= 1,
        forall|i: int, j: int| 0 <= i <= j < list.len() ==> list[i] <= list[j],
        other.to_multiset() == list.to_multiset(),
    ensures
        digits_value(list, radix) <= digits_value(other, radix),
    decreases list.len(),
{
    to_multiset_len(list);
    to_multiset_len(other);
    let n = list.len() as int;
    if n > 0 {
        let top = list.last();
        let low = other.last();
        to_multiset_contains(list, top);
        to_multiset_contains(other, top);
        to_multiset_contains(list, low);
        to_multiset_contains(other, low);
        assert(list.contains(top));
        assert(other.contains(low));
        let j = choose|j: int| 0 <= j < n && other[j] == top;
        assert(low <= top);
        let swapped = other.update(j, low).update(n - 1, top);
        assert(digits_value(swapped, radix) <= digits_value(other, radix)) by {
            if j < n - 1 {
                lemma_digits_value_update(other, j, low, radix);
                lemma_digits_value_update(other.update(j, low), n - 1, top, radix);
                lemma_pow0(radix);
                lemma_pow_positive(radix, (n - 1 - j) as nat);
                let worth = pow(radix, (n - 1 - j) as nat);
                assert((low - top) * worth + (top - low) * 1 <= 0) by (nonlinear_arith)
                    requires
                        low <= top,
                        worth >= 1,
                ;
            } else {
                assert(swapped =~= other);
            }
        }
        assert(swapped.to_multiset() =~= other.to_multiset()) by {
            to_multiset_update(other, j, low);
            to_multiset_update(other.update(j, low), n - 1, top);
        }
        let head = list.drop_last();
        let rest = swapped.drop_last();
        assert(rest.to_multiset() =~= head.to_multiset()) by {
            assert(head.push(top) =~= list);
            assert(rest.push(top) =~= swapped);
            to_multiset_build(head, top);
            to_multiset_build(rest, top);
            assert forall|x: int| rest.to_multiset().count(x) == head.to_multiset().count(x) by {
                assert(rest.to_multiset().insert(top).count(x) == head.to_multiset().insert(
                    top,
                ).count(x));
            }
        }
        lemma_ascending_is_least(head, rest, radix);
        let a = digits_value(head, radix);
        let b = digits_value(rest, radix);
        assert(a * radix <= b * radix) by (nonlinear_arith)
            requires
                a <= b,
                radix >= 1,
        ;
    } else {
        assert(other =~= Seq::<int>::empty());
    }
}

/// No other arrangement of the digits that the assembler writes gives a
/// smaller number than the one it returns.
pub proof fn lemma_assembly_minimal(e: Seq<nat>, radix: int, other: Seq<int>)
    requires
        radix >= 3,
        e.len() == prime_basis(radix).len(),
        other.to_multiset() == assembled_digits(e, radix - 1, radix).to_multiset(),
    ensures
        assembled_value(e, radix) <= digits_value(other, radix),
{
    lemma_assembled_digits_ascend(e, radix - 1, radix);
    lemma_ascending_is_least(assembled_digits(e, radix - 1, radix), other, radix);
}

/// The number that `xs` assembles to over the basis.
pub fn assemble(basis: &PrimeBasis, xs: &Bins) -> (result: LargeInt)
    requires
        basis.wf(),
        xs@.len() == prime_basis(basis@).len(),
    ensures
        integer_value(result) == assembled_value(exponents(xs@), basis@),
{
    let radix = basis.radix();
    let slots = xs.len();
    proof {
        basis.lemma_radix_range();
    }
    let ghost goal = assembled_value(exponents(xs@), basis@);
    let mut result = small_to_large(0);
    let mut mult = small_to_large(1);
    let base = small_to_large(radix);
    let mut bins = xs.clone();
    let mut i: SmallInt = radix - 1;
    proof {
        assert(integer_value(mult) * digits_value(
            assembled_digits(exponents(bins@), i as int, radix as int),
            radix as int,
        ) == goal) by (nonlinear_arith)
            requires
                integer_value(mult) == 1,
                digits_value(
                    assembled_digits(exponents(bins@), i as int, radix as int),
                    radix as int,
                ) == goal,
        ;
    }
    while i >= 2
        invariant
            basis.wf(),
            radix == basis@,
            integer_value(base) == radix,
            1 <= i < radix,
            slots == prime_basis(basis@).len(),
            bins@.len() == slots,
            integer_value(result) + integer_value(mult) * digits_value(
                assembled_digits(exponents(bins@), i as int, radix as int),
                radix as int,
            ) == goal,
        decreases i,
    {
        let factors = factor(basis, i);
        while divides(&bins, &factors)
            invariant
                basis.wf(),
                radix == basis@,
                integer_value(base) == radix,
                2 <= i < radix,
                slots == prime_basis(basis@).len(),
                bins@.len() == slots,
                exponents(factors@) == factorization(i as int, radix as int),
                integer_value(result) + integer_value(mult) * digits_value(
                    assembled_digits(exponents(bins@), i as int, radix as int),
                    radix as int,
                ) == goal,
            decreases weight(exponents(bins@)),
        {
            let ghost before = exponents(bins@);
            let ghost f = exponents(factors@);
            let ghost rest = assembled_digits(minus(before, f), i as int, radix as int);
            proof {
                assert(f.len() == slots);
                assert(factors@.len() == slots);
                assert(before.len() == slots);
                lemma_digit_has_factors(i as int, radix as int);
                lemma_minus_weight(before, f, slots as nat);
                assert(assembled_digits(before, i as int, radix as int) == rest.push(i as int));
                assert(rest.push(i as int).drop_last() =~= rest);
            }
            let ghost low = integer_value(result);
            let ghost place = integer_value(mult);
            let digit = small_to_large(i);
            let term = multiply(duplicate(&mult), &digit);
            result = sum(result, &term);
            mult = multiply(mult, &base);
            proof {
                let higher = digits_value(rest, radix as int);
                assert((low + place * i) + (place * radix) * higher == low + place * (higher * radix
                    + i)) by (nonlinear_arith);
            }
            let mut j: usize = 0;
            while j < slots
                invariant
                    j <= slots,
                    bins@.len() == slots,
                    factors@.len() == slots,
                    before.len() == slots,
                    f == exponents(factors@),
                    covers(before, f),
                    forall|t: int| 0 <= t < j ==> #[trigger] bins@[t] == before[t] - f[t],
                    forall|t: int| j <= t < slots ==> #[trigger] bins@[t] == before[t],
                decreases slots - j,
            {
                proof {
                    assert(f[j as int] == factors@[j as int]);
                    assert(before[j as int] >= f[j as int]);
                }
                let lowered = bins[j] - factors[j];
                bins.set(j, lowered);
                j += 1;
            }
            assert(exponents(bins@) =~= minus(before, f));
        }
        proof {
            assert(exponents(bins@).len() == slots);
        }
        i -= 1;
    }
    proof {
        assert(integer_value(mult) * 0 == 0) by (nonlinear_arith);
        assert(exponents(bins@).len() == slots);
    }
    result
}

} // verus!
