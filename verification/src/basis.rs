//! The prime basis of a radix, and the factorizer over it.

use crate::large::SmallInt;
use crate::primality::{
    candidate_value, factorization, is_prime, lemma_factorization_value,
    lemma_multiplicity_bound, lemma_multiplicity_other, lemma_prime_basis,
    lemma_prime_basis_distinct, lemma_prime_index_unique, lemma_primes_below_monotone,
    multiplicity, prime_basis, primes_below,
};
use crate::vectors::{empty_bins, exponents, numbers, Bins};
use primes::PrimeSet;
use vstd::arithmetic::div_mod::{
    lemma_div_decreases, lemma_div_pos_is_pos, lemma_fundamental_div_mod,
};
use vstd::prelude::*;

verus! {

/// Makes `primes::PrimeSet` known as a type whose inside is not looked at.
#[verifier::external_type_specification]
#[verifier::external_body]
pub struct ExPrimeSet(PrimeSet);

/// `PrimeSet::new` of the crate `primes`: a fresh generator of primes. Nothing
/// is claimed of what it holds.
#[verifier::external_body]
fn prime_generator() -> PrimeSet {
    PrimeSet::new()
}

/// `PrimeSet::get` of the crate `primes`: the prime at position `index` when
/// the primes are counted upwards from position 0, which is the prime that has
/// `index` primes below it. Claimed for the first 256 positions only, where
/// the generator's arithmetic is far from its limits.
#[verifier::external_body]
fn nth_prime(generator: &mut PrimeSet, index: usize) -> (p: u64)
    requires
        index <= 255,
    ensures
        is_prime(p as int),
        primes_below(p as int) == index,
{
    generator.get(index)
}

/// Below a number from 2 on there are at least two numbers that are no primes.
pub proof fn lemma_primes_below_bound(n: int)
    requires
        n >= 2,
    ensures
        primes_below(n) + 2 <= n,
    decreases n,
{
    if n == 2 {
        reveal_with_fuel(primes_below, 3);
    } else {
        lemma_primes_below_bound(n - 1);
    }
}

/// The primes up to a radix, in increasing order. The position of a prime in
/// it is the slot of that prime in every exponent vector.
pub struct PrimeBasis {
    radix: SmallInt,
    primes: Vec<SmallInt>,
}

impl View for PrimeBasis {
    type V = int;

    /// A basis stands for its radix.
    closed spec fn view(&self) -> int {
        self.radix as int
    }
}

impl PrimeBasis {
    /// The radix is at least 3, and the list holds exactly the primes up to it.
    pub closed spec fn wf(&self) -> bool {
        self.radix >= 3 && numbers(self.primes@) == prime_basis(self.radix as int)
    }

    /// The radix of a well-formed basis lies between 3 and 255.
    pub proof fn lemma_radix_range(&self)
        requires
            self.wf(),
        ensures
            3 <= self@ <= 255,
    {
    }

    /// The basis of `radix`.
    pub fn new(radix: SmallInt) -> (basis: PrimeBasis)
        requires
            radix >= 3,
        ensures
            basis.wf(),
            basis@ == radix,
    {
        let mut generator = prime_generator();
        let mut primes: Vec<SmallInt> = Vec::new();
        let mut p = nth_prime(&mut generator, 0);
        while p <= radix as u64
            invariant
                primes@.len() + 1 <= radix,
                is_prime(p as int),
                primes_below(p as int) == primes@.len(),
                forall|j: int|
                    0 <= j < primes@.len() ==> is_prime(#[trigger] primes@[j] as int) && primes@[j]
                        <= radix && primes_below(primes@[j] as int) == j,
            decreases radix - primes@.len(),
        {
            proof {
                lemma_primes_below_bound(p as int);
            }
            primes.push(p as u8);
            p = nth_prime(&mut generator, primes.len());
        }
        proof {
            let found = numbers(primes@);
            let all = prime_basis(radix as int);
            let count = primes@.len() as int;
            lemma_prime_basis(radix as int);
            lemma_primes_below_monotone(radix + 1, p as int);
            if count > 0 {
                let last = primes@[count - 1] as int;
                assert(is_prime(last));
                assert(primes_below(last + 1) == count);
                lemma_primes_below_monotone(last + 1, radix + 1);
            }
            assert(all.len() == count);
            assert forall|j: int| 0 <= j < count implies found[j] == all[j] by {
                assert(is_prime(primes@[j] as int));
                lemma_prime_index_unique(found[j], all[j]);
            }
            assert(found =~= all);
        }
        PrimeBasis { radix, primes }
    }

    /// The radix.
    pub fn radix(&self) -> (radix: SmallInt)
        ensures
            radix == self@,
    {
        self.radix
    }

    /// The primes of the basis, in increasing order.
    pub fn primes(&self) -> (primes: &Vec<SmallInt>)
        requires
            self.wf(),
        ensures
            numbers(primes@) == prime_basis(self@),
    {
        &self.primes
    }

    /// The number of primes in the basis: the length of every exponent vector.
    pub fn slots(&self) -> (slots: usize)
        requires
            self.wf(),
        ensures
            slots == prime_basis(self@).len(),
            slots >= 2,
    {
        proof {
            assert(numbers(self.primes@).len() == self.primes@.len());
            lemma_basis_holds_two_and_three(self.radix as int);
        }
        self.primes.len()
    }
}

/// From radix 3 on the basis starts with 2 and 3.
pub proof fn lemma_basis_holds_two_and_three(radix: int)
    requires
        radix >= 3,
    ensures
        prime_basis(radix).len() >= 2,
        prime_basis(radix)[0] == 2,
        prime_basis(radix)[1] == 3,
    decreases radix,
{
    if radix == 3 {
        reveal_with_fuel(prime_basis, 4);
        assert(is_prime(2));
        assert(is_prime(3)) by {
            assert forall|d: int| 2 <= d < 3 implies #[trigger] (3int % d) != 0 by {
                assert(d == 2);
            }
        }
        assert(prime_basis(1) =~= Seq::<int>::empty());
    } else {
        lemma_basis_holds_two_and_three(radix - 1);
    }
}

/// The exponent vector of `x` over the basis: how often each prime of the
/// basis divides `x`. For `x` up to the radix the vector stands for `x`.
pub fn factor(basis: &PrimeBasis, x: SmallInt) -> (bins: Bins)
    requires
        basis.wf(),
        x >= 1,
    ensures
        exponents(bins@) == factorization(x as int, basis@),
        x <= basis@ ==> candidate_value(exponents(bins@), basis@) == x,
{
    let slots = basis.primes.len();
    let ghost all = prime_basis(basis@);
    let mut remaining = x;
    let mut bins = empty_bins(slots);
    let mut i: usize = 0;
    proof {
        lemma_prime_basis(basis@);
        assert(numbers(basis.primes@).len() == slots);
        assert forall|j: int| 0 <= j < slots implies bins@[j] == 0 by {
            assert(exponents(bins@)[j] == 0);
        }
    }
    while i < slots
        invariant
            basis.wf(),
            all == prime_basis(basis@),
            slots == basis.primes@.len(),
            slots == all.len(),
            slots == bins@.len(),
            i <= slots,
            1 <= remaining <= x,
            forall|j: int| 0 <= j < i ==> #[trigger] bins@[j] == multiplicity(all[j], x as int),
            forall|j: int| i <= j < slots ==> #[trigger] bins@[j] == 0,
            forall|j: int|
                i <= j < slots ==> multiplicity(#[trigger] all[j], remaining as int)
                    == multiplicity(all[j], x as int),
        decreases slots - i,
    {
        let p = basis.primes[i];
        proof {
            lemma_prime_basis(basis@);
            assert(numbers(basis.primes@)[i as int] == p);
            assert(is_prime(all[i as int]));
            lemma_multiplicity_bound(p as int, x as int);
        }
        while remaining % p == 0
            invariant
                all == prime_basis(basis@),
                slots == all.len(),
                slots == bins@.len(),
                i < slots,
                p == all[i as int],
                is_prime(p as int),
                1 <= remaining <= x,
                multiplicity(p as int, x as int) < x,
                bins@[i as int] + multiplicity(p as int, remaining as int) == multiplicity(
                    p as int,
                    x as int,
                ),
                forall|j: int| 0 <= j < i ==> #[trigger] bins@[j] == multiplicity(all[j], x as int),
                forall|j: int| i < j < slots ==> #[trigger] bins@[j] == 0,
                forall|j: int|
                    i < j < slots ==> multiplicity(#[trigger] all[j], remaining as int)
                        == multiplicity(all[j], x as int),
            decreases remaining,
        {
            let ghost before = remaining as int;
            remaining = remaining / p;
            proof {
                lemma_fundamental_div_mod(before, p as int);
                lemma_div_decreases(before, p as int);
                lemma_div_pos_is_pos(before, p as int);
                assert(before == remaining * p) by (nonlinear_arith)
                    requires
                        before == p * (before / (p as int)) + 0,
                        remaining == before / (p as int),
                ;
                assert(remaining >= 1) by (nonlinear_arith)
                    requires
                        before == remaining * p,
                        before >= 1,
                        remaining >= 0,
                ;
                lemma_prime_basis(basis@);
                assert forall|j: int| i < j < slots implies multiplicity(
                    #[trigger] all[j],
                    remaining as int,
                ) == multiplicity(all[j], x as int) by {
                    lemma_prime_basis_distinct(basis@, i as int, j);
                    lemma_multiplicity_other(all[j], p as int, remaining as int);
                }
            }
            let raised = bins[i] + 1;
            bins.set(i, raised);
        }
        i += 1;
    }
    proof {
        assert(exponents(bins@) =~= factorization(x as int, basis@));
        if x <= basis@ {
            lemma_factorization_value(x as int, basis@);
        }
    }
    bins
}

} // verus!
