//! The search: weight after weight, every exponent vector is either
//! discriminated at once or tested for its resistance, and the best result so
//! far is kept together with the smallest number that was assembled for it.

use crate::assemble::{assemble, assembled_value};
use crate::basis::{factor, lemma_basis_holds_two_and_three, PrimeBasis};
use crate::digits::{
    digit_product_of, held_resistance, lemma_digit_product_step, resistance, resistance_of,
    Resistance,
};
use crate::large::{integer_value, less, multiply, power, small_to_large, LargeInt, SmallInt};
use crate::primality::{
    candidate_value, factorization, lemma_factorization_value, lemma_power_product_plus,
    lemma_power_product_positive, lemma_prime_basis, power_product, prime_basis,
};
use crate::stars_bars::{
    composition_count, first_vector, is_last_vector, lemma_rank_bound, lemma_rank_successor,
    lemma_successor_weight, rank, successor, StarsBars,
};
use crate::vectors::{covers, divides, exponents, minus, numbers, plus, weight, Bins};
use vstd::arithmetic::div_mod::lemma_mod_multiples_basic;
use vstd::arithmetic::power::{lemma_pow0, lemma_pow_adds, pow};
use vstd::prelude::*;

verus! {

/// What the search made of one exponent vector.
#[derive(Clone, Copy, Debug, PartialEq, Eq, Structural)]
pub enum Verdict {
    /// The vector holds the factors of the radix and was not tested.
    Discriminated,
    /// The vector was tested and the record stands.
    NoRecord,
    /// The resistance of the vector is above the record.
    NewMax,
    /// The resistance equals the record, and the assembled number is smaller.
    BetterAssembly,
}

/// What a search stands for.
pub struct SearchState {
    /// The radix.
    pub radix: int,
    /// The weight at which the search ends, itself excluded.
    pub bound: nat,
    /// The weight of the vectors that are being enumerated.
    pub weight: nat,
    /// The vector that is looked at next.
    pub bins: Seq<nat>,
    /// The highest resistance found.
    pub best: Resistance,
    /// The smallest number assembled for a vector of that resistance.
    pub assembled: int,
    /// How many vectors have been looked at.
    pub tested: nat,
    /// How many of them were discriminated.
    pub discriminated: nat,
}

/// A count after one more event, as a counter of 64 bits holds it: it stays
/// where it is once it is full.
pub open spec fn counted(count: nat) -> nat {
    if count < u64::MAX {
        count + 1
    } else {
        count
    }
}

/// The resistance that the search records for a vector: that of the number the
/// vector stands for, and one step more for the step from an assembled number
/// to that number.
pub open spec fn candidate_resistance(bins: Seq<nat>, radix: int) -> Resistance {
    held_resistance(resistance_of(candidate_value(bins, radix), radix) + 1)
}

/// The verdict on the vector that is looked at next.
pub open spec fn verdict_of(s: SearchState) -> Verdict {
    if covers(s.bins, factorization(s.radix, s.radix)) {
        Verdict::Discriminated
    } else if candidate_resistance(s.bins, s.radix) > s.best {
        Verdict::NewMax
    } else if candidate_resistance(s.bins, s.radix) == s.best && assembled_value(s.bins, s.radix)
        < s.assembled {
        Verdict::BetterAssembly
    } else {
        Verdict::NoRecord
    }
}

/// The search after it has looked at one vector.
pub open spec fn advanced(s: SearchState) -> SearchState {
    let verdict = verdict_of(s);
    SearchState {
        radix: s.radix,
        bound: s.bound,
        weight: if is_last_vector(s.bins) {
            s.weight + 1
        } else {
            s.weight
        },
        bins: if is_last_vector(s.bins) {
            first_vector(s.weight + 1, s.bins.len())
        } else {
            successor(s.bins)
        },
        best: if verdict == Verdict::NewMax {
            candidate_resistance(s.bins, s.radix)
        } else {
            s.best
        },
        assembled: if verdict == Verdict::NewMax || verdict == Verdict::BetterAssembly {
            assembled_value(s.bins, s.radix)
        } else {
            s.assembled
        },
        tested: counted(s.tested),
        discriminated: if verdict == Verdict::Discriminated {
            counted(s.discriminated)
        } else {
            s.discriminated
        },
    }
}

/// The search after it has looked at every vector below its bound.
pub open spec fn completed(s: SearchState) -> SearchState
    recommends
        s.bins.len() >= 1,
        weight(s.bins) == s.weight,
    decreases s.bound - s.weight, composition_count(s.weight, s.bins.len()) - rank(s.bins),
    when s.bins.len() >= 1 && weight(s.bins) == s.weight
    via completed_decreases
{
    if s.weight >= s.bound {
        s
    } else {
        completed(advanced(s))
    }
}

#[via_fn]
proof fn completed_decreases(s: SearchState) {
    if s.weight < s.bound {
        lemma_advanced_is_closer(s);
    }
}

/// One step brings a search closer to its end: the weight rises, or the
/// vector moves up in the order of its weight.
pub proof fn lemma_advanced_is_closer(s: SearchState)
    requires
        s.bins.len() >= 1,
        weight(s.bins) == s.weight,
    ensures
        advanced(s).bins.len() == s.bins.len(),
        weight(advanced(s).bins) == advanced(s).weight,
        advanced(s).weight == s.weight + 1 || (advanced(s).weight == s.weight && rank(s.bins)
            < rank(advanced(s).bins) < composition_count(s.weight, s.bins.len())),
{
    if is_last_vector(s.bins) {
        lemma_first_has_weight(s.weight + 1, s.bins.len());
    } else {
        lemma_successor_weight(s.bins);
        lemma_rank_successor(s.bins);
        lemma_rank_bound(successor(s.bins));
    }
}

/// A vector that holds the factors of the radix stands for a multiple of the
/// radix. Such a number ends in the digit 0, so its digit product is 0, which
/// every number divides, and its resistance is 1.
pub proof fn lemma_discriminated_collapses(v: Seq<nat>, radix: int)
    requires
        radix >= 2,
        v.len() == prime_basis(radix).len(),
        covers(v, factorization(radix, radix)),
    ensures
        candidate_value(v, radix) >= radix,
        candidate_value(v, radix) % radix == 0,
        digit_product_of(candidate_value(v, radix), radix) == 0,
        digit_product_of(candidate_value(v, radix), radix) % radix == 0,
        resistance_of(candidate_value(v, radix), radix) == 1,
{
    let primes = prime_basis(radix);
    let k = primes.len();
    let own = factorization(radix, radix);
    let rest = minus(v, own);
    lemma_prime_basis(radix);
    lemma_factorization_value(radix, radix);
    assert(plus(own, rest) =~= v);
    lemma_power_product_plus(primes, own, rest, k);
    lemma_power_product_positive(primes, rest, k);
    let c = candidate_value(v, radix);
    let m = power_product(primes, rest, k);
    assert(c == m * radix) by (nonlinear_arith)
        requires
            c == radix * m,
    ;
    assert(c >= radix) by (nonlinear_arith)
        requires
            c == m * radix,
            m >= 1,
            radix >= 2,
    ;
    lemma_mod_multiples_basic(m, radix);
    lemma_digit_product_step(c, radix);
    assert(digit_product_of(c / radix, radix) * 0 == 0) by (nonlinear_arith);
    reveal_with_fuel(resistance_of, 2);
}

/// `p` raised to `exponent`, which is taken in pieces that a `u32` can hold.
fn prime_power(p: SmallInt, exponent: usize) -> (raised: LargeInt)
    ensures
        integer_value(raised) == pow(p as int, exponent as nat),
{
    let mut raised = small_to_large(1);
    let mut left = exponent;
    proof {
        lemma_pow0(p as int);
        assert(1 * pow(p as int, exponent as nat) == pow(p as int, exponent as nat));
    }
    while left > 0xffff_ffff
        invariant
            left <= exponent,
            integer_value(raised) * pow(p as int, left as nat) == pow(p as int, exponent as nat),
        decreases left,
    {
        let ghost so_far = integer_value(raised);
        let chunk = power(small_to_large(p), 0xffff_ffff);
        raised = multiply(raised, &chunk);
        left = left - 0xffff_ffff;
        proof {
            lemma_pow_adds(p as int, 0xffff_ffff, left as nat);
            let a = pow(p as int, 0xffff_ffff);
            let b = pow(p as int, left as nat);
            assert((so_far * a) * b == so_far * (a * b)) by (nonlinear_arith);
        }
    }
    let chunk = power(small_to_large(p), left as u32);
    raised = multiply(raised, &chunk);
    raised
}

/// The number that `bins` stands for over the basis: the product of the primes
/// of the basis, each raised to its exponent.
pub fn candidate(basis: &PrimeBasis, bins: &Bins) -> (value: LargeInt)
    requires
        basis.wf(),
        bins@.len() == prime_basis(basis@).len(),
    ensures
        integer_value(value) == candidate_value(exponents(bins@), basis@),
{
    let primes = basis.primes();
    let ghost all = prime_basis(basis@);
    let ghost e = exponents(bins@);
    let mut a = small_to_large(1);
    let mut i: usize = 0;
    proof {
        assert(numbers(primes@).len() == primes@.len());
    }
    while i < bins.len()
        invariant
            i <= bins@.len(),
            all == prime_basis(basis@),
            all == numbers(primes@),
            primes@.len() == bins@.len(),
            e == exponents(bins@),
            integer_value(a) == power_product(all, e, i as nat),
        decreases bins@.len() - i,
    {
        let raised = prime_power(primes[i], bins[i]);
        a = multiply(a, &raised);
        i += 1;
    }
    a
}

/// A search over the exponent vectors of a basis.
pub struct Search {
    basis: PrimeBasis,
    base_factors: Bins,
    bound: usize,
    weight: usize,
    walker: StarsBars,
    max_res: Resistance,
    assembled_max: LargeInt,
    iterations: u64,
    discriminations: u64,
}

impl View for Search {
    type V = SearchState;

    closed spec fn view(&self) -> SearchState {
        SearchState {
            radix: self.basis@,
            bound: self.bound as nat,
            weight: self.weight as nat,
            bins: self.walker@.bins,
            best: self.max_res,
            assembled: integer_value(self.assembled_max),
            tested: self.iterations as nat,
            discriminated: self.discriminations as nat,
        }
    }
}

impl Search {
    /// The basis is well formed, the factors of the radix are at hand, and the
    /// enumerator stands at a vector of the current weight.
    pub closed spec fn wf(&self) -> bool {
        &&& self.basis.wf()
        &&& exponents(self.base_factors@) == factorization(self.basis@, self.basis@)
        &&& self.walker.wf()
        &&& !self.walker@.finished
        &&& self.walker@.bins.len() == prime_basis(self.basis@).len()
        &&& weight(self.walker@.bins) == self.weight
    }

    /// What holds of every well-formed search.
    pub proof fn lemma_wf(&self)
        requires
            self.wf(),
        ensures
            3 <= self@.radix <= 255,
            self@.bins.len() == prime_basis(self@.radix).len(),
            self@.bins.len() >= 2,
            weight(self@.bins) == self@.weight,
            self@.bound <= usize::MAX,
            self@.tested <= u64::MAX,
            self@.discriminated <= u64::MAX,
    {
        self.basis.lemma_radix_range();
        lemma_basis_holds_two_and_three(self.basis@);
    }

    /// A search over `basis` that starts at weight 1 with nothing found and
    /// ends before the weight `bound`. With the largest `usize` as bound the
    /// search has, for all that a machine can do, no end.
    pub fn new(basis: PrimeBasis, bound: usize) -> (search: Search)
        requires
            basis.wf(),
        ensures
            search.wf(),
            search@ == (SearchState {
                radix: basis@,
                bound: bound as nat,
                weight: 1,
                bins: first_vector(1, prime_basis(basis@).len()),
                best: 0,
                assembled: 0,
                tested: 0,
                discriminated: 0,
            }),
    {
        let slots = basis.slots();
        let radix = basis.radix();
        let base_factors = factor(&basis, radix);
        let walker = StarsBars::from(1, slots);
        proof {
            walker.lemma_wf();
            lemma_first_has_weight(1, slots as nat);
        }
        Search {
            basis,
            base_factors,
            bound,
            weight: 1,
            walker,
            max_res: 0,
            assembled_max: small_to_large(0),
            iterations: 0,
            discriminations: 0,
        }
    }

    /// The basis of the search.
    pub fn basis(&self) -> (basis: &PrimeBasis)
        requires
            self.wf(),
        ensures
            basis.wf(),
            basis@ == self@.radix,
    {
        &self.basis
    }

    /// The weight of the vectors that are being enumerated.
    pub fn weight(&self) -> (weight: usize)
        ensures
            weight == self@.weight,
    {
        self.weight
    }

    /// The vector that is looked at next.
    pub fn pending(&self) -> (bins: Bins)
        ensures
            exponents(bins@) == self@.bins,
    {
        self.walker.peek()
    }

    /// The highest resistance found so far.
    pub fn best_resistance(&self) -> (best: Resistance)
        ensures
            best == self@.best,
    {
        self.max_res
    }

    /// The smallest number assembled so far for a vector of the highest
    /// resistance.
    pub fn best_assembly(&self) -> (assembled: &LargeInt)
        ensures
            integer_value(*assembled) == self@.assembled,
    {
        &self.assembled_max
    }

    /// How many vectors have been looked at.
    pub fn tested(&self) -> (tested: u64)
        ensures
            tested == self@.tested,
    {
        self.iterations
    }

    /// How many vectors have been discriminated.
    pub fn discriminated(&self) -> (discriminated: u64)
        ensures
            discriminated == self@.discriminated,
    {
        self.discriminations
    }

    /// Whether the search has reached its bound.
    pub fn is_done(&self) -> (done: bool)
        ensures
            done == (self@.weight >= self@.bound),
    {
        self.weight >= self.bound
    }

    /// Looks at one vector, unless the search has reached its bound: the
    /// vector is discriminated or tested, the record and the counters follow,
    /// and the search moves on to the next vector, of the next weight where
    /// this one was the last of its weight. The record never falls.
    pub fn step(&mut self) -> (outcome: Option<Verdict>)
        requires
            old(self).wf(),
        ensures
            final(self).wf(),
            old(self)@.weight >= old(self)@.bound ==> outcome.is_none() && final(self)@ == old(
                self,
            )@,
            old(self)@.weight < old(self)@.bound ==> outcome == Some(verdict_of(old(self)@))
                && final(self)@ == advanced(old(self)@),
            final(self)@.best >= old(self)@.best,
            final(self)@.best == old(self)@.best ==> final(self)@.assembled <= old(
                self,
            )@.assembled,
    {
        if self.weight >= self.bound {
            return None;
        }
        let ghost before = self@;
        let slots = self.basis.slots();
        let radix = self.basis.radix();
        proof {
            self.basis.lemma_radix_range();
            self.walker.lemma_wf();
        }
        let yielded = self.walker.next();
        let bins = yielded.unwrap();
        if self.walker.is_finished() {
            self.weight = self.weight + 1;
            self.walker = StarsBars::from(self.weight, slots);
            proof {
                lemma_first_has_weight(self.weight as nat, slots as nat);
            }
        } else {
            proof {
                lemma_successor_weight(before.bins);
            }
        }
        if self.iterations < u64::MAX {
            self.iterations = self.iterations + 1;
        }
        assert(bins@.len() == exponents(bins@).len());
        if divides(&bins, &self.base_factors) {
            if self.discriminations < u64::MAX {
                self.discriminations = self.discriminations + 1;
            }
            return Some(Verdict::Discriminated);
        }
        let a = candidate(&self.basis, &bins);
        let steps = resistance(&a, radix);
        let res = if steps < Resistance::MAX {
            steps + 1
        } else {
            steps
        };
        if res >= self.max_res {
            let assembled = assemble(&self.basis, &bins);
            if res > self.max_res {
                self.max_res = res;
                self.assembled_max = assembled;
                return Some(Verdict::NewMax);
            } else if less(&assembled, &self.assembled_max) {
                self.assembled_max = assembled;
                return Some(Verdict::BetterAssembly);
            }
        }
        Some(Verdict::NoRecord)
    }

    /// Looks at every vector that is left below the bound.
    pub fn run(&mut self)
        requires
            old(self).wf(),
        ensures
            final(self).wf(),
            final(self)@ == completed(old(self)@),
    {
        let ghost start = self@;
        proof {
            self.lemma_wf();
        }
        while !self.is_done()
            invariant
                self.wf(),
                completed(self@) == completed(start),
            decreases
                    self@.bound - self@.weight,
                    composition_count(self@.weight, self@.bins.len()) - rank(self@.bins),
        {
            proof {
                self.lemma_wf();
                lemma_advanced_is_closer(self@);
            }
            let _ = self.step();
        }
        proof {
            self.lemma_wf();
        }
    }
}

/// The first vector of a weight has that weight.
pub proof fn lemma_first_has_weight(n: nat, k: nat)
    requires
        k >= 1,
    ensures
        weight(first_vector(n, k)) == n,
{
    let v = first_vector(n, k);
    assert forall|i: int| 1 <= i < v.len() implies v[i] == 0 by {}
    crate::stars_bars::lemma_first_vector(v);
}

} // verus!
