//! The enumerator of exponent vectors: every way to spread a weight over a
//! fixed number of slots, one vector at a time.

use crate::vectors::{
    empty_bins, exponents, lemma_prefix_weight_agrees, lemma_prefix_weight_monotone,
    lemma_prefix_weight_update, lemma_zeros_weight, prefix_weight, weight, zeros, Bins,
};
use vstd::prelude::*;

verus! {

/// The first vector of weight `n` over `k` slots: all weight in slot 0.
pub open spec fn first_vector(n: nat, k: nat) -> Seq<nat> {
    Seq::new(k, |i: int| if i == 0 { n } else { 0nat })
}

/// The first slot at or after `i` that is not zero, the last slot excepted;
/// the index of the last slot if there is none.
pub open spec fn pivot_from(v: Seq<nat>, i: int) -> int
    decreases v.len() - i,
{
    if i + 1 >= v.len() || v[i] != 0 {
        i
    } else {
        pivot_from(v, i + 1)
    }
}

/// The slot that gives one unit away in the step that follows `v`.
pub open spec fn pivot(v: Seq<nat>) -> int {
    pivot_from(v, 0)
}

/// Whether `v` is the last vector of its weight: everything sits in the last slot.
pub open spec fn is_last_vector(v: Seq<nat>) -> bool {
    pivot(v) + 1 >= v.len()
}

/// The vector that follows `v`: the pivot hands one unit to the slot after it,
/// and what the pivot keeps moves down to slot 0.
pub open spec fn successor(v: Seq<nat>) -> Seq<nat>
    recommends
        !is_last_vector(v),
{
    let i = pivot(v);
    v.update(i + 1, v[i + 1] + 1).update(i, 0).update(0, (v[i] - 1) as nat)
}

/// What an enumerator stands for: the vector it yields next, and whether it
/// has yielded its last.
pub struct Cursor {
    /// The vector that is yielded next; after the last vector, that vector.
    pub bins: Seq<nat>,
    /// Whether the last vector has been yielded.
    pub finished: bool,
}

/// Enumerates the vectors of one weight over a fixed number of slots.
pub struct StarsBars {
    bins: Bins,
    finished: bool,
}

impl View for StarsBars {
    type V = Cursor;

    closed spec fn view(&self) -> Cursor {
        Cursor { bins: exponents(self.bins@), finished: self.finished }
    }
}

/// The pivot lies within the vector, nothing before it is set, and it is set
/// itself unless it is the last slot.
pub proof fn lemma_pivot_from(v: Seq<nat>, i: int)
    requires
        0 <= i < v.len(),
    ensures
        i <= pivot_from(v, i) < v.len(),
        forall|j: int| i <= j < pivot_from(v, i) ==> v[j] == 0,
        pivot_from(v, i) + 1 < v.len() ==> v[pivot_from(v, i)] > 0,
    decreases v.len() - i,
{
    if !(i + 1 >= v.len() || v[i] != 0) {
        lemma_pivot_from(v, i + 1);
    }
}

/// A slot before the last that is set, with nothing set before it, is the pivot.
pub proof fn lemma_pivot_is(v: Seq<nat>, i: int, p: int)
    requires
        0 <= i <= p < v.len(),
        forall|j: int| i <= j < p ==> v[j] == 0,
        p + 1 == v.len() || v[p] > 0,
    ensures
        pivot_from(v, i) == p,
    decreases p - i,
{
    if i < p {
        lemma_pivot_is(v, i + 1, p);
    }
}

/// Two entries in different slots weigh no more than the whole vector.
pub proof fn lemma_two_slots(v: Seq<nat>, a: int, b: int)
    requires
        0 <= a < b < v.len(),
    ensures
        v[a] + v[b] <= weight(v),
{
    lemma_prefix_weight_monotone(v, (a + 1) as nat, b as nat);
    lemma_prefix_weight_monotone(v, (b + 1) as nat, v.len());
}

/// A step keeps the length and the weight.
pub proof fn lemma_successor_weight(v: Seq<nat>)
    requires
        v.len() >= 1,
        !is_last_vector(v),
    ensures
        successor(v).len() == v.len(),
        weight(successor(v)) == weight(v),
{
    let i = pivot(v);
    lemma_pivot_from(v, 0);
    let k = v.len();
    let a = v.update(i + 1, v[i + 1] + 1);
    let b = a.update(i, 0);
    lemma_prefix_weight_update(v, i + 1, v[i + 1] + 1, k);
    lemma_prefix_weight_update(a, i, 0, k);
    lemma_prefix_weight_update(b, 0, (v[i] - 1) as nat, k);
}

impl StarsBars {
    /// The vector has a slot, and its weight is one that `usize` can hold.
    pub closed spec fn wf(&self) -> bool {
        self.bins@.len() >= 1 && weight(exponents(self.bins@)) <= usize::MAX
    }

    /// A well-formed enumerator has at least one slot, and something left to
    /// yield unless it is finished.
    pub proof fn lemma_wf(&self)
        requires
            self.wf(),
        ensures
            self@.bins.len() >= 1,
            weight(self@.bins) <= usize::MAX,
            self@.finished <==> left_to_yield(self@) == 0,
    {
        lemma_rank_bound(self@.bins);
    }

    /// An enumerator of the vectors of weight `n` over `slots` slots, about to
    /// yield the first of them.
    pub fn from(n: usize, slots: usize) -> (fresh: StarsBars)
        requires
            slots >= 1,
        ensures
            fresh.wf(),
            fresh@.bins == first_vector(n as nat, slots as nat),
            !fresh@.finished,
            left_to_yield(fresh@) == composition_count(n as nat, slots as nat),
    {
        let mut vec = empty_bins(slots);
        let ghost blank = exponents(vec@);
        vec.set(0, n);
        proof {
            let v = exponents(vec@);
            assert forall|j: int| 0 <= j < slots implies v[j] == first_vector(
                n as nat,
                slots as nat,
            )[j] by {
                assert(blank[j] == 0);
            }
            assert(v =~= first_vector(n as nat, slots as nat));
            assert(v =~= zeros(slots as nat).update(0, n as nat));
            lemma_zeros_weight(slots as nat, slots as nat);
            lemma_prefix_weight_update(zeros(slots as nat), 0, n as nat, slots as nat);
            lemma_rank_first(n as nat, slots as nat);
        }
        StarsBars { bins: vec, finished: false }
    }

    /// The vector that is yielded next; after the last vector, that vector.
    pub fn peek(&self) -> (bins: Bins)
        ensures
            exponents(bins@) == self@.bins,
    {
        self.bins.clone()
    }

    /// Whether the last vector has been yielded.
    pub fn is_finished(&self) -> (finished: bool)
        ensures
            finished == self@.finished,
    {
        self.finished
    }

    /// Yields the current vector and moves to its successor; after the last
    /// vector the enumerator is finished and yields nothing more. Every yield
    /// leaves one vector less to yield.
    pub fn next(&mut self) -> (yielded: Option<Bins>)
        requires
            old(self).wf(),
        ensures
            final(self).wf(),
            old(self)@.finished ==> yielded.is_none() && final(self)@ == old(self)@,
            !old(self)@.finished ==> yielded.is_some() && exponents(yielded.unwrap()@) == old(
                self,
            )@.bins,
            !old(self)@.finished && is_last_vector(old(self)@.bins) ==> final(self)@.finished
                && final(self)@.bins == old(self)@.bins,
            !old(self)@.finished && !is_last_vector(old(self)@.bins) ==> !final(self)@.finished
                && final(self)@.bins == successor(old(self)@.bins),
            !old(self)@.finished ==> left_to_yield(final(self)@) + 1 == left_to_yield(old(self)@),
    {
        if self.finished {
            return None;
        }
        let old_bins = self.bins.clone();
        let slots = self.bins.len();
        let ghost before = exponents(self.bins@);
        let mut i: usize = 0;
        while i + 1 < slots && self.bins[i] == 0
            invariant
                !self.finished,
                slots == self.bins@.len(),
                slots >= 1,
                i < slots,
                self.bins@ == old(self).bins@,
                forall|j: int| 0 <= j < i ==> before[j] == 0,
                before == exponents(self.bins@),
            decreases slots - i,
        {
            i += 1;
        }
        proof {
            lemma_pivot_is(before, 0, i as int);
        }
        if i + 1 < slots {
            proof {
                lemma_two_slots(before, i as int, i + 1);
                lemma_successor_weight(before);
                lemma_rank_successor(before);
                lemma_rank_bound(successor(before));
            }
            let raised = self.bins[i + 1] + 1;
            self.bins.set(i + 1, raised);
            let lowered = self.bins[i] - 1;
            self.bins.set(i, lowered);
            let ghost moved = exponents(self.bins@);
            assert(moved =~= before.update(i + 1, before[i + 1] + 1).update(
                i as int,
                (before[i as int] - 1) as nat,
            ));
            let mut sum: usize = 0;
            let mut j: usize = 0;
            while j < i + 1
                invariant
                    !self.finished,
                    slots == self.bins@.len(),
                    i + 1 < slots,
                    j <= i + 1,
                    moved.len() == slots,
                    forall|t: int| 0 <= t < i ==> moved[t] == 0,
                    j <= i ==> sum == 0,
                    j > i ==> sum == moved[i as int],
                    forall|t: int| 0 <= t < j ==> #[trigger] self.bins@[t] == 0,
                    forall|t: int| j <= t < slots ==> #[trigger] self.bins@[t] == moved[t],
                decreases i + 1 - j,
            {
                sum = sum + self.bins[j];
                self.bins.set(j, 0);
                j += 1;
            }
            self.bins.set(0, sum);
            proof {
                let after = exponents(self.bins@);
                assert forall|t: int| 0 <= t < slots implies after[t] == successor(before)[t] by {
                    assert(moved[t] == moved[t]);
                }
                assert(after =~= successor(before));
            }
        } else {
            proof {
                lemma_rank_last(before);
            }
            self.finished = true;
        }
        Some(old_bins)
    }
}

/// `v` spreads the weight `n` over `k` slots.
pub open spec fn is_composition(v: Seq<nat>, n: nat, k: nat) -> bool {
    v.len() == k && weight(v) == n
}

/// The number of ways to spread the weight `n` over `k` slots: the ways that
/// leave the last slot empty, and the ways that put a unit there first.
pub open spec fn composition_count(n: nat, k: nat) -> nat
    decreases k, n,
{
    if k == 0 {
        if n == 0 {
            1
        } else {
            0
        }
    } else if n == 0 {
        1
    } else {
        composition_count(n, (k - 1) as nat) + composition_count((n - 1) as nat, k)
    }
}

/// The binomial coefficient, by Pascal's rule.
pub open spec fn binomial(a: nat, b: nat) -> nat
    decreases a,
{
    if b == 0 {
        1
    } else if a == 0 {
        0
    } else {
        binomial((a - 1) as nat, (b - 1) as nat) + binomial((a - 1) as nat, b)
    }
}

/// The number of ways to spread `n` over `k` slots with less than `last` in
/// the last slot.
pub open spec fn below_last(n: nat, k: nat, last: nat) -> nat
    recommends
        k >= 1,
        last <= n + 1,
    decreases last,
{
    if last == 0 {
        0
    } else {
        below_last(n, k, (last - 1) as nat) + composition_count(
            (n - (last - 1)) as nat,
            (k - 1) as nat,
        )
    }
}

/// The place of `v` in the order of the enumerator, counted from 0: vectors
/// with less in the last slot come first, and among those with the same last
/// slot the order of the slots before it decides.
pub open spec fn rank(v: Seq<nat>) -> nat
    decreases v.len(),
{
    if v.len() <= 1 {
        0
    } else {
        below_last(weight(v), v.len(), v.last()) + rank(v.drop_last())
    }
}

/// How many vectors an enumerator has still to yield.
pub open spec fn left_to_yield(cursor: Cursor) -> nat {
    if cursor.finished {
        0
    } else {
        (composition_count(weight(cursor.bins), cursor.bins.len()) - rank(cursor.bins)) as nat
    }
}

/// The vector that the enumerator yields after `j` others.
pub open spec fn nth_vector(n: nat, k: nat, j: nat) -> Seq<nat>
    decreases j,
{
    if j == 0 {
        first_vector(n, k)
    } else {
        successor(nth_vector(n, k, (j - 1) as nat))
    }
}

/// The vector that the enumerator yields just before `v`.
pub open spec fn predecessor(v: Seq<nat>) -> Seq<nat>
    recommends
        v.len() >= 2,
        v != first_vector(weight(v), v.len()),
{
    let m = pivot_from(v, 1);
    v.update(m, (v[m] - 1) as nat).update(0, 0).update(m - 1, v[0] + 1)
}

/// The weight of a vector is that of all but its last slot, and the last slot.
pub proof fn lemma_weight_drop_last(v: Seq<nat>)
    requires
        v.len() >= 1,
    ensures
        weight(v) == weight(v.drop_last()) + v.last(),
{
    lemma_prefix_weight_agrees(v, v.drop_last(), (v.len() - 1) as nat);
}

/// A vector with nothing behind slot 0 is the first of its weight.
pub proof fn lemma_first_vector(v: Seq<nat>)
    requires
        v.len() >= 1,
        forall|i: int| 1 <= i < v.len() ==> v[i] == 0,
    ensures
        v == first_vector(weight(v), v.len()),
        weight(v) == v[0],
    decreases v.len(),
{
    if v.len() >= 2 {
        lemma_first_vector(v.drop_last());
        lemma_weight_drop_last(v);
    } else {
        reveal_with_fuel(prefix_weight, 2);
    }
    assert(v =~= first_vector(weight(v), v.len()));
}

/// A vector with nothing before its last slot holds its weight there.
pub proof fn lemma_last_vector(v: Seq<nat>)
    requires
        v.len() >= 1,
        is_last_vector(v),
    ensures
        forall|i: int| 0 <= i < v.len() - 1 ==> v[i] == 0,
        weight(v) == v.last(),
        weight(v.drop_last()) == 0,
{
    lemma_pivot_from(v, 0);
    let head = v.drop_last();
    assert(head =~= zeros(head.len()));
    lemma_zeros_weight(head.len(), head.len());
    lemma_weight_drop_last(v);
}

/// There is one way to spread a weight over one slot.
pub proof fn lemma_count_one_slot(n: nat)
    ensures
        composition_count(n, 1) == 1,
    decreases n,
{
    if n > 0 {
        lemma_count_one_slot((n - 1) as nat);
        assert(composition_count(n, 0) == 0);
    }
}

/// Below a bound on the last slot there are no more ways than below a higher one.
pub proof fn lemma_below_last_monotone(n: nat, k: nat, a: nat, b: nat)
    requires
        a <= b,
    ensures
        below_last(n, k, a) <= below_last(n, k, b),
    decreases b,
{
    if a < b {
        lemma_below_last_monotone(n, k, a, (b - 1) as nat);
    }
}

/// The ways with a unit in the last slot are the ways of one unit less.
pub proof fn lemma_below_last_shift(n: nat, k: nat, last: nat)
    requires
        k >= 1,
        n >= 1,
        last <= n,
    ensures
        below_last(n, k, last + 1) == composition_count(n, (k - 1) as nat) + below_last(
            (n - 1) as nat,
            k,
            last,
        ),
    decreases last,
{
    if last > 0 {
        lemma_below_last_shift(n, k, (last - 1) as nat);
    } else {
        reveal_with_fuel(below_last, 2);
    }
}

/// Every way to spread `n` has at most `n` in the last slot.
pub proof fn lemma_count_by_last(n: nat, k: nat)
    requires
        k >= 1,
    ensures
        composition_count(n, k) == below_last(n, k, n + 1),
    decreases n,
{
    if n == 0 {
        reveal_with_fuel(below_last, 2);
        if k >= 2 {
            assert(composition_count(0, (k - 1) as nat) == 1);
        }
    } else {
        lemma_count_by_last((n - 1) as nat, k);
        lemma_below_last_shift(n, k, n);
    }
}

/// A binomial coefficient with more chosen than there is to choose from is 0,
/// and there is one way to choose all.
pub proof fn lemma_binomial_edge(a: nat, b: nat)
    ensures
        b > a ==> binomial(a, b) == 0,
        binomial(a, a) == 1,
    decreases a,
{
    if a > 0 {
        lemma_binomial_edge((a - 1) as nat, b);
        lemma_binomial_edge((a - 1) as nat, (b - 1) as nat);
        lemma_binomial_edge((a - 1) as nat, a);
        lemma_binomial_edge((a - 1) as nat, (a - 1) as nat);
    }
}

/// The number of ways to spread `n` over `k` slots is the binomial
/// coefficient of `n + k - 1` over `k - 1`.
pub proof fn lemma_count_is_binomial(n: nat, k: nat)
    requires
        k >= 1,
    ensures
        composition_count(n, k) == binomial((n + k - 1) as nat, (k - 1) as nat),
    decreases k, n,
{
    if k == 1 {
        lemma_count_one_slot(n);
    } else if n == 0 {
        lemma_binomial_edge((k - 1) as nat, (k - 1) as nat);
    } else {
        lemma_count_is_binomial(n, (k - 1) as nat);
        lemma_count_is_binomial((n - 1) as nat, k);
    }
}

/// The first vector of a weight has rank 0.
pub proof fn lemma_rank_first(n: nat, k: nat)
    ensures
        rank(first_vector(n, k)) == 0,
    decreases k,
{
    let v = first_vector(n, k);
    if k >= 2 {
        assert(v.drop_last() =~= first_vector(n, (k - 1) as nat));
        lemma_rank_first(n, (k - 1) as nat);
    }
}

/// A rank lies below the number of vectors.
pub proof fn lemma_rank_bound(v: Seq<nat>)
    requires
        v.len() >= 1,
    ensures
        rank(v) < composition_count(weight(v), v.len()),
    decreases v.len(),
{
    let n = weight(v);
    let k = v.len();
    if k == 1 {
        lemma_count_one_slot(n);
    } else {
        lemma_rank_bound(v.drop_last());
        lemma_weight_drop_last(v);
        lemma_below_last_monotone(n, k, v.last() + 1, n + 1);
        lemma_count_by_last(n, k);
    }
}

/// The last vector of a weight has the highest rank.
pub proof fn lemma_rank_last(v: Seq<nat>)
    requires
        v.len() >= 1,
        is_last_vector(v),
    ensures
        rank(v) + 1 == composition_count(weight(v), v.len()),
    decreases v.len(),
{
    let n = weight(v);
    let k = v.len();
    if k == 1 {
        lemma_count_one_slot(n);
    } else {
        lemma_last_vector(v);
        let head = v.drop_last();
        assert(head =~= first_vector(0, head.len()));
        lemma_rank_first(0, head.len());
        lemma_count_by_last(n, k);
        assert(composition_count(0, (k - 1) as nat) == 1);
    }
}

/// A step leads to the vector of the next rank.
pub proof fn lemma_rank_successor(v: Seq<nat>)
    requires
        v.len() >= 1,
        !is_last_vector(v),
    ensures
        rank(successor(v)) == rank(v) + 1,
    decreases v.len(),
{
    let k = v.len();
    let n = weight(v);
    let i = pivot(v);
    let next = successor(v);
    let head = v.drop_last();
    lemma_pivot_from(v, 0);
    lemma_successor_weight(v);
    lemma_weight_drop_last(v);
    lemma_weight_drop_last(next);
    if i + 2 < k {
        lemma_pivot_is(head, 0, i);
        assert(next.drop_last() =~= successor(head));
        assert(next.last() == v.last());
        lemma_rank_successor(head);
    } else {
        lemma_pivot_is(head, 0, i);
        lemma_rank_last(head);
        lemma_last_vector(head);
        let rest = next.drop_last();
        assert forall|t: int| 1 <= t < rest.len() implies rest[t] == 0 by {}
        lemma_first_vector(rest);
        lemma_rank_first(weight(rest), rest.len());
        assert(next.last() == v.last() + 1);
        assert(weight(head) == head.last());
        assert(n - v.last() == weight(head));
    }
}

/// After `j` steps the enumerator is at the vector of rank `j`, which spreads
/// `n` over the `k` slots.
pub proof fn lemma_nth_vector(n: nat, k: nat, j: nat)
    requires
        k >= 1,
        j < composition_count(n, k),
    ensures
        is_composition(nth_vector(n, k, j), n, k),
        rank(nth_vector(n, k, j)) == j,
    decreases j,
{
    if j == 0 {
        lemma_rank_first(n, k);
        let v = first_vector(n, k);
        assert forall|i: int| 1 <= i < v.len() implies v[i] == 0 by {}
        lemma_first_vector(v);
    } else {
        lemma_nth_vector(n, k, (j - 1) as nat);
        let v = nth_vector(n, k, (j - 1) as nat);
        if is_last_vector(v) {
            lemma_rank_last(v);
        }
        lemma_successor_weight(v);
        lemma_rank_successor(v);
    }
}

/// Every vector but the first follows its predecessor, which has the same
/// length and weight.
pub proof fn lemma_predecessor(v: Seq<nat>)
    requires
        v.len() >= 1,
        v != first_vector(weight(v), v.len()),
    ensures
        predecessor(v).len() == v.len(),
        weight(predecessor(v)) == weight(v),
        !is_last_vector(predecessor(v)),
        successor(predecessor(v)) == v,
{
    let k = v.len();
    if k == 1 || forall|i: int| 1 <= i < k ==> v[i] == 0 {
        lemma_first_vector(v);
    } else {
        let m = pivot_from(v, 1);
        lemma_pivot_from(v, 1);
        if v[m] == 0 {
            assert forall|i: int| 1 <= i < k implies v[i] == 0 by {}
        }
        let a = v.update(m, (v[m] - 1) as nat);
        let b = a.update(0, 0);
        let p = predecessor(v);
        lemma_prefix_weight_update(v, m, (v[m] - 1) as nat, k);
        lemma_prefix_weight_update(a, 0, 0, k);
        lemma_prefix_weight_update(b, m - 1, v[0] + 1, k);
        lemma_pivot_is(p, 0, m - 1);
        assert(successor(p) =~= v);
    }
}

/// Counted from the first vector, every way to spread `n` over `k` slots
/// comes at the place that its rank names.
pub proof fn lemma_vector_at_rank(v: Seq<nat>)
    requires
        v.len() >= 1,
    ensures
        nth_vector(weight(v), v.len(), rank(v)) == v,
    decreases rank(v),
{
    let n = weight(v);
    let k = v.len();
    if v == first_vector(n, k) {
        lemma_rank_first(n, k);
    } else {
        lemma_predecessor(v);
        let p = predecessor(v);
        lemma_rank_successor(p);
        lemma_vector_at_rank(p);
    }
}

/// The enumerator over `k` slots yields every way to spread `n` over them
/// exactly once: the vectors at the places `0` to `count - 1` all spread `n`
/// over `k` slots, no two of them are equal, every such way is among them, the
/// last slot holds everything at the last of these places and at no earlier
/// one, and their number is the binomial coefficient of `n + k - 1` over
/// `k - 1`.
pub proof fn lemma_enumeration(n: nat, k: nat)
    requires
        k >= 1,
    ensures
        composition_count(n, k) == binomial((n + k - 1) as nat, (k - 1) as nat),
        forall|j: nat|
            j < composition_count(n, k) ==> is_composition(#[trigger] nth_vector(n, k, j), n, k),
        forall|i: nat, j: nat|
            i < composition_count(n, k) && j < composition_count(n, k) && i != j ==> nth_vector(
                n,
                k,
                i,
            ) != nth_vector(n, k, j),
        forall|v: Seq<nat>|
            is_composition(v, n, k) ==> rank(v) < composition_count(n, k) && nth_vector(
                n,
                k,
                #[trigger] rank(v),
            ) == v,
        forall|j: nat|
            j < composition_count(n, k) ==> (is_last_vector(#[trigger] nth_vector(n, k, j)) <==> j
                + 1 == composition_count(n, k)),
{
    lemma_count_is_binomial(n, k);
    assert forall|j: nat| j < composition_count(n, k) implies is_composition(
        #[trigger] nth_vector(n, k, j),
        n,
        k,
    ) by {
        lemma_nth_vector(n, k, j);
    }
    assert forall|i: nat, j: nat|
        i < composition_count(n, k) && j < composition_count(n, k) && i != j implies nth_vector(
        n,
        k,
        i,
    ) != nth_vector(n, k, j) by {
        lemma_nth_vector(n, k, i);
        lemma_nth_vector(n, k, j);
    }
    assert forall|v: Seq<nat>| is_composition(v, n, k) implies rank(v) < composition_count(n, k)
        && nth_vector(n, k, #[trigger] rank(v)) == v by {
        lemma_rank_bound(v);
        lemma_vector_at_rank(v);
    }
    assert forall|j: nat| j < composition_count(n, k) implies (is_last_vector(
        #[trigger] nth_vector(n, k, j),
    ) <==> j + 1 == composition_count(n, k)) by {
        lemma_nth_vector(n, k, j);
        let v = nth_vector(n, k, j);
        if is_last_vector(v) {
            lemma_rank_last(v);
        } else {
            lemma_successor_weight(v);
            lemma_rank_successor(v);
            lemma_rank_bound(successor(v));
        }
    }
}

} // verus!
