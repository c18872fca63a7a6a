//! Exponent vectors: one multiplicity for each prime of the basis.

use vstd::prelude::*;

verus! {

/// An exponent vector as it is stored.
pub type Bins = Vec<usize>;

/// The exponents of a stored vector, as natural numbers.
pub open spec fn exponents(bins: Seq<usize>) -> Seq<nat> {
    Seq::new(bins.len(), |i: int| bins[i] as nat)
}

/// The numbers of a stored list of small numbers.
pub open spec fn numbers(list: Seq<u8>) -> Seq<int> {
    Seq::new(list.len(), |i: int| list[i] as int)
}

/// Sum of the first `k` entries of `v`.
pub open spec fn prefix_weight(v: Seq<nat>, k: nat) -> nat
    recommends
        k <= v.len(),
    decreases k,
{
    if k == 0 {
        0
    } else {
        prefix_weight(v, (k - 1) as nat) + v[k - 1]
    }
}

/// Sum of all entries of `v`.
pub open spec fn weight(v: Seq<nat>) -> nat {
    prefix_weight(v, v.len())
}

/// The vector of `k` zeros.
pub open spec fn zeros(k: nat) -> Seq<nat> {
    Seq::new(k, |i: int| 0nat)
}

/// `a` holds at least what `b` holds, in every slot that both have.
pub open spec fn covers(a: Seq<nat>, b: Seq<nat>) -> bool {
    forall|i: int| 0 <= i < a.len() && i < b.len() ==> a[i] >= b[i]
}

/// Slot-wise sum of two vectors of one length.
pub open spec fn plus(a: Seq<nat>, b: Seq<nat>) -> Seq<nat>
    recommends
        a.len() == b.len(),
{
    Seq::new(a.len(), |i: int| a[i] + b[i])
}

/// Slot-wise difference `a - b`, for `a` that covers `b`.
pub open spec fn minus(a: Seq<nat>, b: Seq<nat>) -> Seq<nat>
    recommends
        a.len() == b.len(),
        covers(a, b),
{
    Seq::new(a.len(), |i: int| (a[i] - b[i]) as nat)
}

/// Every vector covers itself.
pub proof fn lemma_covers_reflexive(a: Seq<nat>)
    ensures
        covers(a, a),
{
}

/// Covering is transitive as soon as the middle vector is no shorter than one
/// of the outer two, in particular among vectors over one basis.
pub proof fn lemma_covers_transitive(a: Seq<nat>, b: Seq<nat>, c: Seq<nat>)
    requires
        a.len() <= b.len() || c.len() <= b.len(),
        covers(a, b),
        covers(b, c),
    ensures
        covers(a, c),
{
}

/// Two vectors of one length that cover each other are equal.
pub proof fn lemma_covers_antisymmetric(a: Seq<nat>, b: Seq<nat>)
    requires
        a.len() == b.len(),
        covers(a, b),
        covers(b, a),
    ensures
        a == b,
{
    assert(a =~= b);
}

/// A prefix sum does not depend on the entries behind the prefix.
pub proof fn lemma_prefix_weight_agrees(v: Seq<nat>, w: Seq<nat>, k: nat)
    requires
        k <= v.len(),
        k <= w.len(),
        forall|i: int| 0 <= i < k ==> v[i] == w[i],
    ensures
        prefix_weight(v, k) == prefix_weight(w, k),
    decreases k,
{
    if k > 0 {
        lemma_prefix_weight_agrees(v, w, (k - 1) as nat);
    }
}

/// Prefix sums grow with the prefix.
pub proof fn lemma_prefix_weight_monotone(v: Seq<nat>, j: nat, k: nat)
    requires
        j <= k,
    ensures
        prefix_weight(v, j) <= prefix_weight(v, k),
    decreases k,
{
    if j < k {
        lemma_prefix_weight_monotone(v, j, (k - 1) as nat);
    }
}

/// Changing slot `i` changes every prefix sum that reaches it by the same amount.
pub proof fn lemma_prefix_weight_update(v: Seq<nat>, i: int, x: nat, k: nat)
    requires
        0 <= i < v.len(),
        k <= v.len(),
    ensures
        i < k ==> prefix_weight(v.update(i, x), k) + v[i] == prefix_weight(v, k) + x,
        i >= k ==> prefix_weight(v.update(i, x), k) == prefix_weight(v, k),
    decreases k,
{
    if k > 0 {
        lemma_prefix_weight_update(v, i, x, (k - 1) as nat);
    }
}

/// The zero vector weighs nothing.
pub proof fn lemma_zeros_weight(k: nat, j: nat)
    requires
        j <= k,
    ensures
        prefix_weight(zeros(k), j) == 0,
    decreases j,
{
    if j > 0 {
        lemma_zeros_weight(k, (j - 1) as nat);
    }
}

/// A vector of `slots` zeros.
pub fn empty_bins(slots: usize) -> (bins: Bins)
    ensures
        bins@.len() == slots,
        exponents(bins@) == zeros(slots as nat),
{
    let mut bins: Bins = Vec::new();
    let mut i: usize = 0;
    while i < slots
        invariant
            i <= slots,
            bins@.len() == i,
            forall|j: int| 0 <= j < i ==> bins@[j] == 0,
        decreases slots - i,
    {
        bins.push(0);
        i += 1;
    }
    assert(exponents(bins@) =~= zeros(slots as nat));
    bins
}

/// Whether `xs` holds at least what `ys` holds, slot by slot.
pub fn divides(xs: &Bins, ys: &Bins) -> (fits: bool)
    ensures
        fits == covers(exponents(xs@), exponents(ys@)),
{
    let shared = if xs.len() < ys.len() {
        xs.len()
    } else {
        ys.len()
    };
    let mut i: usize = 0;
    while i < shared
        invariant
            i <= shared,
            shared <= xs@.len(),
            shared <= ys@.len(),
            shared == xs@.len() || shared == ys@.len(),
            forall|j: int| 0 <= j < i ==> exponents(xs@)[j] >= exponents(ys@)[j],
        decreases shared - i,
    {
        if xs[i] < ys[i] {
            assert(exponents(xs@)[i as int] < exponents(ys@)[i as int]);
            return false;
        }
        i += 1;
    }
    true
}

} // verus!
