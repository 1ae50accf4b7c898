//! Sums over sequences of natural numbers, and how they change under edits.

use vstd::prelude::*;

verus! {

/// The sum of all elements of `s`.
pub open spec fn seq_sum(s: Seq<nat>) -> nat
    decreases s.len(),
{
    if s.len() == 0 {
        0
    } else {
        seq_sum(s.drop_last()) + s.last()
    }
}

/// Appending an element adds it to the sum.
pub proof fn lemma_sum_push(s: Seq<nat>, v: nat)
    ensures
        seq_sum(s.push(v)) == seq_sum(s) + v,
{
    assert(s.push(v).drop_last() =~= s);
}

/// Inserting an element anywhere adds it to the sum.
pub proof fn lemma_sum_insert(s: Seq<nat>, i: int, v: nat)
    requires
        0 <= i <= s.len(),
    ensures
        seq_sum(s.insert(i, v)) == seq_sum(s) + v,
    decreases s.len(),
{
    if i == s.len() {
        assert(s.insert(i, v) =~= s.push(v));
        lemma_sum_push(s, v);
    } else {
        lemma_sum_insert(s.drop_last(), i, v);
        assert(s.insert(i, v).drop_last() =~= s.drop_last().insert(i, v));
        assert(s.insert(i, v).last() == s.last());
    }
}

/// Removing an element takes it out of the sum.
pub proof fn lemma_sum_remove(s: Seq<nat>, i: int)
    requires
        0 <= i < s.len(),
    ensures
        seq_sum(s.remove(i)) + s[i] == seq_sum(s),
    decreases s.len(),
{
    if i == s.len() - 1 {
        assert(s.remove(i) =~= s.drop_last());
    } else {
        lemma_sum_remove(s.drop_last(), i);
        assert(s.remove(i).drop_last() =~= s.drop_last().remove(i));
        assert(s.remove(i).last() == s.last());
    }
}

/// Replacing an element exchanges its share of the sum.
pub proof fn lemma_sum_update(s: Seq<nat>, i: int, v: nat)
    requires
        0 <= i < s.len(),
    ensures
        seq_sum(s.update(i, v)) + s[i] == seq_sum(s) + v,
    decreases s.len(),
{
    if i == s.len() - 1 {
        assert(s.update(i, v).drop_last() =~= s.drop_last());
    } else {
        lemma_sum_update(s.drop_last(), i, v);
        assert(s.update(i, v).drop_last() =~= s.drop_last().update(i, v));
    }
}

/// A sum of `n` elements that are each at most `bound` is at most `n * bound`.
pub proof fn lemma_sum_bound(s: Seq<nat>, bound: nat)
    requires
        forall|i: int| 0 <= i < s.len() ==> s[i] <= bound,
    ensures
        seq_sum(s) <= s.len() * bound,
    decreases s.len(),
{
    if s.len() > 0 {
        lemma_sum_bound(s.drop_last(), bound);
        assert(s.len() * bound == (s.len() - 1) * bound + bound) by (nonlinear_arith);
    }
}

/// No element exceeds the sum.
pub proof fn lemma_sum_at_least(s: Seq<nat>, i: int)
    requires
        0 <= i < s.len(),
    ensures
        s[i] <= seq_sum(s),
{
    lemma_sum_remove(s, i);
}

/// A sum of zeros is zero.
pub proof fn lemma_sum_zeros(s: Seq<nat>)
    requires
        forall|i: int| 0 <= i < s.len() ==> s[i] == 0,
    ensures
        seq_sum(s) == 0,
{
    lemma_sum_bound(s, 0);
}

} // verus!
