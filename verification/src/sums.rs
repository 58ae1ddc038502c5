//! The sum of a sequence of values, and the small facts about it that the
//! generators' laws lean on.

use vstd::prelude::*;

verus! {

/// The sum of the elements of `s`.
pub open spec fn seq_sum(s: Seq<u32>) -> int
    decreases s.len(),
{
    if s.len() == 0 {
        0
    } else {
        s[0] + seq_sum(s.drop_first())
    }
}

/// A sum of unsigned values is never negative.
pub proof fn lemma_seq_sum_nonneg(s: Seq<u32>)
    ensures
        seq_sum(s) >= 0,
    decreases s.len(),
{
    if s.len() > 0 {
        lemma_seq_sum_nonneg(s.drop_first());
    }
}

/// Splitting off the head of a nonempty sequence splits its sum.
pub proof fn lemma_seq_sum_skip(s: Seq<u32>, k: int)
    requires
        0 <= k < s.len(),
    ensures
        seq_sum(s.skip(k)) == s[k] + seq_sum(s.skip(k + 1)),
{
    assert(s.skip(k).drop_first() =~= s.skip(k + 1));
    assert(s.skip(k)[0] == s[k]);
}

/// Prepending one value adds it to the sum.
pub proof fn lemma_seq_sum_cons(h: u32, t: Seq<u32>)
    ensures
        seq_sum(seq![h] + t) == h + seq_sum(t),
{
    assert((seq![h] + t).drop_first() =~= t);
    assert((seq![h] + t)[0] == h);
}

/// A sequence of values that are all at least 1 sums to at least its length.
pub proof fn lemma_seq_sum_lower_bound(s: Seq<u32>)
    requires
        forall|j: int| 0 <= j < s.len() ==> 1 <= #[trigger] s[j],
    ensures
        seq_sum(s) >= s.len(),
    decreases s.len(),
{
    if s.len() > 0 {
        lemma_seq_sum_lower_bound(s.drop_first());
    }
}

/// The sum of a two-element sequence.
pub proof fn lemma_seq_sum_pair(a: u32, b: u32)
    ensures
        seq_sum(seq![a, b]) == a + b,
{
    assert((seq![a, b]).drop_first() =~= seq![b]);
    assert((seq![b]).drop_first() =~= Seq::<u32>::empty());
    assert(seq_sum(seq![a, b]) == a + seq_sum(seq![b]));
    assert(seq_sum(seq![b]) == b + seq_sum((seq![b]).drop_first()));
}

/// Appending one value adds it to the sum.
pub proof fn lemma_seq_sum_snoc(s: Seq<u32>, v: u32)
    ensures
        seq_sum(s + seq![v]) == seq_sum(s) + v,
    decreases s.len(),
{
    assert((s + seq![v]).len() == s.len() + 1);
    if s.len() == 0 {
        assert((s + seq![v])[0] == v);
        assert((s + seq![v]).drop_first() =~= Seq::<u32>::empty());
        assert(seq_sum(s + seq![v]) == v + seq_sum((s + seq![v]).drop_first()));
    } else {
        lemma_seq_sum_snoc(s.drop_first(), v);
        assert((s + seq![v]).drop_first() =~= s.drop_first() + seq![v]);
        assert((s + seq![v])[0] == s[0]);
        assert(seq_sum(s + seq![v]) == s[0] + seq_sum(s.drop_first() + seq![v]));
    }
}

} // verus!
