//! A bounded counter: the ascending integers of an inclusive range, pulled
//! one at a time.

use vstd::prelude::*;

verus! {

/// The ascending integers of the inclusive range `[from, until]`, as a
/// mathematical sequence. Empty whenever `until < from`.
pub open spec fn counting(from: int, until: int) -> Seq<u32> {
    if until < from {
        Seq::empty()
    } else {
        Seq::new((until - from + 1) as nat, |i: int| (from + i) as u32)
    }
}

/// Advancing a value `i` steps, stopping at the largest representable value.
pub open spec fn sat_add32(a: u32, i: int) -> u32 {
    if a + i > u32::MAX {
        u32::MAX
    } else {
        (a + i) as u32
    }
}

/// An iterator that simply counts sequentially.
///
/// The count of values still owed, not the advancing value, decides
/// exhaustion, so the counter tolerates ranges that end at the largest
/// representable value. The count is held one width wider than the values,
/// so that even the full range of `u32` has a representable count and
/// construction never fails.
pub struct Counter {
    pub counter: u32,
    pub remaining: u64,
}

impl View for Counter {
    type V = Seq<u32>;

    /// The values this counter has yet to produce.
    open spec fn view(&self) -> Seq<u32> {
        Seq::new(self.remaining as nat, |i: int| sat_add32(self.counter, i))
    }
}

impl Counter {
    /// Builds the counter for the inclusive range `[from, until]`;
    /// an inverted range yields an already-exhausted counter.
    pub fn new(from: u32, until: u32) -> (r: Counter)
        ensures
            r@ == counting(from as int, until as int),
    {
        let r = if until >= from {
            Counter { counter: from, remaining: (until - from) as u64 + 1 }
        } else {
            Counter { counter: from, remaining: 0 }
        };
        proof {
            assert forall|i: int| 0 <= i < r@.len() implies r@[i] == counting(
                from as int,
                until as int,
            )[i] by {
                assert(sat_add32(from, i) == (from + i) as u32);
            }
            assert(r@ =~= counting(from as int, until as int));
        }
        r
    }

    /// Produces the next value of the range, or `None` once the range is
    /// exhausted. Each successful pull removes exactly the first element of
    /// the view.
    pub fn next(&mut self) -> (r: Option<u32>)
        ensures
            old(self)@.len() == 0 ==> r is None && final(self)@ == old(self)@,
            old(self)@.len() > 0 ==> r == Some(old(self)@[0]) && final(self)@ == old(
                self,
            )@.drop_first(),
    {
        if self.remaining == 0 {
            None
        } else {
            let answer = self.counter;
            self.counter = if self.counter == u32::MAX {
                u32::MAX
            } else {
                self.counter + 1
            };
            self.remaining = self.remaining - 1;
            proof {
                assert forall|i: int| 0 <= i < self@.len() implies self@[i] == old(
                    self,
                )@.drop_first()[i] by {
                    assert(old(self)@.drop_first()[i] == sat_add32(answer, i + 1));
                }
                assert(self@ =~= old(self)@.drop_first());
            }
            Some(answer)
        }
    }

    /// Drains the counter, returning every value it had yet to produce,
    /// in order.
    pub fn collect(&mut self) -> (r: Vec<u32>)
        ensures
            r@ == old(self)@,
            final(self)@.len() == 0,
    {
        let ghost all = self@;
        let mut r: Vec<u32> = Vec::new();
        loop
            invariant
                r@ + self@ == all,
            ensures
                self@.len() == 0,
                r@ == all,
            decreases self@.len(),
        {
            match self.next() {
                Some(v) => {
                    r.push(v);
                    proof {
                        assert(r@ + self@ =~= all);
                    }
                },
                None => {
                    proof {
                        assert(r@ =~= all);
                    }
                    break ;
                },
            }
        }
        r
    }
}

/// Count sequentially.
///
/// Creates a counter that counts from a given value up to another given
/// value, inclusive.
pub fn seq(from: u32, until: u32) -> (r: Counter)
    ensures
        r@ == counting(from as int, until as int),
{
    Counter::new(from, until)
}

/// Law: a counting range with `until < from` is empty; otherwise it holds
/// exactly `until - from + 1` strictly ascending values, the first being
/// `from` and the last being `until`.
pub proof fn lemma_counting_range(from: u32, until: u32)
    ensures
        until < from ==> counting(from as int, until as int).len() == 0,
        from <= until ==> counting(from as int, until as int).len() == until - from + 1,
        from <= until ==> counting(from as int, until as int)[0] == from,
        from <= until ==> counting(from as int, until as int)[until - from] == until,
        forall|i: int, j: int|
            0 <= i < j < counting(from as int, until as int).len() ==> counting(
                from as int,
                until as int,
            )[i] < counting(from as int, until as int)[j],
{
}

} // verus!
