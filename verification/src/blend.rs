//! An alternating merge of two sequences: one element of the first, one of
//! the second, and so on, ending the moment the sequence whose turn it is
//! has nothing left — even if the other still does.

use vstd::prelude::*;

use crate::sums::{lemma_seq_sum_cons, seq_sum};

verus! {

/// The alternating merge of `a` and `b`, starting with `a`, truncated at the
/// first exhaustion of the sequence whose turn it is.
pub open spec fn blend_seq<T>(a: Seq<T>, b: Seq<T>) -> Seq<T>
    decreases a.len() + b.len(),
{
    if a.len() == 0 {
        Seq::empty()
    } else {
        seq![a[0]] + blend_seq(b, a.drop_first())
    }
}

/// Law: when the first source holds at most one element more than the
/// second, and at least as many, the blend interleaves both completely:
/// element `2i` is `a[i]`, element `2i + 1` is `b[i]`, and nothing is
/// dropped.
pub proof fn lemma_blend_interleave<T>(a: Seq<T>, b: Seq<T>)
    requires
        b.len() <= a.len() <= b.len() + 1,
    ensures
        blend_seq(a, b).len() == a.len() + b.len(),
        forall|i: int| 0 <= i < a.len() ==> blend_seq(a, b)[2 * i] == a[i],
        forall|i: int| 0 <= i < b.len() ==> blend_seq(a, b)[2 * i + 1] == b[i],
    decreases a.len() + b.len(),
{
    if a.len() == 0 {
    } else {
        let rest = blend_seq(b, a.drop_first());
        lemma_blend_interleave(b, a.drop_first());
        assert forall|i: int| 0 <= i < a.len() implies blend_seq(a, b)[2 * i] == a[i] by {
            if i > 0 {
                assert(blend_seq(a, b)[2 * i] == rest[2 * (i - 1) + 1]);
                assert(rest[2 * (i - 1) + 1] == a.drop_first()[i - 1]);
            }
        }
        assert forall|i: int| 0 <= i < b.len() implies blend_seq(a, b)[2 * i + 1] == b[i] by {
            assert(blend_seq(a, b)[2 * i + 1] == rest[2 * i]);
            assert(rest[2 * i] == b[i]);
        }
    }
}

/// Law: such a complete interleaving carries every element of both sources,
/// so its sum is the sum of both.
pub proof fn lemma_blend_sum(a: Seq<u32>, b: Seq<u32>)
    requires
        b.len() <= a.len() <= b.len() + 1,
    ensures
        seq_sum(blend_seq(a, b)) == seq_sum(a) + seq_sum(b),
    decreases a.len() + b.len(),
{
    if a.len() == 0 {
    } else {
        lemma_blend_sum(b, a.drop_first());
        lemma_seq_sum_cons(a[0], blend_seq(b, a.drop_first()));
        assert(seq_sum(a) == a[0] + seq_sum(a.drop_first()));
    }
}

/// An iterator that blends two others.
///
/// The two sources are held as queues; `use_first` says whose turn the next
/// pull is.
pub struct Blend<T> {
    use_first: bool,
    iter1: Vec<T>,
    iter2: Vec<T>,
}

/// The values this blend has yet to produce: the alternating merge of the
/// two queues, starting with whichever is due.
pub closed spec fn blend_remaining<T>(x: Blend<T>) -> Seq<T> {
    if x.use_first {
        blend_seq(x.iter1@, x.iter2@)
    } else {
        blend_seq(x.iter2@, x.iter1@)
    }
}

impl<T> View for Blend<T> {
    type V = Seq<T>;

    closed spec fn view(&self) -> Seq<T> {
        blend_remaining(*self)
    }
}

impl<T> Blend<T> {
    /// Builds the blend of two sources; the first is due first.
    pub fn new(iter1: Vec<T>, iter2: Vec<T>) -> (r: Blend<T>)
        ensures
            r@ == blend_seq(iter1@, iter2@),
    {
        Blend { use_first: true, iter1, iter2 }
    }

    /// Produces the next value, or `None` the moment the source whose turn
    /// it is has nothing left. Each successful pull removes exactly the
    /// first element of the view.
    pub fn next(&mut self) -> (r: Option<T>)
        ensures
            old(self)@.len() == 0 ==> r is None && final(self)@ == old(self)@,
            old(self)@.len() > 0 ==> final(self)@ == old(self)@.drop_first() && (match r {
                Some(v) => v == old(self)@[0],
                None => false,
            }),
    {
        let ghost entry = *self;
        if self.use_first {
            if self.iter1.len() > 0 {
                let v = self.iter1.remove(0);
                self.use_first = false;
                proof {
                    assert(self.iter1@ =~= entry.iter1@.drop_first());
                    assert(self@ =~= entry@.drop_first());
                }
                Some(v)
            } else {
                None
            }
        } else {
            if self.iter2.len() > 0 {
                let v = self.iter2.remove(0);
                self.use_first = true;
                proof {
                    assert(self.iter2@ =~= entry.iter2@.drop_first());
                    assert(self@ =~= entry@.drop_first());
                }
                Some(v)
            } else {
                None
            }
        }
    }

    /// Drains the blend, returning every value it had yet to produce, in
    /// order.
    pub fn collect(&mut self) -> (r: Vec<T>)
        ensures
            r@ == old(self)@,
            final(self)@.len() == 0,
    {
        let ghost all = self@;
        let mut r: Vec<T> = Vec::new();
        loop
            invariant
                r@ + self@ == all,
            ensures
                self@.len() == 0,
                r@ == all,
            decreases self@.len(),
        {
            match self.next() {
                Some(v) => {
                    r.push(v);
                    proof {
                        assert(r@ + self@ =~= all);
                    }
                },
                None => {
                    proof {
                        assert(r@ =~= all);
                    }
                    break ;
                },
            }
        }
        r
    }
}

/// Blend two sources.
///
/// Creates an iterator that consumes two others in order to produce outputs,
/// alternating between each one until one of them exhausts.
pub fn blend<T>(iter1: Vec<T>, iter2: Vec<T>) -> (r: Blend<T>)
    ensures
        r@ == blend_seq(iter1@, iter2@),
{
    Blend::new(iter1, iter2)
}

/// The alternating merge of two borrowed sequences, collected eagerly.
pub fn blend_slices(a: &Vec<u32>, b: &Vec<u32>) -> (r: Vec<u32>)
    ensures
        r@ == blend_seq(a@, b@),
{
    let mut r: Vec<u32> = Vec::new();
    let mut i: usize = 0;
    let mut j: usize = 0;
    let mut first: bool = true;
    proof {
        assert(a@.skip(0) =~= a@);
        assert(b@.skip(0) =~= b@);
        assert(r@ + blend_seq(a@, b@) =~= blend_seq(a@, b@));
    }
    loop
        invariant
            i <= a.len(),
            j <= b.len(),
            r@ + (if first {
                blend_seq(a@.skip(i as int), b@.skip(j as int))
            } else {
                blend_seq(b@.skip(j as int), a@.skip(i as int))
            }) == blend_seq(a@, b@),
        ensures
            r@ == blend_seq(a@, b@),
        decreases a.len() - i + b.len() - j,
    {
        if first {
            if i < a.len() {
                let ghost r_pre = r@;
                r.push(a[i]);
                proof {
                    assert(a@.skip(i as int)[0] == a@[i as int]);
                    assert(a@.skip(i as int).drop_first() =~= a@.skip(i as int + 1));
                    assert(r@ + blend_seq(b@.skip(j as int), a@.skip(i as int + 1)) =~= r_pre
                        + blend_seq(a@.skip(i as int), b@.skip(j as int)));
                }
                i = i + 1;
                first = false;
            } else {
                proof {
                    assert(r@ + blend_seq(a@.skip(i as int), b@.skip(j as int)) =~= r@);
                }
                break ;
            }
        } else {
            if j < b.len() {
                let ghost r_pre = r@;
                r.push(b[j]);
                proof {
                    assert(b@.skip(j as int)[0] == b@[j as int]);
                    assert(b@.skip(j as int).drop_first() =~= b@.skip(j as int + 1));
                    assert(r@ + blend_seq(a@.skip(i as int), b@.skip(j as int + 1)) =~= r_pre
                        + blend_seq(b@.skip(j as int), a@.skip(i as int)));
                }
                j = j + 1;
                first = true;
            } else {
                proof {
                    assert(r@ + blend_seq(b@.skip(j as int), a@.skip(i as int)) =~= r@);
                }
                break ;
            }
        }
    }
    r
}

} // verus!
