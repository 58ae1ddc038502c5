//! Compositions of a fixed sum into a fixed number of parts whose first and
//! last part may be zero, every interior part at least 1. Enumerated
//! ascending by first part, then by last part, then by the interior.

use vstd::prelude::*;

use crate::compose::{
    composition_ok, hfill_seq, lemma_hfill_seq_complete, lemma_hfill_seq_distinct,
    lemma_hfill_seq_shape, wf_hfill, Hfill,
};
use crate::counter::{counting, Counter};
use crate::sums::{
    lemma_seq_sum_cons, lemma_seq_sum_lower_bound, lemma_seq_sum_pair, lemma_seq_sum_snoc, seq_sum,
};

verus! {

/// The error of a construction whose numeric arguments are outside the
/// documented domain.
#[derive(Clone, Copy, Debug, PartialEq, Eq, Structural)]
pub enum FillError {
    InvalidArgument,
}

/// Every sequence of `middles`, with `head` prepended and `last` appended.
pub open spec fn surrounded(middles: Seq<Seq<u32>>, head: u32, last: u32) -> Seq<Seq<u32>> {
    middles.map_values(|m: Seq<u32>| seq![head] + m + seq![last])
}

/// The two-part compositions of `sum` whose first part is drawn, in order,
/// from `heads`; the second part is what remains.
pub open spec fn pairs_view(sum: u32, heads: Seq<u32>) -> Seq<Seq<u32>> {
    heads.map_values(|h: u32| seq![h, (sum - h) as u32])
}

/// The compositions of `sum` into `len` parts beginning with `head` whose
/// last part is drawn, in order, from `lasts`: one block of interiors per
/// candidate last part.
pub open spec fn lasts_blocks(sum: u32, len: u32, head: u32, lasts: Seq<u32>) -> Seq<Seq<u32>>
    decreases lasts.len(),
{
    if lasts.len() == 0 {
        Seq::empty()
    } else {
        surrounded(hfill_seq(sum - head - lasts[0], len - 2), head, lasts[0]) + lasts_blocks(
            sum,
            len,
            head,
            lasts.drop_first(),
        )
    }
}

/// The compositions of `sum` into `len` parts whose first part is drawn, in
/// order, from `heads`: one full run of last parts per candidate first part.
pub open spec fn xheads_blocks(sum: u32, len: u32, heads: Seq<u32>) -> Seq<Seq<u32>>
    decreases heads.len(),
{
    if heads.len() == 0 {
        Seq::empty()
    } else {
        lasts_blocks(sum, len, heads[0], counting(0, sum - (len - 2) - heads[0]))
            + xheads_blocks(sum, len, heads.drop_first())
    }
}

/// All compositions of `sum` into exactly `len` parts whose first and last
/// part are at least 0 and whose `len - 2` interior parts are at least 1,
/// ordered ascending by first part, then last part, then interior. Empty
/// when the arguments are outside the domain `len >= 2, sum >= len - 2`.
pub open spec fn xfill_seq(sum: int, len: int) -> Seq<Seq<u32>> {
    if len < 2 || sum < len - 2 {
        Seq::empty()
    } else if len == 2 {
        pairs_view(sum as u32, counting(0, sum))
    } else {
        xheads_blocks(sum as u32, len as u32, counting(0, sum - (len - 2)))
    }
}

/// An iterator for producing special combinations of integer lists: the
/// compositions of `sum` into `len` parts whose first and last part may be
/// zero and whose interior parts are at least 1.
///
/// The state holds the candidate first parts still to try, a counter over
/// candidate last parts for the active first part, and a nested generator
/// for the interiors of the active (first, last) pair.
pub struct Xfill {
    sum: u32,
    len: u32,
    heads: Counter,
    head: u32,
    lasts: Option<Counter>,
    last: u32,
    middle: Option<Hfill>,
}

/// Well-formedness: the arguments are inside the domain, every pending
/// candidate leaves room for the mandatory interior parts, and the nested
/// interior generator, if any, is well-formed.
pub closed spec fn wf_xfill(x: Xfill) -> bool {
    &&& x.len >= 2
    &&& x.sum + 2 >= x.len
    &&& (x.len == 2 ==> x.lasts is None && x.middle is None && forall|i: int|
        0 <= i < x.heads@.len() ==> #[trigger] x.heads@[i] <= x.sum)
    &&& (x.len >= 3 ==> forall|i: int|
        0 <= i < x.heads@.len() ==> #[trigger] x.heads@[i] + (x.len - 2) <= x.sum)
    &&& (match x.lasts {
        Some(c) => x.len >= 3 && x.head + (x.len - 2) <= x.sum && forall|i: int|
            0 <= i < c@.len() ==> x.head + #[trigger] c@[i] + (x.len - 2) <= x.sum,
        None => x.middle is None,
    })
    &&& (match x.middle {
        Some(m) => wf_hfill(m),
        None => true,
    })
}

/// The compositions this generator has yet to produce: what is left of the
/// active pair's interior block, then the blocks of the pending last parts,
/// then one full run per pending first part.
pub closed spec fn xfill_remaining(x: Xfill) -> Seq<Seq<u32>> {
    if x.len == 2 {
        pairs_view(x.sum, x.heads@)
    } else {
        (match x.middle {
            Some(m) => surrounded(m@, x.head, x.last),
            None => Seq::empty(),
        }) + ((match x.lasts {
            Some(c) => lasts_blocks(x.sum, x.len, x.head, c@),
            None => Seq::empty(),
        }) + xheads_blocks(x.sum, x.len, x.heads@))
    }
}

impl View for Xfill {
    type V = Seq<Seq<u32>>;

    closed spec fn view(&self) -> Seq<Seq<u32>> {
        xfill_remaining(*self)
    }
}

/// Popping the first interior of the active block pops the first element of
/// the whole remaining view.
proof fn lemma_pop_surrounded_block(a: Seq<Seq<u32>>, b: Seq<Seq<u32>>, head: u32, last: u32)
    requires
        a.len() > 0,
    ensures
        (surrounded(a, head, last) + b)[0] == seq![head] + a[0] + seq![last],
        surrounded(a.drop_first(), head, last) + b == (surrounded(a, head, last) + b).drop_first(),
{
    assert(surrounded(a.drop_first(), head, last) + b =~= (surrounded(a, head, last)
        + b).drop_first());
}

impl Xfill {
    /// Builds the generator of all compositions of `sum` into `len` parts
    /// whose first and last part may be zero and whose interior parts are at
    /// least 1. Fails with an invalid-argument error exactly when `len < 2`
    /// or `sum < len - 2`.
    pub fn new(sum: u32, len: u32) -> (r: Result<Xfill, FillError>)
        ensures
            r is Err <==> (len < 2 || sum + 2 < len),
            (match r {
                Ok(x) => wf_xfill(x) && x@ == xfill_seq(sum as int, len as int),
                Err(e) => e == FillError::InvalidArgument,
            }),
    {
        if len < 2 {
            return Err(FillError::InvalidArgument);
        }
        if sum < len - 2 {
            return Err(FillError::InvalidArgument);
        }
        let heads = if len == 2 {
            Counter::new(0, sum)
        } else {
            Counter::new(0, sum - (len - 2))
        };
        let r = Xfill { sum, len, heads, head: 0, lasts: None, last: 0, middle: None };
        proof {
            if len >= 3 {
                assert(r@ =~= xheads_blocks(sum, len, counting(0, sum - (len - 2))));
            }
        }
        Ok(r)
    }

    /// Produces the next composition, or `None` once every composition has
    /// been produced. Each successful pull removes exactly the first element
    /// of the view.
    pub fn next(&mut self) -> (r: Option<Vec<u32>>)
        requires
            wf_xfill(*old(self)),
        ensures
            wf_xfill(*final(self)),
            old(self)@.len() == 0 ==> r is None && final(self)@ == old(self)@,
            old(self)@.len() > 0 ==> final(self)@ == old(self)@.drop_first() && (match r {
                Some(v) => v@ == old(self)@[0],
                None => false,
            }),
    {
        if self.len == 2 {
            let ghost entry = *self;
            match self.heads.next() {
                Some(h) => {
                    let mut out: Vec<u32> = Vec::new();
                    out.push(h);
                    out.push(self.sum - h);
                    proof {
                        assert(out@ =~= entry@[0]);
                        assert(self@ =~= entry@.drop_first());
                    }
                    Some(out)
                },
                None => None,
            }
        } else {
            loop
                invariant
                    wf_xfill(*self),
                    self.len == old(self).len,
                    self.sum == old(self).sum,
                    self.len >= 3,
                    self@ == old(self)@,
                decreases
                        self.heads@.len(),
                        (match self.lasts {
                            Some(c) => c@.len() as int + 1,
                            None => 0int,
                        }),
                        (match self.middle {
                            Some(_) => 1int,
                            None => 0int,
                        }),
            {
                let ghost entry = *self;
                if self.middle.is_some() {
                    let pulled = match &mut self.middle {
                        Some(m) => m.next(),
                        None => None,
                    };
                    let ghost m_pre = entry.middle->Some_0;
                    match pulled {
                        Some(mut mid) => {
                            proof {
                                lemma_pop_surrounded_block(
                                    m_pre@,
                                    (match entry.lasts {
                                        Some(c) => lasts_blocks(entry.sum, entry.len, entry.head, c@),
                                        None => Seq::empty(),
                                    }) + xheads_blocks(entry.sum, entry.len, entry.heads@),
                                    entry.head,
                                    entry.last,
                                );
                            }
                            let mut out: Vec<u32> = Vec::new();
                            out.push(self.head);
                            out.append(&mut mid);
                            out.push(self.last);
                            proof {
                                assert(out@ =~= seq![entry.head] + m_pre@[0] + seq![entry.last]);
                            }
                            return Some(out);
                        },
                        None => {
                            self.middle = None;
                            proof {
                                assert(surrounded(m_pre@, entry.head, entry.last)
                                    =~= Seq::<Seq<u32>>::empty());
                                assert(self@ =~= entry@);
                            }
                        },
                    }
                } else if self.lasts.is_some() {
                    let pulled = match &mut self.lasts {
                        Some(c) => c.next(),
                        None => None,
                    };
                    match pulled {
                        Some(l) => {
                            self.last = l;
                            let sub = Hfill::new(self.sum - self.head - l, self.len - 2);
                            self.middle = Some(sub);
                            proof {
                                assert(self@ =~= entry@);
                            }
                        },
                        None => {
                            self.lasts = None;
                            proof {
                                assert(self@ =~= entry@);
                            }
                        },
                    }
                } else {
                    match self.heads.next() {
                        Some(h) => {
                            self.head = h;
                            self.lasts = Some(Counter::new(0, self.sum - (self.len - 2) - h));
                            self.middle = None;
                            proof {
                                assert(self@ =~= entry@);
                            }
                        },
                        None => {
                            proof {
                                assert(self@ =~= entry@);
                                assert(self@.len() == 0);
                            }
                            return None;
                        },
                    }
                }
            }
        }
    }

    /// Drains the generator, returning every composition it had yet to
    /// produce, in order.
    pub fn collect(&mut self) -> (r: Vec<Vec<u32>>)
        requires
            wf_xfill(*old(self)),
        ensures
            wf_xfill(*final(self)),
            r.deep_view() == old(self)@,
            final(self)@.len() == 0,
    {
        let ghost all = self@;
        let mut r: Vec<Vec<u32>> = Vec::new();
        loop
            invariant
                wf_xfill(*self),
                r.deep_view() + self@ == all,
            ensures
                wf_xfill(*self),
                self@.len() == 0,
                r.deep_view() == all,
            decreases self@.len(),
        {
            match self.next() {
                Some(v) => {
                    r.push(v);
                    proof {
                        assert(r.deep_view() + self@ =~~= all);
                    }
                },
                None => {
                    proof {
                        assert(r.deep_view() =~~= all);
                    }
                    break ;
                },
            }
        }
        r
    }
}

/// One relaxed composition: exactly `len` parts summing to `sum`, every
/// interior part at least 1; the first and last part may be zero.
pub open spec fn relaxed_ok(s: Seq<u32>, sum: int, len: int) -> bool {
    &&& s.len() == len
    &&& seq_sum(s) == sum
    &&& forall|j: int| 1 <= j < s.len() - 1 ==> 1 <= #[trigger] s[j]
}

/// The blocks of a list of candidate last parts hold only well-shaped
/// relaxed compositions.
proof fn lemma_lasts_blocks_shape(sum: u32, len: u32, head: u32, lasts: Seq<u32>)
    requires
        len >= 3,
    ensures
        forall|i: int|
            0 <= i < lasts_blocks(sum, len, head, lasts).len() ==> relaxed_ok(
                #[trigger] lasts_blocks(sum, len, head, lasts)[i],
                sum as int,
                len as int,
            ),
    decreases lasts.len(),
{
    if lasts.len() == 0 {
    } else {
        let l = lasts[0];
        let mids = hfill_seq(sum - head - l, len - 2);
        let block = surrounded(mids, head, l);
        let rest = lasts_blocks(sum, len, head, lasts.drop_first());
        lemma_hfill_seq_shape(sum - head - l, len - 2);
        lemma_lasts_blocks_shape(sum, len, head, lasts.drop_first());
        assert forall|i: int| 0 <= i < block.len() implies relaxed_ok(
            #[trigger] block[i],
            sum as int,
            len as int,
        ) by {
            let m = mids[i];
            assert(composition_ok(m, sum - head - l, len - 2));
            assert(block[i] == seq![head] + m + seq![l]);
            lemma_seq_sum_snoc(seq![head] + m, l);
            lemma_seq_sum_cons(head, m);
            assert forall|j: int| 1 <= j < block[i].len() - 1 implies 1 <= #[trigger] block[i][j] by {
                assert(block[i][j] == m[j - 1]);
            }
        }
        assert forall|i: int| 0 <= i < lasts_blocks(sum, len, head, lasts).len() implies relaxed_ok(
            #[trigger] lasts_blocks(sum, len, head, lasts)[i],
            sum as int,
            len as int,
        ) by {
            if i < block.len() {
                assert(lasts_blocks(sum, len, head, lasts)[i] == block[i]);
            } else {
                assert(lasts_blocks(sum, len, head, lasts)[i] == rest[i - block.len()]);
            }
        }
    }
}

/// The runs of every candidate first part hold only well-shaped relaxed
/// compositions.
proof fn lemma_xheads_blocks_shape(sum: u32, len: u32, heads: Seq<u32>)
    requires
        len >= 3,
    ensures
        forall|i: int|
            0 <= i < xheads_blocks(sum, len, heads).len() ==> relaxed_ok(
                #[trigger] xheads_blocks(sum, len, heads)[i],
                sum as int,
                len as int,
            ),
    decreases heads.len(),
{
    if heads.len() == 0 {
    } else {
        let h = heads[0];
        let block = lasts_blocks(sum, len, h, counting(0, sum - (len - 2) - h));
        let rest = xheads_blocks(sum, len, heads.drop_first());
        lemma_lasts_blocks_shape(sum, len, h, counting(0, sum - (len - 2) - h));
        lemma_xheads_blocks_shape(sum, len, heads.drop_first());
        assert forall|i: int| 0 <= i < xheads_blocks(sum, len, heads).len() implies relaxed_ok(
            #[trigger] xheads_blocks(sum, len, heads)[i],
            sum as int,
            len as int,
        ) by {
            if i < block.len() {
                assert(xheads_blocks(sum, len, heads)[i] == block[i]);
            } else {
                assert(xheads_blocks(sum, len, heads)[i] == rest[i - block.len()]);
            }
        }
    }
}

/// Law: every output of the relaxed-composition enumeration of `(sum, len)`
/// has exactly `len` elements and they sum to `sum`; every interior element
/// is at least 1, while the first and last may be zero.
pub proof fn lemma_xfill_seq_shape(sum: int, len: int)
    requires
        sum <= u32::MAX,
        len <= u32::MAX,
    ensures
        forall|i: int|
            0 <= i < xfill_seq(sum, len).len() ==> relaxed_ok(
                #[trigger] xfill_seq(sum, len)[i],
                sum,
                len,
            ),
{
    if len < 2 || sum < len - 2 {
    } else if len == 2 {
        assert forall|i: int| 0 <= i < xfill_seq(sum, len).len() implies relaxed_ok(
            #[trigger] xfill_seq(sum, len)[i],
            sum,
            len,
        ) by {
            let h = counting(0, sum)[i];
            assert(h == i);
            assert(xfill_seq(sum, len)[i] == seq![h, ((sum as u32) - h) as u32]);
            lemma_seq_sum_pair(h, ((sum as u32) - h) as u32);
        }
    } else {
        let heads = counting(0, sum - (len - 2));
        lemma_xheads_blocks_shape(sum as u32, len as u32, heads);
        assert(xfill_seq(sum, len) == xheads_blocks(sum as u32, len as u32, heads));
        assert forall|i: int| 0 <= i < xfill_seq(sum, len).len() implies relaxed_ok(
            #[trigger] xfill_seq(sum, len)[i],
            sum,
            len,
        ) by {
            assert(relaxed_ok(
                xheads_blocks(sum as u32, len as u32, heads)[i],
                sum as u32 as int,
                len as u32 as int,
            ));
        }
    }
}

/// A last-part block list contains `head` and `lasts[j]` wrapped around
/// anything the matching interior enumeration contains.
proof fn lemma_lasts_blocks_contains(
    sum: u32,
    len: u32,
    head: u32,
    lasts: Seq<u32>,
    j: int,
    m: Seq<u32>,
)
    requires
        0 <= j < lasts.len(),
        hfill_seq(sum - head - lasts[j], len - 2).contains(m),
    ensures
        lasts_blocks(sum, len, head, lasts).contains(seq![head] + m + seq![lasts[j]]),
    decreases j,
{
    let block = surrounded(hfill_seq(sum - head - lasts[0], len - 2), head, lasts[0]);
    if j == 0 {
        let i = choose|i: int|
            0 <= i < hfill_seq(sum - head - lasts[0], len - 2).len() && #[trigger] hfill_seq(
                sum - head - lasts[0],
                len - 2,
            )[i] == m;
        assert(block[i] == seq![head] + m + seq![lasts[0]]);
        assert(lasts_blocks(sum, len, head, lasts)[i] == seq![head] + m + seq![lasts[0]]);
    } else {
        lemma_lasts_blocks_contains(sum, len, head, lasts.drop_first(), j - 1, m);
        let rest = lasts_blocks(sum, len, head, lasts.drop_first());
        let target = seq![head] + m + seq![lasts[j]];
        let i = choose|i: int| 0 <= i < rest.len() && rest[i] == target;
        assert(lasts_blocks(sum, len, head, lasts)[block.len() + i] == target);
    }
}

/// The runs of the candidate first parts contain whatever the run of
/// `heads[j]` contains.
proof fn lemma_xheads_blocks_contains(sum: u32, len: u32, heads: Seq<u32>, j: int, x: Seq<u32>)
    requires
        0 <= j < heads.len(),
        lasts_blocks(sum, len, heads[j], counting(0, sum - (len - 2) - heads[j])).contains(x),
    ensures
        xheads_blocks(sum, len, heads).contains(x),
    decreases j,
{
    let block = lasts_blocks(sum, len, heads[0], counting(0, sum - (len - 2) - heads[0]));
    if j == 0 {
        let i = choose|i: int| 0 <= i < block.len() && block[i] == x;
        assert(xheads_blocks(sum, len, heads)[i] == x);
    } else {
        lemma_xheads_blocks_contains(sum, len, heads.drop_first(), j - 1, x);
        let rest = xheads_blocks(sum, len, heads.drop_first());
        let i = choose|i: int| 0 <= i < rest.len() && rest[i] == x;
        assert(xheads_blocks(sum, len, heads)[block.len() + i] == x);
    }
}

/// Law: the enumeration is exhaustive. Every sequence of exactly `len`
/// parts summing to `sum` whose interior parts are all at least 1 appears
/// among the outputs of the relaxed-composition enumeration of `(sum, len)`.
pub proof fn lemma_xfill_seq_complete(s: Seq<u32>, sum: int, len: int)
    requires
        relaxed_ok(s, sum, len),
        2 <= len <= u32::MAX,
        sum <= u32::MAX,
    ensures
        xfill_seq(sum, len).contains(s),
{
    lemma_seq_sum_nonneg_parts(s);
    if len == 2 {
        assert(s =~= seq![s[0], s[1]]);
        lemma_seq_sum_pair(s[0], s[1]);
        let h = s[0];
        assert(counting(0, sum)[h as int] == h);
        assert(pairs_view(sum as u32, counting(0, sum))[h as int] == seq![
            h,
            ((sum as u32) - h) as u32,
        ]);
        assert(seq![h, ((sum as u32) - h) as u32] =~= s);
    } else {
        let h = s[0];
        let l = s[len - 1];
        let mid = s.subrange(1, len - 1);
        assert(s =~= seq![h] + mid + seq![l]);
        lemma_seq_sum_snoc(seq![h] + mid, l);
        lemma_seq_sum_cons(h, mid);
        assert forall|j: int| 0 <= j < mid.len() implies 1 <= #[trigger] mid[j] by {
            assert(mid[j] == s[j + 1]);
        }
        lemma_seq_sum_lower_bound(mid);
        assert(composition_ok(mid, sum - h - l, len - 2));
        lemma_hfill_seq_complete(mid, sum - h - l, len - 2);
        assert(l <= sum - (len - 2) - h);
        let lasts = counting(0, sum - (len - 2) - h);
        assert(lasts[l as int] == l);
        lemma_lasts_blocks_contains(sum as u32, len as u32, h, lasts, l as int, mid);
        let heads = counting(0, sum - (len - 2));
        assert(heads[h as int] == h);
        lemma_xheads_blocks_contains(
            sum as u32,
            len as u32,
            heads,
            h as int,
            seq![h] + mid + seq![l],
        );
    }
}

/// The blocks of pairwise-distinct last-part candidates hold pairwise-
/// distinct compositions, each of at least two parts, starting with `head`
/// and ending with one of the candidates.
proof fn lemma_lasts_blocks_distinct(sum: u32, len: u32, head: u32, lasts: Seq<u32>)
    requires
        len >= 3,
        forall|i: int, j: int| 0 <= i < j < lasts.len() ==> lasts[i] != lasts[j],
    ensures
        lasts_blocks(sum, len, head, lasts).no_duplicates(),
        forall|i: int|
            0 <= i < lasts_blocks(sum, len, head, lasts).len() ==> (#[trigger] lasts_blocks(
                sum,
                len,
                head,
                lasts,
            )[i]).len() >= 2 && lasts_blocks(sum, len, head, lasts)[i][0] == head && lasts.contains(
                lasts_blocks(sum, len, head, lasts)[i].last(),
            ),
    decreases lasts.len(),
{
    if lasts.len() == 0 {
    } else {
        let l = lasts[0];
        let mids = hfill_seq(sum - head - l, len - 2);
        let block = surrounded(mids, head, l);
        let rest = lasts_blocks(sum, len, head, lasts.drop_first());
        let all = lasts_blocks(sum, len, head, lasts);
        lemma_hfill_seq_distinct(sum - head - l, len - 2);
        lemma_lasts_blocks_distinct(sum, len, head, lasts.drop_first());
        assert forall|i: int| 0 <= i < block.len() implies (#[trigger] block[i]).len() >= 2
            && block[i][0] == head && block[i].last() == l by {
            assert(block[i] == seq![head] + mids[i] + seq![l]);
        }
        assert forall|i: int| 0 <= i < all.len() implies (#[trigger] all[i]).len() >= 2 && all[i][0]
            == head && lasts.contains(all[i].last()) by {
            if i < block.len() {
                assert(all[i] == block[i]);
                assert(lasts[0] == l);
            } else {
                assert(all[i] == rest[i - block.len()]);
                let f = rest[i - block.len()].last();
                let j = choose|j: int|
                    0 <= j < lasts.drop_first().len() && #[trigger] lasts.drop_first()[j] == f;
                assert(lasts[j + 1] == f);
            }
        }
        assert forall|i: int, j: int|
            0 <= i < all.len() && 0 <= j < all.len() && i != j implies all[i] != all[j] by {
            if i < block.len() && j < block.len() {
                assert(all[i] == seq![head] + mids[i] + seq![l]);
                assert(all[j] == seq![head] + mids[j] + seq![l]);
                assert(mids[i] != mids[j]);
                assert((seq![head] + mids[i] + seq![l]).subrange(1, all[i].len() - 1)
                    =~= mids[i]);
                assert((seq![head] + mids[j] + seq![l]).subrange(1, all[j].len() - 1)
                    =~= mids[j]);
            } else if i >= block.len() && j >= block.len() {
                assert(all[i] == rest[i - block.len()]);
                assert(all[j] == rest[j - block.len()]);
            } else {
                let b = if i < block.len() {
                    i
                } else {
                    j
                };
                let r = if i < block.len() {
                    j
                } else {
                    i
                };
                assert(all[b] == block[b]);
                assert(all[b].last() == l);
                assert(all[r] == rest[r - block.len()]);
                let f = rest[r - block.len()].last();
                let k = choose|k: int|
                    0 <= k < lasts.drop_first().len() && #[trigger] lasts.drop_first()[k] == f;
                assert(lasts[k + 1] == f);
                assert(f != l);
            }
        }
    }
}

/// The runs of pairwise-distinct first-part candidates hold pairwise-
/// distinct compositions, each starting with one of the candidates.
proof fn lemma_xheads_blocks_distinct(sum: u32, len: u32, heads: Seq<u32>)
    requires
        len >= 3,
        forall|i: int, j: int| 0 <= i < j < heads.len() ==> heads[i] != heads[j],
    ensures
        xheads_blocks(sum, len, heads).no_duplicates(),
        forall|i: int|
            0 <= i < xheads_blocks(sum, len, heads).len() ==> (#[trigger] xheads_blocks(
                sum,
                len,
                heads,
            )[i]).len() >= 2 && heads.contains(xheads_blocks(sum, len, heads)[i][0]),
    decreases heads.len(),
{
    if heads.len() == 0 {
    } else {
        let h = heads[0];
        let lasts = counting(0, sum - (len - 2) - h);
        let block = lasts_blocks(sum, len, h, lasts);
        let rest = xheads_blocks(sum, len, heads.drop_first());
        let all = xheads_blocks(sum, len, heads);
        assert forall|i: int, j: int| 0 <= i < j < lasts.len() implies lasts[i] != lasts[j] by {
            assert(lasts[i] == i as u32);
            assert(lasts[j] == j as u32);
        }
        lemma_lasts_blocks_distinct(sum, len, h, lasts);
        lemma_xheads_blocks_distinct(sum, len, heads.drop_first());
        assert forall|i: int| 0 <= i < all.len() implies (#[trigger] all[i]).len() >= 2
            && heads.contains(all[i][0]) by {
            if i < block.len() {
                assert(all[i] == block[i]);
                assert(heads[0] == h);
            } else {
                assert(all[i] == rest[i - block.len()]);
                let f = rest[i - block.len()][0];
                let j = choose|j: int|
                    0 <= j < heads.drop_first().len() && #[trigger] heads.drop_first()[j] == f;
                assert(heads[j + 1] == f);
            }
        }
        assert forall|i: int, j: int|
            0 <= i < all.len() && 0 <= j < all.len() && i != j implies all[i] != all[j] by {
            if i < block.len() && j < block.len() {
                assert(all[i] == block[i]);
                assert(all[j] == block[j]);
            } else if i >= block.len() && j >= block.len() {
                assert(all[i] == rest[i - block.len()]);
                assert(all[j] == rest[j - block.len()]);
            } else {
                let b = if i < block.len() {
                    i
                } else {
                    j
                };
                let r = if i < block.len() {
                    j
                } else {
                    i
                };
                assert(all[b] == block[b]);
                assert(all[b][0] == h);
                assert(all[r] == rest[r - block.len()]);
                let f = rest[r - block.len()][0];
                let k = choose|k: int|
                    0 <= k < heads.drop_first().len() && #[trigger] heads.drop_first()[k] == f;
                assert(heads[k + 1] == f);
                assert(f != h);
            }
        }
    }
}

/// Law: the enumeration never repeats itself: its outputs are pairwise
/// distinct. Together with the exhaustiveness law, every relaxed
/// composition appears exactly once.
pub proof fn lemma_xfill_seq_distinct(sum: int, len: int)
    requires
        sum <= u32::MAX,
        len <= u32::MAX,
    ensures
        xfill_seq(sum, len).no_duplicates(),
{
    if len < 2 || sum < len - 2 {
    } else if len == 2 {
        let pairs = pairs_view(sum as u32, counting(0, sum));
        assert forall|i: int, j: int|
            0 <= i < pairs.len() && 0 <= j < pairs.len() && i != j implies pairs[i] != pairs[j] by {
            assert(pairs[i][0] == i as u32);
            assert(pairs[j][0] == j as u32);
        }
    } else {
        let heads = counting(0, sum - (len - 2));
        assert forall|i: int, j: int| 0 <= i < j < heads.len() implies heads[i] != heads[j] by {
            assert(heads[i] == i as u32);
            assert(heads[j] == j as u32);
        }
        lemma_xheads_blocks_distinct(sum as u32, len as u32, heads);
    }
}

/// Every element of a sequence of unsigned values lies below or at its sum.
proof fn lemma_seq_sum_nonneg_parts(s: Seq<u32>)
    ensures
        forall|j: int| 0 <= j < s.len() ==> #[trigger] s[j] <= seq_sum(s),
    decreases s.len(),
{
    if s.len() > 0 {
        lemma_seq_sum_nonneg_parts(s.drop_first());
        crate::sums::lemma_seq_sum_nonneg(s.drop_first());
        assert forall|j: int| 0 <= j < s.len() implies #[trigger] s[j] <= seq_sum(s) by {
            if j > 0 {
                assert(s[j] == s.drop_first()[j - 1]);
            }
        }
    }
}

/// Special combinations of integer lists.
///
/// Creates a generator that produces all combinations of integer lists where
/// the number of elements is `len`, the sum of elements is `sum`, the first
/// and last elements are equal or greater than 0, and the remaining elements
/// are equal or greater than 1. Fails with an invalid-argument error exactly
/// when `len < 2` or `sum < len - 2`.
pub fn xfill(sum: u32, len: u32) -> (r: Result<Xfill, FillError>)
    ensures
        r is Err <==> (len < 2 || sum + 2 < len),
        (match r {
            Ok(x) => wf_xfill(x) && x@ == xfill_seq(sum as int, len as int),
            Err(e) => e == FillError::InvalidArgument,
        }),
{
    Xfill::new(sum, len)
}

} // verus!
