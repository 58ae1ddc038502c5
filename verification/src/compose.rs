//! Compositions of a fixed sum into a fixed number of parts, every part at
//! least 1, enumerated in ascending lexicographic order of the head element.

use vstd::prelude::*;

use crate::counter::{counting, Counter};
use crate::sums::{lemma_seq_sum_cons, lemma_seq_sum_lower_bound, seq_sum};

verus! {

/// Every sequence of `tails`, with `head` prepended.
pub open spec fn prepended(tails: Seq<Seq<u32>>, head: u32) -> Seq<Seq<u32>> {
    tails.map_values(|t: Seq<u32>| seq![head] + t)
}

/// All compositions of `sum` into exactly `len` parts, each part at least 1,
/// ordered ascending by head element, ties broken by the same order on the
/// tail. Empty when `len == 0` or `sum < len`.
pub open spec fn hfill_seq(sum: int, len: int) -> Seq<Seq<u32>>
    decreases len, (if sum < 0 { 0int } else { sum + 2 }),
{
    if len <= 0 || sum < len {
        Seq::empty()
    } else if len == 1 {
        seq![seq![sum as u32]]
    } else {
        heads_blocks(sum as u32, len as u32, counting(1, sum - (len - 1)))
    }
}

/// The compositions of `sum` into `len` parts whose head element is drawn, in
/// order, from `heads`: one block of tails per candidate head.
pub open spec fn heads_blocks(sum: u32, len: u32, heads: Seq<u32>) -> Seq<Seq<u32>>
    decreases len, heads.len(),
{
    if len < 2 || heads.len() == 0 {
        Seq::empty()
    } else {
        prepended(hfill_seq(sum - heads[0], len - 1), heads[0]) + heads_blocks(
            sum,
            len,
            heads.drop_first(),
        )
    }
}

/// An iterator for producing special combinations of integer lists: the
/// compositions of `sum` into `len` parts, each at least 1.
///
/// The state holds the candidate head values still to try and, while one head
/// is active, a nested generator for the corresponding tails.
pub struct Hfill {
    sum: u32,
    len: u32,
    heads: Counter,
    head: u32,
    tails: Option<Box<Hfill>>,
}

/// Well-formedness: every candidate head still pending leaves at least 1 for
/// each remaining slot, and any active tail generator is well-formed too.
pub closed spec fn wf_hfill(h: Hfill) -> bool
    decreases h,
{
    &&& (h.len >= 2 && h.sum >= h.len ==> forall|i: int|
        0 <= i < h.heads@.len() ==> 1 <= #[trigger] h.heads@[i] && h.heads@[i] + h.len <= h.sum
            + 1)
    &&& (match h.tails {
        Some(t) => wf_hfill(*t) && (h.len >= 2 ==> t.len < h.len),
        None => true,
    })
}

/// The number of parts of every composition this generator produces.
pub closed spec fn hfill_len(h: Hfill) -> int {
    h.len as int
}

/// The compositions this generator has yet to produce: what is left of the
/// active head's block, then one full block per pending head.
pub closed spec fn hfill_remaining(h: Hfill) -> Seq<Seq<u32>>
    decreases h,
{
    if h.len == 0 || h.sum < h.len {
        Seq::empty()
    } else if h.len == 1 {
        seq![seq![h.sum]]
    } else {
        (match h.tails {
            Some(t) => prepended(hfill_remaining(*t), h.head),
            None => Seq::empty(),
        }) + heads_blocks(h.sum, h.len, h.heads@)
    }
}

impl View for Hfill {
    type V = Seq<Seq<u32>>;

    closed spec fn view(&self) -> Seq<Seq<u32>> {
        hfill_remaining(*self)
    }
}

/// Popping the first tail of the active block pops the first element of the
/// whole remaining view.
proof fn lemma_pop_active_block(a: Seq<Seq<u32>>, b: Seq<Seq<u32>>, head: u32)
    requires
        a.len() > 0,
    ensures
        (prepended(a, head) + b)[0] == seq![head] + a[0],
        prepended(a.drop_first(), head) + b == (prepended(a, head) + b).drop_first(),
{
    assert(prepended(a.drop_first(), head) + b =~= (prepended(a, head) + b).drop_first());
}

impl Hfill {
    /// Builds the generator of all compositions of `sum` into `len` parts,
    /// each part at least 1. Degenerate inputs yield an already-exhausted
    /// generator; construction never fails.
    pub fn new(sum: u32, len: u32) -> (r: Hfill)
        ensures
            wf_hfill(r),
            r@ == hfill_seq(sum as int, len as int),
            hfill_len(r) == len,
    {
        let slots_after_head = if len >= 1 {
            len - 1
        } else {
            0
        };
        let until = if sum >= slots_after_head {
            sum - slots_after_head
        } else {
            0
        };
        let r = Hfill { sum, len, heads: Counter::new(1, until), head: 0, tails: None };
        proof {
            if len >= 2 && sum >= len {
                assert(r@ =~= heads_blocks(sum, len, counting(1, sum - (len - 1))));
            }
        }
        r
    }

    /// Produces the next composition, or `None` once every composition has
    /// been produced. Each successful pull removes exactly the first element
    /// of the view.
    pub fn next(&mut self) -> (r: Option<Vec<u32>>)
        requires
            wf_hfill(*old(self)),
        ensures
            wf_hfill(*final(self)),
            old(self)@.len() == 0 ==> r is None && final(self)@ == old(self)@,
            old(self)@.len() > 0 ==> final(self)@ == old(self)@.drop_first() && (match r {
                Some(v) => v@ == old(self)@[0],
                None => false,
            }),
            hfill_len(*final(self)) <= hfill_len(*old(self)),
        decreases hfill_len(*old(self)),
    {
        if self.len == 0 {
            return None;
        }
        if self.sum < self.len {
            return None;
        }
        if self.len == 1 {
            let ghost entry = *self;
            self.len = 0;
            let mut v: Vec<u32> = Vec::new();
            v.push(self.sum);
            proof {
                assert(v@ =~= entry@[0]);
                assert(self@ =~= entry@.drop_first());
            }
            return Some(v);
        }
        loop
            invariant
                wf_hfill(*self),
                self.len == old(self).len,
                self.sum == old(self).sum,
                self.len >= 2,
                self.sum >= self.len,
                self@ == old(self)@,
            decreases self.heads@.len() * 2 + (match self.tails {
                Some(_) => 1int,
                None => 0int,
            }),
        {
            let ghost entry = *self;
            if self.tails.is_some() {
                let pulled = match &mut self.tails {
                    Some(t) => t.next(),
                    None => None,
                };
                let ghost t_pre = entry.tails->Some_0;
                match pulled {
                    Some(mut tail) => {
                        proof {
                            lemma_pop_active_block(
                                t_pre@,
                                heads_blocks(entry.sum, entry.len, entry.heads@),
                                entry.head,
                            );
                        }
                        let mut out: Vec<u32> = Vec::new();
                        out.push(self.head);
                        out.append(&mut tail);
                        proof {
                            assert(out@ =~= seq![entry.head] + t_pre@[0]);
                        }
                        return Some(out);
                    },
                    None => {
                        self.tails = None;
                        proof {
                            assert(prepended(Seq::<Seq<u32>>::empty(), entry.head)
                                =~= Seq::<Seq<u32>>::empty());
                            assert(prepended(t_pre@, entry.head) =~= Seq::<Seq<u32>>::empty());
                            assert(self@ =~= entry@);
                        }
                    },
                }
            } else {
                match self.heads.next() {
                    Some(h) => {
                        self.head = h;
                        let sub = Hfill::new(self.sum - h, self.len - 1);
                        self.tails = Some(Box::new(sub));
                        proof {
                            assert forall|i: int| 0 <= i < self.heads@.len() implies 1
                                <= #[trigger] self.heads@[i] && self.heads@[i] + self.len
                                <= self.sum + 1 by {
                                assert(self.heads@[i] == entry.heads@[i + 1]);
                            }
                            assert(self@ =~= entry@);
                        }
                    },
                    None => {
                        proof {
                            assert(self@ =~= entry@);
                            assert(self@.len() == 0);
                        }
                        return None;
                    },
                }
            }
        }
    }

    /// Drains the generator, returning every composition it had yet to
    /// produce, in order.
    pub fn collect(&mut self) -> (r: Vec<Vec<u32>>)
        requires
            wf_hfill(*old(self)),
        ensures
            wf_hfill(*final(self)),
            r.deep_view() == old(self)@,
            final(self)@.len() == 0,
    {
        let ghost all = self@;
        let mut r: Vec<Vec<u32>> = Vec::new();
        loop
            invariant
                wf_hfill(*self),
                r.deep_view() + self@ == all,
            ensures
                wf_hfill(*self),
                self@.len() == 0,
                r.deep_view() == all,
            decreases self@.len(),
        {
            match self.next() {
                Some(v) => {
                    r.push(v);
                    proof {
                        assert(r.deep_view() + self@ =~~= all);
                    }
                },
                None => {
                    proof {
                        assert(r.deep_view() =~~= all);
                    }
                    break ;
                },
            }
        }
        r
    }
}

/// One all-positive composition: exactly `len` parts, each at least 1,
/// summing to `sum`.
pub open spec fn composition_ok(s: Seq<u32>, sum: int, len: int) -> bool {
    &&& s.len() == len
    &&& seq_sum(s) == sum
    &&& forall|j: int| 0 <= j < s.len() ==> 1 <= #[trigger] s[j]
}

/// The blocks of a head list whose candidates are all at least 1 hold only
/// well-shaped compositions.
proof fn lemma_heads_blocks_shape(sum: u32, len: u32, heads: Seq<u32>)
    requires
        len >= 2,
        forall|i: int| 0 <= i < heads.len() ==> 1 <= #[trigger] heads[i],
    ensures
        forall|i: int|
            0 <= i < heads_blocks(sum, len, heads).len() ==> composition_ok(
                #[trigger] heads_blocks(sum, len, heads)[i],
                sum as int,
                len as int,
            ),
    decreases len, heads.len(),
{
    if heads.len() == 0 {
    } else {
        let h = heads[0];
        let block = prepended(hfill_seq(sum - h, len - 1), h);
        let rest = heads_blocks(sum, len, heads.drop_first());
        lemma_hfill_seq_shape(sum - h, len - 1);
        lemma_heads_blocks_shape(sum, len, heads.drop_first());
        assert forall|i: int| 0 <= i < block.len() implies composition_ok(
            #[trigger] block[i],
            sum as int,
            len as int,
        ) by {
            let t = hfill_seq(sum - h, len - 1)[i];
            lemma_seq_sum_cons(h, t);
            assert(composition_ok(t, sum - h, len - 1));
            assert forall|j: int| 0 <= j < block[i].len() implies 1 <= #[trigger] block[i][j] by {
                if j > 0 {
                    assert(block[i][j] == t[j - 1]);
                }
            }
        }
        assert forall|i: int| 0 <= i < heads_blocks(sum, len, heads).len() implies composition_ok(
            #[trigger] heads_blocks(sum, len, heads)[i],
            sum as int,
            len as int,
        ) by {
            if i < block.len() {
                assert(heads_blocks(sum, len, heads)[i] == block[i]);
            } else {
                assert(heads_blocks(sum, len, heads)[i] == rest[i - block.len()]);
            }
        }
    }
}

/// Law: every output of the positive-composition enumeration of `(sum, len)`
/// has exactly `len` elements, each at least 1, and they sum to `sum`.
pub proof fn lemma_hfill_seq_shape(sum: int, len: int)
    requires
        sum <= u32::MAX,
    ensures
        forall|i: int|
            0 <= i < hfill_seq(sum, len).len() ==> composition_ok(
                #[trigger] hfill_seq(sum, len)[i],
                sum,
                len,
            ),
    decreases len, (if sum < 0 { 0int } else { sum + 2 }),
{
    if len <= 0 || sum < len {
    } else if len == 1 {
        assert forall|i: int| 0 <= i < hfill_seq(sum, len).len() implies composition_ok(
            #[trigger] hfill_seq(sum, len)[i],
            sum,
            len,
        ) by {
            let s = hfill_seq(sum, len)[0];
            assert(s =~= seq![sum as u32]);
            assert(s.drop_first() =~= Seq::<u32>::empty());
            assert(seq_sum(s) == s[0] + seq_sum(s.drop_first()));
            assert(seq_sum(s.drop_first()) == 0);
            assert(seq_sum(s) == sum);
        }
    } else {
        let heads = counting(1, sum - (len - 1));
        lemma_heads_blocks_shape(sum as u32, len as u32, heads);
        assert(hfill_seq(sum, len) == heads_blocks(sum as u32, len as u32, heads));
        assert forall|i: int| 0 <= i < hfill_seq(sum, len).len() implies composition_ok(
            #[trigger] hfill_seq(sum, len)[i],
            sum,
            len,
        ) by {
            assert(composition_ok(
                heads_blocks(sum as u32, len as u32, heads)[i],
                sum as u32 as int,
                len as u32 as int,
            ));
        }
    }
}

/// A block list contains `heads[j]` prepended to anything its tail
/// enumeration contains.
proof fn lemma_heads_blocks_contains(sum: u32, len: u32, heads: Seq<u32>, j: int, t: Seq<u32>)
    requires
        len >= 2,
        0 <= j < heads.len(),
        hfill_seq(sum - heads[j], len - 1).contains(t),
    ensures
        heads_blocks(sum, len, heads).contains(seq![heads[j]] + t),
    decreases j,
{
    let block = prepended(hfill_seq(sum - heads[0], len - 1), heads[0]);
    if j == 0 {
        let i = choose|i: int|
            0 <= i < hfill_seq(sum - heads[0], len - 1).len() && #[trigger] hfill_seq(
                sum - heads[0],
                len - 1,
            )[i] == t;
        assert(block[i] == seq![heads[0]] + t);
        assert(heads_blocks(sum, len, heads)[i] == seq![heads[0]] + t);
    } else {
        lemma_heads_blocks_contains(sum, len, heads.drop_first(), j - 1, t);
        let rest = heads_blocks(sum, len, heads.drop_first());
        let i = choose|i: int| 0 <= i < rest.len() && rest[i] == seq![heads[j]] + t;
        assert(heads_blocks(sum, len, heads)[block.len() + i] == seq![heads[j]] + t);
    }
}

/// Law: the enumeration is exhaustive. Every sequence of exactly `len`
/// parts, each at least 1, summing to `sum`, appears among the outputs of
/// the positive-composition enumeration of `(sum, len)`.
pub proof fn lemma_hfill_seq_complete(s: Seq<u32>, sum: int, len: int)
    requires
        composition_ok(s, sum, len),
        1 <= len,
        sum <= u32::MAX,
    ensures
        hfill_seq(sum, len).contains(s),
    decreases len,
{
    lemma_seq_sum_lower_bound(s);
    if len == 1 {
        assert(s.drop_first() =~= Seq::<u32>::empty());
        assert(seq_sum(s) == s[0] + seq_sum(s.drop_first()));
        assert(s =~= seq![sum as u32]);
        assert(hfill_seq(sum, len)[0] == s);
    } else {
        let h = s[0];
        let rest = s.drop_first();
        assert(seq_sum(s) == h + seq_sum(rest));
        assert forall|j: int| 0 <= j < rest.len() implies 1 <= #[trigger] rest[j] by {
            assert(rest[j] == s[j + 1]);
        }
        lemma_seq_sum_lower_bound(rest);
        assert(composition_ok(rest, sum - h, len - 1));
        lemma_hfill_seq_complete(rest, sum - h, len - 1);
        let heads = counting(1, sum - (len - 1));
        assert(heads[h - 1] == h);
        lemma_heads_blocks_contains(sum as u32, len as u32, heads, h - 1, rest);
        assert(s =~= seq![h] + rest);
    }
}

/// The blocks of pairwise-distinct head candidates hold pairwise-distinct
/// compositions, each nonempty and starting with one of the candidates.
proof fn lemma_heads_blocks_distinct(sum: u32, len: u32, heads: Seq<u32>)
    requires
        len >= 2,
        forall|i: int, j: int| 0 <= i < j < heads.len() ==> heads[i] != heads[j],
    ensures
        heads_blocks(sum, len, heads).no_duplicates(),
        forall|i: int|
            0 <= i < heads_blocks(sum, len, heads).len() ==> (#[trigger] heads_blocks(
                sum,
                len,
                heads,
            )[i]).len() >= 1 && heads.contains(heads_blocks(sum, len, heads)[i][0]),
    decreases len, heads.len(),
{
    if heads.len() == 0 {
    } else {
        let h = heads[0];
        let tails = hfill_seq(sum - h, len - 1);
        let block = prepended(tails, h);
        let rest = heads_blocks(sum, len, heads.drop_first());
        let all = heads_blocks(sum, len, heads);
        lemma_hfill_seq_distinct(sum - h, len - 1);
        lemma_heads_blocks_distinct(sum, len, heads.drop_first());
        assert forall|i: int| 0 <= i < all.len() implies (#[trigger] all[i]).len() >= 1
            && heads.contains(all[i][0]) by {
            if i < block.len() {
                assert(all[i] == block[i]);
                assert(all[i][0] == h);
                assert(heads[0] == h);
            } else {
                assert(all[i] == rest[i - block.len()]);
                let f = rest[i - block.len()][0];
                let j = choose|j: int|
                    0 <= j < heads.drop_first().len() && #[trigger] heads.drop_first()[j] == f;
                assert(heads[j + 1] == f);
            }
        }
        assert forall|i: int, j: int|
            0 <= i < all.len() && 0 <= j < all.len() && i != j implies all[i] != all[j] by {
            if i < block.len() && j < block.len() {
                assert(all[i] == seq![h] + tails[i]);
                assert(all[j] == seq![h] + tails[j]);
                assert(tails[i] != tails[j]);
                assert((seq![h] + tails[i]).drop_first() =~= tails[i]);
                assert((seq![h] + tails[j]).drop_first() =~= tails[j]);
            } else if i >= block.len() && j >= block.len() {
                assert(all[i] == rest[i - block.len()]);
                assert(all[j] == rest[j - block.len()]);
            } else {
                let b = if i < block.len() {
                    i
                } else {
                    j
                };
                let r = if i < block.len() {
                    j
                } else {
                    i
                };
                assert(all[b] == block[b]);
                assert(all[b][0] == h);
                assert(all[r] == rest[r - block.len()]);
                let f = rest[r - block.len()][0];
                let k = choose|k: int|
                    0 <= k < heads.drop_first().len() && #[trigger] heads.drop_first()[k] == f;
                assert(heads[k + 1] == f);
                assert(f != h);
            }
        }
    }
}

/// Law: the enumeration never repeats itself: its outputs are pairwise
/// distinct. Together with the exhaustiveness law, every composition
/// appears exactly once.
pub proof fn lemma_hfill_seq_distinct(sum: int, len: int)
    requires
        sum <= u32::MAX,
    ensures
        hfill_seq(sum, len).no_duplicates(),
    decreases len, (if sum < 0 { 0int } else { sum + 2 }),
{
    if len <= 0 || sum < len {
    } else if len == 1 {
    } else {
        let heads = counting(1, sum - (len - 1));
        assert forall|i: int, j: int| 0 <= i < j < heads.len() implies heads[i] != heads[j] by {
            assert(heads[i] == (1 + i) as u32);
            assert(heads[j] == (1 + j) as u32);
        }
        lemma_heads_blocks_distinct(sum as u32, len as u32, heads);
    }
}

/// Special combinations of integer lists.
///
/// Creates a generator that produces all combinations of integer lists of
/// fixed length `len`, whose sum of elements is `sum` and each element is at
/// least 1.
pub fn hfill(sum: u32, len: u32) -> (r: Hfill)
    ensures
        wf_hfill(r),
        r@ == hfill_seq(sum as int, len as int),
{
    Hfill::new(sum, len)
}

} // verus!
