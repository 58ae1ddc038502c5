//! All candidate fillings of one picross line: for a list of run lengths and
//! a line length, every legal arrangement of gaps and runs along the line.

use vstd::prelude::*;

use crate::blend::{blend_seq, blend_slices, lemma_blend_interleave, lemma_blend_sum};
use crate::relax::{
    lemma_xfill_seq_complete, lemma_xfill_seq_distinct, lemma_xfill_seq_shape, relaxed_ok,
    wf_xfill, xfill_seq, FillError, Xfill,
};
use crate::sums::{lemma_seq_sum_nonneg, lemma_seq_sum_skip, seq_sum};

verus! {

/// All gap/run layouts of a line of `total` cells holding the runs `fills`
/// in order: one alternating merge of gap lengths and run lengths per
/// composition of the free cells into `fills.len() + 1` gaps, of which only
/// the two outer ones may be empty.
pub open spec fn line_fills_seq(fills: Seq<u32>, total: int) -> Seq<Seq<u32>> {
    xfill_seq(total - seq_sum(fills), fills.len() as int + 1).map_values(
        |g: Seq<u32>| blend_seq(g, fills),
    )
}

/// An iterator producing all gap/fill combinations for a single line or
/// column: each element alternates a gap length with the next run length,
/// beginning and ending with a gap.
pub struct FillCombine {
    gaps: Xfill,
    fills: Vec<u32>,
}

/// Well-formedness: the nested gap generator is well-formed.
pub closed spec fn wf_fill_combine(f: FillCombine) -> bool {
    wf_xfill(f.gaps)
}

/// The layouts this generator has yet to produce: one blend per remaining
/// gap composition.
pub closed spec fn fill_combine_remaining(f: FillCombine) -> Seq<Seq<u32>> {
    f.gaps@.map_values(|g: Seq<u32>| blend_seq(g, f.fills@))
}

impl View for FillCombine {
    type V = Seq<Seq<u32>>;

    closed spec fn view(&self) -> Seq<Seq<u32>> {
        fill_combine_remaining(*self)
    }
}

impl FillCombine {
    /// Produces the next layout, or `None` once every layout has been
    /// produced. Each successful pull removes exactly the first element of
    /// the view.
    pub fn next(&mut self) -> (r: Option<Vec<u32>>)
        requires
            wf_fill_combine(*old(self)),
        ensures
            wf_fill_combine(*final(self)),
            old(self)@.len() == 0 ==> r is None && final(self)@ == old(self)@,
            old(self)@.len() > 0 ==> final(self)@ == old(self)@.drop_first() && (match r {
                Some(v) => v@ == old(self)@[0],
                None => false,
            }),
    {
        let ghost entry = *self;
        match self.gaps.next() {
            Some(g) => {
                let out = blend_slices(&g, &self.fills);
                proof {
                    assert(entry@[0] == blend_seq(entry.gaps@[0], entry.fills@));
                    assert(self@ =~= entry@.drop_first());
                }
                Some(out)
            },
            None => None,
        }
    }

    /// Drains the generator, returning every layout it had yet to produce,
    /// in order.
    pub fn collect(&mut self) -> (r: Vec<Vec<u32>>)
        requires
            wf_fill_combine(*old(self)),
        ensures
            wf_fill_combine(*final(self)),
            r.deep_view() == old(self)@,
            final(self)@.len() == 0,
    {
        let ghost all = self@;
        let mut r: Vec<Vec<u32>> = Vec::new();
        loop
            invariant
                wf_fill_combine(*self),
                r.deep_view() + self@ == all,
            ensures
                wf_fill_combine(*self),
                self@.len() == 0,
                r.deep_view() == all,
            decreases self@.len(),
        {
            match self.next() {
                Some(v) => {
                    r.push(v);
                    proof {
                        assert(r.deep_view() + self@ =~~= all);
                    }
                },
                None => {
                    proof {
                        assert(r.deep_view() =~~= all);
                    }
                    break ;
                },
            }
        }
        r
    }
}

/// One line layout for the runs `fills` on a line of `total` cells: it
/// alternates gap lengths with the runs, beginning and ending with a gap,
/// the runs stand unchanged in order at the odd positions, every interior
/// gap holds at least one cell, and everything together covers the line.
pub open spec fn line_fill_ok(s: Seq<u32>, fills: Seq<u32>, total: int) -> bool {
    &&& s.len() == 2 * fills.len() + 1
    &&& seq_sum(s) == total
    &&& forall|j: int| 0 <= j < fills.len() ==> s[2 * j + 1] == fills[j]
    &&& forall|j: int| 1 <= j < fills.len() ==> 1 <= #[trigger] s[2 * j]
}

/// Law: every layout enumerated for the runs `fills` on a line of `total`
/// cells is a well-formed line fill: `2 * fills.len() + 1` entries summing
/// to `total`, the runs unchanged at the odd positions, and no empty
/// interior gap.
pub proof fn lemma_line_fills_shape(fills: Seq<u32>, total: int)
    requires
        total <= u32::MAX,
        fills.len() + 1 <= u32::MAX,
    ensures
        forall|i: int|
            0 <= i < line_fills_seq(fills, total).len() ==> line_fill_ok(
                #[trigger] line_fills_seq(fills, total)[i],
                fills,
                total,
            ),
{
    let gap_sum = total - seq_sum(fills);
    let gap_count = fills.len() as int + 1;
    lemma_seq_sum_nonneg(fills);
    lemma_xfill_seq_shape(gap_sum, gap_count);
    assert forall|i: int| 0 <= i < line_fills_seq(fills, total).len() implies line_fill_ok(
        #[trigger] line_fills_seq(fills, total)[i],
        fills,
        total,
    ) by {
        let g = xfill_seq(gap_sum, gap_count)[i];
        assert(relaxed_ok(g, gap_sum, gap_count));
        assert(line_fills_seq(fills, total)[i] == blend_seq(g, fills));
        lemma_blend_interleave(g, fills);
        lemma_blend_sum(g, fills);
        assert forall|j: int| 1 <= j < fills.len() implies 1 <= #[trigger] blend_seq(g, fills)[2
            * j] by {
            assert(blend_seq(g, fills)[2 * j] == g[j]);
        }
    }
}

/// The entries at the even positions of a layout: its gap lengths.
pub open spec fn even_entries(s: Seq<u32>) -> Seq<u32> {
    Seq::new((s.len() + 1) / 2, |i: int| s[2 * i])
}

/// Law: the enumeration is exhaustive. Every well-formed line fill for the
/// runs `fills` on a line of `total` cells appears among the enumerated
/// layouts.
pub proof fn lemma_line_fills_complete(s: Seq<u32>, fills: Seq<u32>, total: int)
    requires
        line_fill_ok(s, fills, total),
        1 <= fills.len(),
        fills.len() + 1 <= u32::MAX,
        total <= u32::MAX,
    ensures
        line_fills_seq(fills, total).contains(s),
{
    let g = even_entries(s);
    let n = fills.len() as int;
    assert(g.len() == n + 1);
    lemma_blend_interleave(g, fills);
    assert forall|k: int| 0 <= k < blend_seq(g, fills).len() implies blend_seq(g, fills)[k]
        == s[k] by {
        let i = k / 2;
        if k % 2 == 0 {
            assert(k == 2 * i);
            assert(blend_seq(g, fills)[2 * i] == g[i]);
            assert(g[i] == s[2 * i]);
        } else {
            assert(k == 2 * i + 1);
            assert(blend_seq(g, fills)[2 * i + 1] == fills[i]);
            assert(s[2 * i + 1] == fills[i]);
        }
    }
    assert(blend_seq(g, fills) =~= s);
    lemma_blend_sum(g, fills);
    lemma_seq_sum_nonneg(fills);
    let gap_sum = total - seq_sum(fills);
    assert forall|j: int| 1 <= j < g.len() - 1 implies 1 <= #[trigger] g[j] by {
        assert(g[j] == s[2 * j]);
    }
    assert(relaxed_ok(g, gap_sum, n + 1));
    lemma_xfill_seq_complete(g, gap_sum, n + 1);
    let i = choose|i: int|
        0 <= i < xfill_seq(gap_sum, n + 1).len() && #[trigger] xfill_seq(gap_sum, n + 1)[i] == g;
    assert(line_fills_seq(fills, total)[i] == blend_seq(g, fills));
}

/// Law: the enumeration never repeats itself: its layouts are pairwise
/// distinct. Together with the exhaustiveness law, every legal line fill
/// appears exactly once.
pub proof fn lemma_line_fills_distinct(fills: Seq<u32>, total: int)
    requires
        total <= u32::MAX,
        fills.len() + 1 <= u32::MAX,
    ensures
        line_fills_seq(fills, total).no_duplicates(),
{
    let gap_sum = total - seq_sum(fills);
    let gap_count = fills.len() as int + 1;
    let all = line_fills_seq(fills, total);
    lemma_seq_sum_nonneg(fills);
    lemma_xfill_seq_distinct(gap_sum, gap_count);
    lemma_xfill_seq_shape(gap_sum, gap_count);
    assert forall|i: int, j: int|
        0 <= i < all.len() && 0 <= j < all.len() && i != j implies all[i] != all[j] by {
        let gi = xfill_seq(gap_sum, gap_count)[i];
        let gj = xfill_seq(gap_sum, gap_count)[j];
        assert(relaxed_ok(gi, gap_sum, gap_count));
        assert(relaxed_ok(gj, gap_sum, gap_count));
        lemma_blend_interleave(gi, fills);
        lemma_blend_interleave(gj, fills);
        assert(even_entries(blend_seq(gi, fills)) =~= gi);
        assert(even_entries(blend_seq(gj, fills)) =~= gj);
        assert(gi != gj);
        assert(all[i] == blend_seq(gi, fills));
        assert(all[j] == blend_seq(gj, fills));
    }
}

/// All possible combinations of a single picross line or column.
///
/// Creates a generator that produces all gap/fill combinations for a given
/// list `fills` of how many sequential positions are filled in a single line
/// or column with length `len` in a picross puzzle. Each produced element
/// alternates a gap length with the next run length, beginning and ending
/// with a gap; only the two outer gaps may be empty.
///
/// Fails with an invalid-argument error exactly when the runs do not fit:
/// when their sum exceeds `len`, when there is no run at all, or when the
/// free cells cannot cover one cell for each of the `fills.len() - 1`
/// interior gaps.
pub fn fill_combine(fills: Vec<u32>, len: u32) -> (r: Result<FillCombine, FillError>)
    requires
        fills@.len() + 1 <= u32::MAX,
    ensures
        r is Err <==> (seq_sum(fills@) > len || fills@.len() == 0 || len - seq_sum(fills@) + 1
            < fills@.len()),
        (match r {
            Ok(f) => wf_fill_combine(f) && f@ == line_fills_seq(fills@, len as int),
            Err(e) => e == FillError::InvalidArgument,
        }),
{
    let mut rest: u32 = len;
    let mut k: usize = 0;
    proof {
        assert(fills@.skip(0) =~= fills@);
    }
    while k < fills.len()
        invariant
            k <= fills.len(),
            rest == len - seq_sum(fills@) + seq_sum(fills@.skip(k as int)),
            seq_sum(fills@.skip(k as int)) <= seq_sum(fills@),
        decreases fills.len() - k,
    {
        proof {
            lemma_seq_sum_skip(fills@, k as int);
            lemma_seq_sum_nonneg(fills@.skip(k as int + 1));
        }
        if fills[k] > rest {
            return Err(FillError::InvalidArgument);
        }
        rest = rest - fills[k];
        k = k + 1;
    }
    proof {
        assert(fills@.skip(fills@.len() as int) =~= Seq::<u32>::empty());
    }
    let runs = fills.len() as u32;
    match Xfill::new(rest, runs + 1) {
        Ok(gaps) => Ok(FillCombine { gaps, fills }),
        Err(e) => Err(e),
    }
}

} // verus!
