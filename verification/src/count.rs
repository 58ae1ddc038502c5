//! How many compositions the positive-composition enumeration produces:
//! the stars-and-bars count, a binomial coefficient.

use vstd::prelude::*;

use crate::compose::{heads_blocks, hfill_seq, prepended};
use crate::counter::counting;

verus! {

/// The binomial coefficient `C(n, k)`, by Pascal's rule.
pub open spec fn binom(n: nat, k: nat) -> nat
    decreases n,
{
    if k == 0 {
        1
    } else if n == 0 {
        0
    } else {
        binom((n - 1) as nat, (k - 1) as nat) + binom((n - 1) as nat, k)
    }
}

/// Choosing more elements than there are is impossible.
proof fn lemma_binom_over(n: nat, k: nat)
    requires
        k > n,
    ensures
        binom(n, k) == 0,
    decreases n,
{
    if n > 0 {
        lemma_binom_over((n - 1) as nat, (k - 1) as nat);
        lemma_binom_over((n - 1) as nat, k);
    }
}

/// The blocks of the head candidates from `h` upward hold `C(sum - h,
/// len - 1)` compositions in all.
proof fn lemma_heads_blocks_count(sum: u32, len: u32, h: u32)
    requires
        2 <= len <= sum,
        1 <= h,
        h + len <= sum + 2,
    ensures
        heads_blocks(sum, len, counting(h as int, sum - (len - 1))).len() == binom(
            (sum - h) as nat,
            (len - 1) as nat,
        ),
    decreases len, sum + 2 - h,
{
    let m = sum - (len - 1);
    let heads = counting(h as int, m);
    if h > m {
        assert(heads.len() == 0);
        lemma_binom_over((sum - h) as nat, (len - 1) as nat);
    } else {
        assert(heads[0] == h);
        assert(heads.drop_first() =~= counting(h as int + 1, m));
        let block = prepended(hfill_seq(sum - h, len - 1), h);
        lemma_hfill_seq_count(sum - h, len - 1);
        lemma_heads_blocks_count(sum, len, (h + 1) as u32);
        assert(block.len() == binom((sum - h - 1) as nat, (len - 2) as nat));
        assert(heads_blocks(sum, len, heads) == block + heads_blocks(
            sum,
            len,
            counting(h as int + 1, m),
        ));
        assert(binom((sum - h) as nat, (len - 1) as nat) == binom(
            (sum - h - 1) as nat,
            (len - 2) as nat,
        ) + binom((sum - h - 1) as nat, (len - 1) as nat));
    }
}

/// Law: for `1 <= len <= sum`, the positive-composition enumeration of
/// `(sum, len)` produces exactly `C(sum - 1, len - 1)` compositions.
pub proof fn lemma_hfill_seq_count(sum: int, len: int)
    requires
        1 <= len <= sum,
        sum <= u32::MAX,
    ensures
        hfill_seq(sum, len).len() == binom((sum - 1) as nat, (len - 1) as nat),
    decreases len, sum + 2,
{
    if len == 1 {
        assert(hfill_seq(sum, len).len() == 1);
    } else {
        lemma_heads_blocks_count(sum as u32, len as u32, 1);
        assert(hfill_seq(sum, len) == heads_blocks(
            sum as u32,
            len as u32,
            counting(1, sum - (len - 1)),
        ));
    }
}

} // verus!
