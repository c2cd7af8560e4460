use vstd::prelude::*;
use crate::block::BlockInlay;
use crate::line::{sat_add64, sat_mul64};

verus! {

/// The height of document line `i`: its scale times its number of rows.
pub open spec fn line_height_of(scale: Seq<u64>, soft_breaks: Seq<Vec<usize>>, i: int) -> int {
    sat_mul64(scale[i] as int, soft_breaks[i]@.len() as int + 1)
}

/// Block inlays are ordered by the line they stand before.
pub open spec fn block_inlays_sorted(bi: Seq<(usize, BlockInlay)>) -> bool {
    forall|a: int, b: int| 0 <= a <= b < bi.len() ==> bi[a].0 <= bi[b].0
}

/// How many of the first `k` block inlays stand before line `i`.
pub open spec fn count_before(bi: Seq<(usize, BlockInlay)>, i: int, k: int) -> int
    decreases k,
{
    if k <= 0 {
        0
    } else {
        count_before(bi, i, k - 1) + if bi[k - 1].0 < i { 1int } else { 0int }
    }
}

/// The index of the first block inlay that stands at or after line `i`.
pub open spec fn first_block_at(bi: Seq<(usize, BlockInlay)>, i: int) -> int {
    count_before(bi, i, bi.len() as int)
}

/// `acc` with the heights of `bs` added in turn.
pub open spec fn add_block_heights(acc: int, bs: Seq<(usize, BlockInlay)>) -> int
    decreases bs.len(),
{
    if bs.len() == 0 {
        acc
    } else {
        sat_add64(add_block_heights(acc, bs.drop_last()), bs.last().1.spec_height())
    }
}

/// The height of everything up to and including document line `i`: the lines before
/// it, the block inlays standing before or at it, and the line itself.
pub open spec fn summed_height(
    scale: Seq<u64>,
    soft_breaks: Seq<Vec<usize>>,
    bi: Seq<(usize, BlockInlay)>,
    i: int,
) -> int
    decreases i,
{
    let prev = if i <= 0 { 0 } else { summed_height(scale, soft_breaks, bi, i - 1) };
    let with_blocks = add_block_heights(
        prev,
        bi.subrange(first_block_at(bi, i), first_block_at(bi, i + 1)),
    );
    sat_add64(with_blocks, line_height_of(scale, soft_breaks, i))
}

/// In an ordered list, the inlays before line `i` are exactly a prefix.
pub proof fn lemma_count_before(bi: Seq<(usize, BlockInlay)>, i: int, k: int)
    requires
        block_inlays_sorted(bi),
        0 <= k <= bi.len(),
    ensures
        0 <= count_before(bi, i, k) <= k,
        forall|j: int| 0 <= j < k ==> (j < count_before(bi, i, k) <==> bi[j].0 < i),
    decreases k,
{
    if k > 0 {
        lemma_count_before(bi, i, k - 1);
        if bi[k - 1].0 < i {
            assert forall|j: int| 0 <= j < k - 1 implies bi[j].0 < i by {
                assert(bi[j].0 <= bi[k - 1].0);
            }
        }
    }
}

pub proof fn lemma_first_block_at(bi: Seq<(usize, BlockInlay)>, i: int)
    requires
        block_inlays_sorted(bi),
    ensures
        0 <= first_block_at(bi, i) <= bi.len(),
        forall|j: int| 0 <= j < bi.len() ==> (j < first_block_at(bi, i) <==> bi[j].0 < i),
{
    lemma_count_before(bi, i, bi.len() as int);
}

} // verus!

verus! {

/// The height through line `j` depends on lines `0..=j` alone.
pub proof fn lemma_summed_height_prefix(
    scale1: Seq<u64>,
    sb1: Seq<Vec<usize>>,
    scale2: Seq<u64>,
    sb2: Seq<Vec<usize>>,
    bi: Seq<(usize, BlockInlay)>,
    j: int,
)
    requires
        0 <= j,
        forall|k: int| 0 <= k <= j ==> scale1[k] == scale2[k] && sb1[k]@.len() == sb2[k]@.len(),
    ensures
        summed_height(scale1, sb1, bi, j) == summed_height(scale2, sb2, bi, j),
    decreases j,
{
    assert(scale1[j] == scale2[j] && sb1[j]@.len() == sb2[j]@.len());
    if j > 0 {
        lemma_summed_height_prefix(scale1, sb1, scale2, sb2, bi, j - 1);
    }
}

} // verus!

verus! {

proof fn lemma_add_block_heights_grows(acc: int, bs: Seq<(usize, BlockInlay)>)
    ensures
        add_block_heights(acc, bs) >= acc || add_block_heights(acc, bs) == u64::MAX,
        acc <= u64::MAX ==> add_block_heights(acc, bs) >= acc,
    decreases bs.len(),
{
    if bs.len() > 0 {
        lemma_add_block_heights_grows(acc, bs.drop_last());
        let h = bs.last().1.spec_height();
        assert(h >= 0) by {
            match bs.last().1 {
                BlockInlay::Line(l) => l.lemma_height_bounds(),
                BlockInlay::Widget(w) => {},
            }
        }
    }
}

/// Cumulative heights never decrease from one line to the next.
pub proof fn lemma_summed_height_grows(
    scale: Seq<u64>,
    soft_breaks: Seq<Vec<usize>>,
    bi: Seq<(usize, BlockInlay)>,
    i: int,
    j: int,
)
    requires
        0 <= i <= j,
    ensures
        summed_height(scale, soft_breaks, bi, i) <= summed_height(scale, soft_breaks, bi, j),
        summed_height(scale, soft_breaks, bi, j) <= u64::MAX,
    decreases j,
{
    lemma_summed_height_bounded(scale, soft_breaks, bi, j);
    if i < j {
        lemma_summed_height_grows(scale, soft_breaks, bi, i, j - 1);
        lemma_summed_height_bounded(scale, soft_breaks, bi, j - 1);
        let prev = summed_height(scale, soft_breaks, bi, j - 1);
        lemma_add_block_heights_grows(prev, bi.subrange(first_block_at(bi, j), first_block_at(bi, j + 1)));
    }
}

proof fn lemma_summed_height_bounded(
    scale: Seq<u64>,
    soft_breaks: Seq<Vec<usize>>,
    bi: Seq<(usize, BlockInlay)>,
    j: int,
)
    ensures
        0 <= summed_height(scale, soft_breaks, bi, j) <= u64::MAX,
    decreases j,
{
    let prev = if j <= 0 { 0 } else { summed_height(scale, soft_breaks, bi, j - 1) };
    if j > 0 {
        lemma_summed_height_bounded(scale, soft_breaks, bi, j - 1);
    }
    lemma_add_block_heights_grows(prev, bi.subrange(first_block_at(bi, j), first_block_at(bi, j + 1)));
}

} // verus!
