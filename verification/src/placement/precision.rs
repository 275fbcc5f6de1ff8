//! What the single-precision steps of placement compute, stated exactly on integers through
//! [`nearest_single`], and read back by truncation that saturates at the 32-bit bounds.

use crate::ioclusters::saturate_i32;
use crate::arith::quot;
use crate::single::{lemma_round_close, lemma_small_integers_are_exact, lemma_spacing_bound, nearest_single, round_magnitude, spacing, to_nearest_single};
use vstd::prelude::*;

verus! {

/// An extent sampled into a single-precision width and read back: below 2^24 it is unchanged,
/// above it lands on the nearest value the width can hold, and at the top of the range it
/// saturates.
pub fn hard_sampled_extent(extent: i32) -> (r: i32)
    ensures
        r == saturate_i32(nearest_single(extent as int)),
{
    let v = to_nearest_single(extent as i128);
    if v > i32::MAX as i128 {
        i32::MAX
    } else if v < i32::MIN as i128 {
        i32::MIN
    } else {
        v as i32
    }
}

/// Where a child lands in the die: its coordinate and the offset each taken to single
/// precision, summed there, and read back.
pub open spec fn shifted_single(c: i32, offset: i32) -> i32 {
    saturate_i32(nearest_single(nearest_single(c as int) + nearest_single(offset as int))) as i32
}

fn shift_single(c: i32, offset: i32) -> (r: i32)
    ensures
        r == shifted_single(c, offset),
{
    let a = to_nearest_single(c as i128);
    let b = to_nearest_single(offset as i128);
    let v = to_nearest_single(a + b);
    if v > i32::MAX as i128 {
        i32::MAX
    } else if v < i32::MIN as i128 {
        i32::MIN
    } else {
        v as i32
    }
}

/// Every child moved out of its parent's coordinates into the die's, each coordinate going
/// through single precision with the offset as [`shifted_single`] states.
pub fn to_real_locations(children: &mut Vec<(i32, i32)>, offset: (i32, i32))
    ensures
        final(children)@.len() == old(children)@.len(),
        forall|k: int|
            0 <= k < old(children)@.len() ==> #[trigger] final(children)@[k] == (
            shifted_single(old(children)@[k].0, offset.0),
            shifted_single(old(children)@[k].1, offset.1),
            ),
{
    let n = children.len();
    let mut k: usize = 0;
    while k < n
        invariant
            n == old(children)@.len(),
            children@.len() == n,
            k <= n,
            forall|j: int|
                0 <= j < k ==> #[trigger] children@[j] == (
                shifted_single(old(children)@[j].0, offset.0),
                shifted_single(old(children)@[j].1, offset.1),
                ),
            forall|j: int| k <= j < n ==> #[trigger] children@[j] == old(children)@[j],
        decreases n - k,
    {
        let (x, y) = children[k];
        children.set(k, (shift_single(x, offset.0), shift_single(y, offset.1)));
        k = k + 1;
    }
}

/// The single-precision thousandth, `8589935 * 2^-33`.
pub open spec fn single_thousandth() -> int {
    8589935
}

/// The tiny-cluster threshold for a block of `count` instances: a thousandth of the count, both
/// in single precision and the product rounded once, truncated toward zero. Scaled by 2^33 so
/// it stays on integers.
pub open spec fn tiny_threshold(count: int) -> int {
    saturate_i32(quot(nearest_single(single_thousandth() * nearest_single(count)), 0x2_0000_0000))
}

/// A thousandth of the block's instance count, taken in single precision and truncated: a block
/// of fewer than 1000 instances gets zero, so no cluster is ever tiny there.
pub fn tiny_cluster_max_number_of_std_cells(block_instance_count: usize) -> (r: i32)
    ensures
        r == tiny_threshold(block_instance_count as int),
{
    let n = to_nearest_single(block_instance_count as i128);
    assert(0 <= 8589935 * n <= 8589935 * 0x2_0000_0000_0000_0000) by (nonlinear_arith)
        requires
            0 <= n <= 2 * block_instance_count,
            block_instance_count <= usize::MAX,
            usize::MAX < 0x1_0000_0000_0000_0000,
    ;
    let p = to_nearest_single(8589935 * n);
    let q = p / 0x2_0000_0000;
    if q > i32::MAX as i128 {
        i32::MAX
    } else {
        q as i32
    }
}

/// A block of fewer than a thousand instances gets a tiny-cluster threshold of zero, so no
/// cluster there is ever tiny.
pub proof fn lemma_small_blocks_have_no_tiny_clusters(count: int)
    requires
        0 <= count < 1000,
    ensures
        tiny_threshold(count) == 0,
{
    lemma_small_integers_are_exact(count);
    let m = single_thousandth() * count;
    assert(0 <= m <= 8589935 * 999);
    lemma_round_close(m as nat);
    lemma_spacing_bound(m as nat);
    if m >= 0x100_0000 {
        assert(spacing(m as nat) * 0x80_0000 <= m);
        assert(spacing(m as nat) <= 1024);
    }
    assert(nearest_single(m) == round_magnitude(m as nat));
    assert(nearest_single(m) < 0x2_0000_0000);
}

/// Below 2^24 an extent samples back unchanged.
pub proof fn lemma_small_extents_sample_unchanged(extent: i32)
    requires
        -0x100_0000 < extent < 0x100_0000,
    ensures
        saturate_i32(nearest_single(extent as int)) == extent,
{
    lemma_small_integers_are_exact(extent as int);
}

/// A coordinate, an offset and their sum all below 2^24 in magnitude move exactly.
pub proof fn lemma_small_shifts_are_exact(c: i32, offset: i32)
    requires
        -0x100_0000 < c < 0x100_0000,
        -0x100_0000 < offset < 0x100_0000,
        -0x100_0000 < c + offset < 0x100_0000,
    ensures
        shifted_single(c, offset) == c + offset,
{
    lemma_small_integers_are_exact(c as int);
    lemma_small_integers_are_exact(offset as int);
    lemma_small_integers_are_exact(c + offset);
}

} // verus!
