//! The inputs of one macro cluster's placement runs: seeds, fences and guides, the starting
//! grid of a macro array, and the terminals it connects to.

use crate::placement::blockages::Bbox;
use crate::placement::orient::{in_i32, max_of, min_of};
use vstd::prelude::*;

verus! {

/// Each run's seed: the random seed plus the run's id, wrapping.
pub fn macro_run_seed(random_seed: u32, run_id: i32) -> (r: u32)
    ensures
        r == vstd::wrapping::u32_specs::wrapping_add(random_seed, run_id as u32),
{
    random_seed.wrapping_add(run_id as u32)
}

/// Two rectangles intersect, inclusive on every edge: touching along a line counts.
pub open spec fn rects_meet(a: Bbox, b: Bbox) -> bool {
    b.2 >= a.0 && b.0 <= a.2 && b.3 >= a.1 && b.1 <= a.3
}

/// A region clipped to the outline, or the zero rectangle when they miss, then rebased onto
/// the outline's corner.
pub open spec fn clipped_region(region: Bbox, outline: Bbox) -> (int, int, int, int) {
    let c: (int, int, int, int) = if rects_meet(region, outline) {
        (
            max_of(region.0 as int, outline.0 as int),
            max_of(region.1 as int, outline.1 as int),
            min_of(region.2 as int, outline.2 as int),
            min_of(region.3 as int, outline.3 as int),
        )
    } else {
        (0, 0, 0, 0)
    };
    (c.0 - outline.0, c.1 - outline.1, c.2 - outline.0, c.3 - outline.1)
}

/// The rebased corners fit in 32 bits.
pub open spec fn clip_fits(region: Bbox, outline: Bbox) -> bool {
    let c = clipped_region(region, outline);
    in_i32(c.0) && in_i32(c.1) && in_i32(c.2) && in_i32(c.3)
}

/// A macro's fence or guide, clipped to the outline inclusively and rebased onto it, with no
/// area test: a region missing the outline becomes a zero box shifted to minus the outline's
/// corner.
pub fn clip_region_to_outline(region: Bbox, outline: Bbox) -> (r: Bbox)
    requires
        clip_fits(region, outline),
    ensures
        r.0 == clipped_region(region, outline).0,
        r.1 == clipped_region(region, outline).1,
        r.2 == clipped_region(region, outline).2,
        r.3 == clipped_region(region, outline).3,
{
    let meets = outline.2 >= region.0 && outline.0 <= region.2 && outline.3 >= region.1 && outline.1 <= region.3;
    let clipped: Bbox = if meets {
        (
            if region.0 >= outline.0 { region.0 } else { outline.0 },
            if region.1 >= outline.1 { region.1 } else { outline.1 },
            if region.2 <= outline.2 { region.2 } else { outline.2 },
            if region.3 <= outline.3 { region.3 } else { outline.3 },
        )
    } else {
        (0, 0, 0, 0)
    };
    (clipped.0 - outline.0, clipped.1 - outline.1, clipped.2 - outline.0, clipped.3 - outline.1)
}

/// The clipped regions of the first `n` macros that have one, keyed by the macro's index.
pub open spec fn clipped_regions(regions: Seq<Option<Bbox>>, outline: Bbox, n: int) -> Seq<(usize, Bbox)>
    decreases n,
{
    if n <= 0 {
        Seq::empty()
    } else {
        let prev = clipped_regions(regions, outline, n - 1);
        match regions[n - 1] {
            Some(r) => {
                let c = clipped_region(r, outline);
                prev.push(((n - 1) as usize, (c.0 as i32, c.1 as i32, c.2 as i32, c.3 as i32)))
            },
            None => prev,
        }
    }
}

/// Every region present clips within 32 bits.
pub open spec fn regions_fit(regions: Seq<Option<Bbox>>, outline: Bbox) -> bool {
    forall|i: int| 0 <= i < regions.len() ==> (#[trigger] regions[i] matches Some(r) ==> clip_fits(r, outline))
}

fn clip_all(regions: &[Option<Bbox>], outline: Bbox) -> (r: Vec<(usize, Bbox)>)
    requires
        regions_fit(regions@, outline),
    ensures
        r@ == clipped_regions(regions@, outline, regions@.len() as int),
{
    let mut out: Vec<(usize, Bbox)> = Vec::new();
    let mut i: usize = 0;
    while i < regions.len()
        invariant
            i <= regions@.len(),
            regions_fit(regions@, outline),
            out@ == clipped_regions(regions@, outline, i as int),
        decreases regions@.len() - i,
    {
        match regions[i] {
            Some(region) => {
                proof {
                    assert(regions@[i as int] matches Some(r) ==> clip_fits(r, outline));
                }
                let c = clip_region_to_outline(region, outline);
                out.push((i, c));
            },
            None => {},
        }
        i = i + 1;
    }
    out
}

/// The fences and guides of a macro cluster's hard macros, each keyed by the macro's index in
/// the cluster's list and clipped to the outline. A macro's fence is looked up by its name
/// and its guide by its instance; the two lists give what each lookup found.
pub fn macro_fences_and_guides(fences: &[Option<Bbox>], guides: &[Option<Bbox>], outline: Bbox) -> (r: (Vec<(usize, Bbox)>, Vec<(usize, Bbox)>))
    requires
        regions_fit(fences@, outline),
        regions_fit(guides@, outline),
    ensures
        r.0@ == clipped_regions(fences@, outline, fences@.len() as int),
        r.1@ == clipped_regions(guides@, outline, guides@.len() as int),
{
    (clip_all(fences, outline), clip_all(guides, outline))
}

/// The starting arrangement for a macro array, and whether the grid has a slot with no
/// macro.
#[derive(Debug, Clone, PartialEq, Eq)]
pub struct ArraySequencePair {
    pub pos: Vec<usize>,
    pub neg: Vec<usize>,
    pub has_empty_space: bool,
}

/// The slot ids of column `i`, from row `j` down, those of a macro kept: `rows * i - j`.
pub open spec fn column_slots(n: int, rows: int, i: int, j: int) -> Seq<usize>
    decreases j,
{
    if j <= 0 {
        Seq::empty()
    } else {
        let prev = column_slots(n, rows, i, j - 1);
        let id = rows * i - j;
        if id < n { prev.push(id as usize) } else { prev }
    }
}

/// The negative sequence of the first `i` columns.
pub open spec fn grid_slots(n: int, rows: int, i: int) -> Seq<usize>
    decreases i,
{
    if i <= 0 { Seq::empty() } else { grid_slots(n, rows, i - 1) + column_slots(n, rows, i, rows) }
}

/// The number of columns or rows: the integer quotient, or none for a zero extent.
pub open spec fn grid_count(cluster: i32, item: i32) -> int {
    if item != 0 { crate::arith::quot(cluster as int, item as int) } else { 0 }
}

/// The sequence pair of a regular grid: the positive sequence is `0..n`; the negative walks the
/// grid column by column, downwards in each, keeping the slots that hold a macro. The column
/// and row counts are integer quotients. A slot past the last macro sets the empty-space flag;
/// a macro with no slot does not.
pub fn array_sequence_pair(macro_count: usize, cluster_width: i32, cluster_height: i32, macro_width: i32, macro_height: i32) -> (r: ArraySequencePair)
    requires
        !(cluster_width == i32::MIN && macro_width == -1),
        !(cluster_height == i32::MIN && macro_height == -1),
        grid_count(cluster_width, macro_width) * grid_count(cluster_height, macro_height) <= i32::MAX,
    ensures
        r.pos@ == Seq::new(macro_count as nat, |k: int| k as usize),
        r.neg@ == if grid_count(cluster_height, macro_height) > 0 {
            grid_slots(macro_count as int, grid_count(cluster_height, macro_height), grid_count(cluster_width, macro_width))
        } else {
            Seq::<usize>::empty()
        },
        r.has_empty_space == (grid_count(cluster_width, macro_width) > 0 && grid_count(cluster_height, macro_height) > 0
            && grid_count(cluster_width, macro_width) * grid_count(cluster_height, macro_height) > macro_count),
{
    let mut pos: Vec<usize> = Vec::new();
    let mut k: usize = 0;
    while k < macro_count
        invariant
            k <= macro_count,
            pos@ == Seq::new(k as nat, |q: int| q as usize),
        decreases macro_count - k,
    {
        pos.push(k);
        proof {
            assert(pos@ =~= Seq::new((k + 1) as nat, |q: int| q as usize));
        }
        k = k + 1;
    }
    let columns: i32 = if macro_width != 0 { crate::arith::div_trunc32(cluster_width, macro_width) } else { 0 };
    let rows: i32 = if macro_height != 0 { crate::arith::div_trunc32(cluster_height, macro_height) } else { 0 };
    let mut neg: Vec<usize> = Vec::new();
    let mut has_empty_space = false;
    if columns > 0 && rows > 0 {
        let mut i: i64 = 1;
        while i <= columns as i64
            invariant
                1 <= i <= columns + 1,
                columns > 0,
                rows > 0,
                columns * rows <= i32::MAX,
                neg@ == grid_slots(macro_count as int, rows as int, (i - 1) as int),
                has_empty_space == (rows * (i - 1) > macro_count),
            decreases columns + 1 - i,
        {
            let mut j: i64 = 1;
            let ghost before = neg@;
            proof {
                assert(rows * i <= columns * rows) by (nonlinear_arith)
                    requires
                        1 <= i <= columns,
                        rows > 0,
                ;
                assert(rows * (i - 1) >= 0) by (nonlinear_arith)
                    requires
                        1 <= i,
                        rows > 0,
                ;
            }
            while j <= rows as i64
                invariant
                    1 <= j <= rows + 1,
                    1 <= i <= columns,
                    rows > 0,
                    0 <= rows * (i - 1),
                    rows * i <= i32::MAX,
                    neg@ == before + column_slots(macro_count as int, rows as int, i as int, (j - 1) as int),
                    has_empty_space == (rows * (i - 1) > macro_count || (j > 1 && rows * i - 1 >= macro_count)),
                decreases rows + 1 - j,
            {
                let macro_id: i64 = rows as i64 * i - j;
                proof {
                    assert(rows * i == rows * (i - 1) + rows) by (nonlinear_arith);
                }
                if (macro_id as usize) < macro_count {
                    neg.push(macro_id as usize);
                } else {
                    has_empty_space = true;
                }
                j = j + 1;
            }
            proof {
                assert(rows * i == rows * (i - 1) + rows) by (nonlinear_arith);
            }
            i = i + 1;
        }
        proof {
            assert(columns * rows == rows * columns) by (nonlinear_arith);
        }
    }
    ArraySequencePair { pos, neg, has_empty_space }
}

/// The terminals of a macro cluster's placement: the connected cluster ids, ascending and each
/// once, less those that are among the macros being placed.
pub open spec fn terminal_ids_ok(r: Seq<i32>, connected: Seq<i32>, macro_ids: Seq<i32>) -> bool {
    &&& forall|a: int, b: int| 0 <= a < b < r.len() ==> r[a] < r[b]
    &&& forall|k: int| 0 <= k < r.len() ==> connected.contains(#[trigger] r[k]) && !macro_ids.contains(r[k])
    &&& forall|i: int| 0 <= i < connected.len() && !macro_ids.contains(#[trigger] connected[i]) ==> r.contains(connected[i])
}

fn id_listed(v: &[i32], x: i32) -> (r: bool)
    ensures
        r == v@.contains(x),
{
    let mut k: usize = 0;
    while k < v.len()
        invariant
            k <= v@.len(),
            forall|j: int| 0 <= j < k ==> v@[j] != x,
        decreases v@.len() - k,
    {
        if v[k] == x {
            proof {
                assert(v@[k as int] == x);
            }
            return true;
        }
        k = k + 1;
    }
    false
}

/// The fixed terminals of a macro cluster's placement, by cluster id: the ids it connects to,
/// sorted and without repeats, skipping the clusters already among its macros.
pub fn hard_terminal_cluster_ids(connected_ids: &[i32], macro_cluster_ids: &[i32]) -> (r: Vec<i32>)
    ensures
        terminal_ids_ok(r@, connected_ids@, macro_cluster_ids@),
{
    let mut out: Vec<i32> = Vec::new();
    let mut i: usize = 0;
    while i < connected_ids.len()
        invariant
            i <= connected_ids@.len(),
            forall|a: int, b: int| 0 <= a < b < out@.len() ==> out@[a] < out@[b],
            forall|k: int| 0 <= k < out@.len() ==> connected_ids@.contains(#[trigger] out@[k]) && !macro_cluster_ids@.contains(out@[k]),
            forall|q: int| 0 <= q < i && !macro_cluster_ids@.contains(#[trigger] connected_ids@[q]) ==> out@.contains(connected_ids@[q]),
        decreases connected_ids@.len() - i,
    {
        let x = connected_ids[i];
        proof {
            assert(connected_ids@[i as int] == x);
        }
        if !id_listed(macro_cluster_ids, x) {
            let mut pos: usize = 0;
            while pos < out.len() && out[pos] < x
                invariant
                    pos <= out@.len(),
                    forall|j: int| 0 <= j < pos ==> out@[j] < x,
                decreases out@.len() - pos,
            {
                pos = pos + 1;
            }
            let present = pos < out.len() && out[pos] == x;
            if !present {
                let ghost old_out = out@;
                out.insert(pos, x);
                proof {
                    assert forall|a: int, b: int| 0 <= a < b < out@.len() implies out@[a] < out@[b] by {
                        if b < pos {
                        } else if b == pos {
                            assert(out@[a] == old_out[a]);
                        } else if a < pos {
                            assert(out@[b] == old_out[b - 1]);
                            assert(old_out[pos as int] > x);
                            if b - 1 > pos {
                                assert(old_out[pos as int] < old_out[b - 1]);
                            }
                        } else if a == pos {
                            assert(old_out[pos as int] > x);
                            if b - 1 > pos {
                                assert(old_out[pos as int] < old_out[b - 1]);
                            }
                        } else {
                            assert(old_out[a - 1] < old_out[b - 1]);
                        }
                    }
                    assert forall|k: int| 0 <= k < out@.len() implies connected_ids@.contains(#[trigger] out@[k]) && !macro_cluster_ids@.contains(out@[k]) by {
                        if k < pos {
                            assert(out@[k] == old_out[k]);
                        } else if k > pos {
                            assert(out@[k] == old_out[k - 1]);
                        }
                    }
                    assert forall|q: int| 0 <= q < i + 1 && !macro_cluster_ids@.contains(#[trigger] connected_ids@[q]) implies out@.contains(connected_ids@[q]) by {
                        if q == i {
                            assert(out@[pos as int] == x);
                        } else {
                            let w = choose|w: int| 0 <= w < old_out.len() && old_out[w] == connected_ids@[q];
                            if w < pos {
                                assert(out@[w] == old_out[w]);
                            } else {
                                assert(out@[w + 1] == old_out[w]);
                            }
                        }
                    }
                }
            } else {
                proof {
                    assert(out@[pos as int] == x);
                }
            }
        }
        i = i + 1;
    }
    out
}

} // verus!
