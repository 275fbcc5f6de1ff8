//! The post-anneal enhancements' geometry: saving and restoring locations, moving the whole
//! floorplan, and snapping macro clusters onto the outline's edges.

use crate::anneal::SoftMacro;
use crate::arith::{div_trunc32, quot};
use vstd::prelude::*;

verus! {

/// Every id of the order indexes the macros and the location list.
pub open spec fn order_in_range(order: Seq<usize>, n_macros: int, n_locations: int) -> bool {
    forall|k: int| 0 <= k < order.len() ==> #[trigger] order[k] < n_macros && order[k] < n_locations
}

/// The locations of the macros in the order, indexed by macro id; an id the order never names
/// stays at the origin.
pub fn cluster_locations(macros: &[SoftMacro], order: &[usize]) -> (r: Vec<(i32, i32)>)
    requires
        order_in_range(order@, macros@.len() as int, order@.len() as int),
    ensures
        r@.len() == order@.len(),
        forall|i: int| 0 <= i < order@.len() ==> #[trigger] r@[i] == if order@.contains(i as usize) {
            (macros@[i].x, macros@[i].y)
        } else {
            (0i32, 0i32)
        },
{
    let mut locations: Vec<(i32, i32)> = Vec::new();
    let mut c: usize = 0;
    while c < order.len()
        invariant
            c <= order@.len(),
            locations@.len() == c,
            forall|i: int| 0 <= i < c ==> locations@[i] == (0i32, 0i32),
        decreases order@.len() - c,
    {
        locations.push((0, 0));
        c = c + 1;
    }
    let mut k: usize = 0;
    while k < order.len()
        invariant
            k <= order@.len(),
            order_in_range(order@, macros@.len() as int, order@.len() as int),
            locations@.len() == order@.len(),
            forall|i: int| 0 <= i < order@.len() ==> #[trigger] locations@[i] == if order@.take(k as int).contains(i as usize) {
                (macros@[i].x, macros@[i].y)
            } else {
                (0i32, 0i32)
            },
        decreases order@.len() - k,
    {
        let id = order[k];
        assert(id < macros@.len() && id < order@.len());
        locations.set(id, (macros[id].x, macros[id].y));
        proof {
            assert forall|i: int| 0 <= i < order@.len() implies #[trigger] locations@[i] == if order@.take(k + 1).contains(i as usize) {
                (macros@[i].x, macros@[i].y)
            } else {
                (0i32, 0i32)
            } by {
                assert(order@.take(k + 1) =~= order@.take(k as int).push(id));
                if order@.take(k as int).contains(i as usize) {
                    let j = choose|j: int| 0 <= j < k && order@.take(k as int)[j] == i as usize;
                    assert(order@.take(k + 1)[j] == i as usize);
                }
                if i == id {
                    assert(order@.take(k + 1)[k as int] == id);
                }
            }
        }
        k = k + 1;
    }
    proof {
        assert(order@.take(order@.len() as int) =~= order@);
    }
    locations
}

/// A location list whose length does not match the order.
#[derive(Debug, Clone, PartialEq, Eq, Structural)]
pub struct ClusterCountMismatch;

/// Put the macros of the order back at saved locations, indexed by macro id; a fixed macro
/// does not move. A list of the wrong length is refused and nothing moves.
pub fn set_cluster_locations(macros: &mut Vec<SoftMacro>, order: &[usize], locations: &[(i32, i32)]) -> (r: Result<(), ClusterCountMismatch>)
    requires
        locations@.len() == order@.len() ==> order_in_range(order@, old(macros)@.len() as int, locations@.len() as int),
    ensures
        (locations@.len() != order@.len()) <==> r is Err,
        r is Err ==> final(macros)@ == old(macros)@,
        r is Ok ==> {
            &&& final(macros)@.len() == old(macros)@.len()
            &&& forall|i: int| 0 <= i < old(macros)@.len() ==> #[trigger] final(macros)@[i] == if order@.contains(i as usize) && !old(macros)@[i].fixed {
                SoftMacro { x: locations@[i].0, y: locations@[i].1, ..old(macros)@[i] }
            } else {
                old(macros)@[i]
            }
        },
{
    if locations.len() != order.len() {
        return Err(ClusterCountMismatch);
    }
    let ghost start = macros@;
    let n = macros.len();
    let mut k: usize = 0;
    while k < order.len()
        invariant
            k <= order@.len(),
            n == start.len(),
            locations@.len() == order@.len(),
            order_in_range(order@, start.len() as int, locations@.len() as int),
            macros@.len() == start.len(),
            forall|i: int| 0 <= i < start.len() ==> #[trigger] macros@[i] == if order@.take(k as int).contains(i as usize) && !start[i].fixed {
                SoftMacro { x: locations@[i].0, y: locations@[i].1, ..start[i] }
            } else {
                start[i]
            },
        decreases order@.len() - k,
    {
        let id = order[k];
        assert(id < start.len() && id < locations@.len());
        let ghost before = macros@;
        let mut m = macros[id];
        m.set_x(locations[id].0);
        m.set_y(locations[id].1);
        macros.set(id, m);
        proof {
            assert(before[id as int].fixed == start[id as int].fixed);
            if !start[id as int].fixed {
                assert(m == SoftMacro { x: locations@[id as int].0, y: locations@[id as int].1, ..start[id as int] });
            } else {
                assert(m == start[id as int]);
            }
        }
        proof {
            assert forall|i: int| 0 <= i < start.len() implies #[trigger] macros@[i] == if order@.take(k + 1).contains(i as usize) && !start[i].fixed {
                SoftMacro { x: locations@[i].0, y: locations@[i].1, ..start[i] }
            } else {
                start[i]
            } by {
                assert(order@.take(k + 1) =~= order@.take(k as int).push(id));
                if order@.take(k as int).contains(i as usize) {
                    let j = choose|j: int| 0 <= j < k && order@.take(k as int)[j] == i as usize;
                    assert(order@.take(k + 1)[j] == i as usize);
                }
                if i == id {
                    assert(order@.take(k + 1)[k as int] == id);
                } else {
                    assert(macros@[i] == before[i]);
                    if order@.take(k + 1).contains(i as usize) {
                        let t = order@.take(k + 1);
                        let j = choose|j: int| 0 <= j < t.len() && #[trigger] t[j] == i as usize;
                        assert((i as usize) as int == i);
                        assert(j != k);
                        assert(order@.take(k as int)[j] == i as usize);
                    }
                }
            }
        }
        k = k + 1;
    }
    proof {
        assert(order@.take(order@.len() as int) =~= order@);
    }
    Ok(())
}

/// How many times the first `n` entries of the order name macro `i`.
pub open spec fn occurrences(order: Seq<usize>, i: int, n: int) -> int
    decreases n,
{
    if n <= 0 {
        0
    } else {
        occurrences(order, i, n - 1) + if order[n - 1] == i { 1int } else { 0int }
    }
}

/// Every movable macro ends within 32 bits after being shifted once per time the order names it.
pub open spec fn shift_fits(ms: Seq<SoftMacro>, order: Seq<usize>, offset: (i32, i32)) -> bool {
    forall|i: int|
        0 <= i < ms.len() && !ms[i].fixed ==> {
            &&& i32::MIN <= #[trigger] ms[i].x + occurrences(order, i, order.len() as int) * offset.0 <= i32::MAX
            &&& i32::MIN <= ms[i].y + occurrences(order, i, order.len() as int) * offset.1 <= i32::MAX
        }
}

proof fn lemma_occurrences_bounds(order: Seq<usize>, i: int, k: int)
    requires
        0 <= k <= order.len(),
    ensures
        0 <= occurrences(order, i, k) <= occurrences(order, i, order.len() as int),
    decreases order.len() - k,
{
    lemma_occurrences_nonneg(order, i, k);
    if k < order.len() {
        lemma_occurrences_bounds(order, i, k + 1);
        assert(occurrences(order, i, k + 1) >= occurrences(order, i, k));
    }
}

proof fn lemma_occurrences_nonneg(order: Seq<usize>, i: int, k: int)
    ensures
        0 <= occurrences(order, i, k),
    decreases k,
{
    if k > 0 {
        lemma_occurrences_nonneg(order, i, k - 1);
    }
}

proof fn lemma_between(x: int, c: int, total: int, o: int)
    requires
        0 <= c <= total,
        i32::MIN <= x <= i32::MAX,
        i32::MIN <= x + total * o <= i32::MAX,
    ensures
        i32::MIN <= x + c * o <= i32::MAX,
        i32::MIN <= x + (c + 1) * o - o <= i32::MAX,
{
    if o >= 0 {
        assert(0 <= c * o <= total * o) by (nonlinear_arith) requires 0 <= c <= total, o >= 0;
    } else {
        assert(total * o <= c * o <= 0) by (nonlinear_arith) requires 0 <= c <= total, o < 0;
    }
    assert((c + 1) * o - o == c * o) by (nonlinear_arith);
}

/// Shift every movable macro of the order by one offset, once per time the order names it; a
/// fixed macro does not move.
pub fn move_floorplan(macros: &mut Vec<SoftMacro>, order: &[usize], offset: (i32, i32))
    requires
        order_in_range(order@, old(macros)@.len() as int, old(macros)@.len() as int),
        shift_fits(old(macros)@, order@, offset),
    ensures
        final(macros)@.len() == old(macros)@.len(),
        forall|i: int| 0 <= i < old(macros)@.len() ==> #[trigger] final(macros)@[i] == if old(macros)@[i].fixed {
            old(macros)@[i]
        } else {
            SoftMacro {
                x: (old(macros)@[i].x + occurrences(order@, i, order@.len() as int) * offset.0) as i32,
                y: (old(macros)@[i].y + occurrences(order@, i, order@.len() as int) * offset.1) as i32,
                ..old(macros)@[i]
            }
        },
{
    let ghost start = macros@;
    let mut k: usize = 0;
    while k < order.len()
        invariant
            k <= order@.len(),
            order_in_range(order@, start.len() as int, start.len() as int),
            shift_fits(start, order@, offset),
            macros@.len() == start.len(),
            forall|i: int| 0 <= i < start.len() ==> #[trigger] macros@[i] == if start[i].fixed {
                start[i]
            } else {
                SoftMacro {
                    x: (start[i].x + occurrences(order@, i, k as int) * offset.0) as i32,
                    y: (start[i].y + occurrences(order@, i, k as int) * offset.1) as i32,
                    ..start[i]
                }
            },
        decreases order@.len() - k,
    {
        let id = order[k];
        assert(id < start.len());
        let mut m = macros[id];
        proof {
            if !start[id as int].fixed {
                let i = id as int;
                let c = occurrences(order@, i, k as int);
                let total = occurrences(order@, i, order@.len() as int);
                lemma_occurrences_bounds(order@, i, k + 1);
                lemma_occurrences_bounds(order@, i, k as int);
                assert(occurrences(order@, i, k + 1) == c + 1);
                lemma_between(start[i].x as int, c + 1, total, offset.0 as int);
                lemma_between(start[i].y as int, c + 1, total, offset.1 as int);
                lemma_between(start[i].x as int, c, total, offset.0 as int);
                lemma_between(start[i].y as int, c, total, offset.1 as int);
                assert(m.x == start[i].x + c * offset.0);
                assert(m.x + offset.0 == start[i].x + (c + 1) * offset.0) by (nonlinear_arith)
                    requires m.x == start[i].x + c * offset.0;
                assert(m.y + offset.1 == start[i].y + (c + 1) * offset.1) by (nonlinear_arith)
                    requires m.y == start[i].y + c * offset.1;
            }
        }
        if !m.fixed {
            let x = m.x + offset.0;
            let y = m.y + offset.1;
            m.set_x(x);
            m.set_y(y);
        }
        macros.set(id, m);
        k = k + 1;
    }
}

/// Half the slack on each axis, truncating.
pub fn centralization_offset(outline: (i32, i32), packing: (i32, i32)) -> (r: (i32, i32))
    requires
        i32::MIN < outline.0 - packing.0 <= i32::MAX,
        i32::MIN < outline.1 - packing.1 <= i32::MAX,
    ensures
        r.0 == quot(outline.0 - packing.0, 2),
        r.1 == quot(outline.1 - packing.1, 2),
{
    (div_trunc32(outline.0 - packing.0, 2), div_trunc32(outline.1 - packing.1, 2))
}

/// The smaller of two values.
pub open spec fn min_of(a: int, b: int) -> int {
    if a <= b { a } else { b }
}

/// The smallest width among the first `n` macro clusters, starting from `start`.
pub open spec fn min_width(ms: Seq<SoftMacro>, start: int, n: int) -> int
    decreases n,
{
    if n <= 0 { start } else { min_of(min_width(ms, start, n - 1), ms[n - 1].width as int) }
}

/// The smallest height among the first `n` macro clusters, starting from `start`.
pub open spec fn min_height(ms: Seq<SoftMacro>, start: int, n: int) -> int
    decreases n,
{
    if n <= 0 { start } else { min_of(min_height(ms, start, n - 1), ms[n - 1].height as int) }
}

/// The alignment thresholds: the notch thresholds, floored by the narrowest macro cluster's
/// width and the shortest one's height, then by a tenth of the outline's height for `h` and of
/// its width for `v`.
pub fn alignment_thresholds(macro_clusters: &[SoftMacro], outline: (i32, i32), notch_thresholds: (i32, i32)) -> (r: (i32, i32))
    ensures
        r.0 == min_of(min_width(macro_clusters@, notch_thresholds.0 as int, macro_clusters@.len() as int), quot(outline.1 as int, 10)),
        r.1 == min_of(min_height(macro_clusters@, notch_thresholds.1 as int, macro_clusters@.len() as int), quot(outline.0 as int, 10)),
{
    let mut h = notch_thresholds.0;
    let mut v = notch_thresholds.1;
    let mut k: usize = 0;
    while k < macro_clusters.len()
        invariant
            k <= macro_clusters@.len(),
            h == min_width(macro_clusters@, notch_thresholds.0 as int, k as int),
            v == min_height(macro_clusters@, notch_thresholds.1 as int, k as int),
        decreases macro_clusters@.len() - k,
    {
        let m = macro_clusters[k];
        if m.width < h {
            h = m.width;
        }
        if m.height < v {
            v = m.height;
        }
        k = k + 1;
    }
    let ah = div_trunc32(outline.1, 10);
    let av = div_trunc32(outline.0, 10);
    (if h <= ah { h } else { ah }, if v <= av { v } else { av })
}

/// One macro cluster snapped: onto the left edge when its left side is within the `h`
/// threshold, else onto the right edge when the gap there is; then likewise bottom, else top,
/// with the `v` threshold. A fixed macro does not move; a macro that is not a macro cluster is
/// left alone.
pub open spec fn snapped_macro(m: SoftMacro, outline: (i32, i32), th: (i32, i32)) -> SoftMacro {
    if !m.is_macro_cluster || m.fixed {
        m
    } else {
        let x = if m.x < th.0 {
            0
        } else if outline.0 - (m.x + m.width) < th.0 {
            outline.0 - m.width
        } else {
            m.x as int
        };
        let y = if m.y < th.1 {
            0
        } else if outline.1 - (m.y + m.height) < th.1 {
            outline.1 - m.height
        } else {
            m.y as int
        };
        SoftMacro { x: x as i32, y: y as i32, ..m }
    }
}

/// The macros after snapping the first `n` ids of the order, in order.
pub open spec fn aligned(ms: Seq<SoftMacro>, order: Seq<usize>, outline: (i32, i32), th: (i32, i32), n: int) -> Seq<SoftMacro>
    decreases n,
{
    if n <= 0 {
        ms
    } else {
        let prev = aligned(ms, order, outline, th, n - 1);
        let id = order[n - 1] as int;
        prev.update(id, snapped_macro(prev[id], outline, th))
    }
}

/// Snapping any macro stays within 32 bits.
pub open spec fn snap_fits(ms: Seq<SoftMacro>, outline: (i32, i32)) -> bool {
    forall|i: int|
        0 <= i < ms.len() ==> {
            &&& i32::MIN <= #[trigger] ms[i].x + ms[i].width <= i32::MAX
            &&& i32::MIN <= ms[i].y + ms[i].height <= i32::MAX
            &&& i32::MIN <= outline.0 - (ms[i].x + ms[i].width) <= i32::MAX
            &&& i32::MIN <= outline.1 - (ms[i].y + ms[i].height) <= i32::MAX
            &&& i32::MIN <= outline.0 - ms[i].width <= i32::MAX
            &&& i32::MIN <= outline.1 - ms[i].height <= i32::MAX
            &&& 0 <= ms[i].width
            &&& 0 <= ms[i].height
        }
}

proof fn lemma_snap_keeps_fit(m: SoftMacro, outline: (i32, i32), th: (i32, i32))
    requires
        i32::MIN <= outline.0 - (m.x + m.width) <= i32::MAX,
        i32::MIN <= outline.1 - (m.y + m.height) <= i32::MAX,
        i32::MIN <= m.x + m.width <= i32::MAX,
        i32::MIN <= m.y + m.height <= i32::MAX,
        i32::MIN <= outline.0 - m.width <= i32::MAX,
        i32::MIN <= outline.1 - m.height <= i32::MAX,
        0 <= m.width,
        0 <= m.height,
        0 <= outline.0,
        0 <= outline.1,
    ensures
        ({
            let s = snapped_macro(m, outline, th);
            &&& i32::MIN <= s.x + s.width <= i32::MAX
            &&& i32::MIN <= s.y + s.height <= i32::MAX
            &&& i32::MIN <= outline.0 - (s.x + s.width) <= i32::MAX
            &&& i32::MIN <= outline.1 - (s.y + s.height) <= i32::MAX
            &&& i32::MIN <= outline.0 - s.width <= i32::MAX
            &&& i32::MIN <= outline.1 - s.height <= i32::MAX
            &&& 0 <= s.width
            &&& 0 <= s.height
        }),
{
}

/// Snap every macro cluster of the order within a threshold of an edge onto that edge, in
/// order: the left test wins over the right one, the bottom over the top.
pub fn align_macro_clusters(macros: &mut Vec<SoftMacro>, order: &[usize], outline: (i32, i32), thresholds: (i32, i32))
    requires
        order_in_range(order@, old(macros)@.len() as int, old(macros)@.len() as int),
        snap_fits(old(macros)@, outline),
        0 <= outline.0,
        0 <= outline.1,
    ensures
        final(macros)@ == aligned(old(macros)@, order@, outline, thresholds, order@.len() as int),
{
    let ghost start = macros@;
    let (h_th, v_th) = thresholds;
    let mut k: usize = 0;
    while k < order.len()
        invariant
            k <= order@.len(),
            order_in_range(order@, start.len() as int, start.len() as int),
            0 <= outline.0,
            0 <= outline.1,
            h_th == thresholds.0,
            v_th == thresholds.1,
            macros@ == aligned(start, order@, outline, thresholds, k as int),
            macros@.len() == start.len(),
            snap_fits(macros@, outline),
        decreases order@.len() - k,
    {
        let id = order[k];
        assert(id < start.len());
        let mut m = macros[id];
        let ghost m0 = m;
        assert(snap_fits(macros@, outline));
        proof {
            lemma_snap_keeps_fit(m, outline, thresholds);
        }
        if m.is_macro_cluster {
            let lx = m.x;
            let ly = m.y;
            let ux = lx + m.width;
            let uy = ly + m.height;
            let new_x: i32 = if lx < h_th {
                0
            } else if outline.0 - ux < h_th {
                outline.0 - m.width
            } else {
                lx
            };
            let new_y: i32 = if ly < v_th {
                0
            } else if outline.1 - uy < v_th {
                outline.1 - m.height
            } else {
                ly
            };
            proof {
                let sx: int = if m0.x < thresholds.0 { 0int } else if outline.0 - (m0.x + m0.width) < thresholds.0 { outline.0 - m0.width } else { m0.x as int };
                let sy: int = if m0.y < thresholds.1 { 0int } else if outline.1 - (m0.y + m0.height) < thresholds.1 { outline.1 - m0.height } else { m0.y as int };
                assert(new_x == sx);
                assert(new_y == sy);
            }
            m.set_x(new_x);
            m.set_y(new_y);
        }
        let ghost before = macros@;
        macros.set(id, m);
        proof {
            assert(m0 == before[id as int]);
            let sx: int = if m0.x < thresholds.0 { 0int } else if outline.0 - (m0.x + m0.width) < thresholds.0 { outline.0 - m0.width } else { m0.x as int };
            let sy: int = if m0.y < thresholds.1 { 0int } else if outline.1 - (m0.y + m0.height) < thresholds.1 { outline.1 - m0.height } else { m0.y as int };
            if m0.is_macro_cluster && !m0.fixed {
                assert(m.x == sx);
                assert(m.y == sy);
                assert(m == SoftMacro { x: sx as i32, y: sy as i32, ..m0 });
            } else {
                assert(m == m0);
            }
            assert(m == snapped_macro(before[id as int], outline, thresholds));
            assert(macros@ == before.update(id as int, snapped_macro(before[id as int], outline, thresholds)));
            assert forall|i: int| 0 <= i < macros@.len() implies {
                &&& i32::MIN <= #[trigger] macros@[i].x + macros@[i].width <= i32::MAX
                &&& i32::MIN <= macros@[i].y + macros@[i].height <= i32::MAX
                &&& i32::MIN <= outline.0 - (macros@[i].x + macros@[i].width) <= i32::MAX
                &&& i32::MIN <= outline.1 - (macros@[i].y + macros@[i].height) <= i32::MAX
                &&& i32::MIN <= outline.0 - macros@[i].width <= i32::MAX
                &&& i32::MIN <= outline.1 - macros@[i].height <= i32::MAX
                &&& 0 <= macros@[i].width
                &&& 0 <= macros@[i].height
            } by {
                if i != id {
                    assert(macros@[i] == before[i]);
                }
            }
        }
        k = k + 1;
    }
}

} // verus!
