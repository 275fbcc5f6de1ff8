//! The feasibility checks that run before any clustering.

use crate::coverage::{covered, covered_count, covers, encloses, lemma_count_bounded, lemma_count_congruent, lemma_union_independent_of_window, union_area, union_fits};
use crate::design::{area_fits, rect_area, rect_intersection, Design, Instance, Rect};
use crate::single::{lemma_small_integers_are_exact, nearest_single, to_nearest_single};
use vstd::prelude::*;

verus! {

/// A macro, taken with its halo, fits the core on both axes: the core area, not a floorplan a
/// global fence may have narrowed.
pub fn macro_fits_in_core(width_with_halo: i64, height_with_halo: i64, core: &Rect) -> (r: bool)
    requires
        i64::MIN <= core.x_max - core.x_min <= i64::MAX,
        i64::MIN <= core.y_max - core.y_min <= i64::MAX,
    ensures
        r == (width_with_halo <= core.x_max - core.x_min && height_with_halo <= core.y_max - core.y_min),
{
    width_with_halo <= core.x_max - core.x_min && height_with_halo <= core.y_max - core.y_min
}

/// The check that instances fit the floorplan, in single precision: the two areas each taken to
/// single precision and summed there, against the floorplan area taken to single precision.
pub fn instance_area_with_halos_fits(macro_with_halo_area: i64, std_cell_area: i64, floorplan_area: i64) -> (r: bool)
    ensures
        r == (nearest_single(nearest_single(macro_with_halo_area as int) + nearest_single(std_cell_area as int))
            <= nearest_single(floorplan_area as int)),
{
    let a = to_nearest_single(macro_with_halo_area as i128);
    let b = to_nearest_single(std_cell_area as i128);
    let sum = to_nearest_single(a + b);
    let c = to_nearest_single(floorplan_area as i128);
    sum <= c
}

/// What an instance takes of the placement area: a fixed one only its part inside it, an
/// unfixed macro its area with halo, anything else its bounding box.
pub open spec fn instance_load(inst: Instance, area: Rect, halo_area: i64) -> int {
    if inst.is_fixed {
        rect_area(rect_intersection(inst.bbox, area))
    } else if inst.is_block {
        halo_area as int
    } else {
        rect_area(inst.bbox)
    }
}

/// What the first `n` instances take, summed.
pub open spec fn occupied_upto(insts: Seq<Instance>, area: Rect, halo_areas: Seq<i64>, n: int) -> int
    decreases n,
{
    if n <= 0 {
        0
    } else {
        occupied_upto(insts, area, halo_areas, n - 1) + instance_load(insts[n - 1], area, halo_areas[n - 1])
    }
}

/// The rectangle has interior.
pub open spec fn has_interior(r: Rect) -> bool {
    r.x_max > r.x_min && r.y_max > r.y_min
}

/// The parts of the first `n` blockages inside the area, those with interior, in order.
pub open spec fn clipped_blockages(bs: Seq<Rect>, area: Rect, n: int) -> Seq<Rect>
    decreases n,
{
    if n <= 0 {
        Seq::empty()
    } else if has_interior(rect_intersection(bs[n - 1], area)) {
        clipped_blockages(bs, area, n - 1).push(rect_intersection(bs[n - 1], area))
    } else {
        clipped_blockages(bs, area, n - 1)
    }
}

/// The sums the check forms fit 64 bits: each partial sum of what the instances take, and
/// that total with the blocked cells added.
pub open spec fn occupancy_fits(design: Design, area: Rect, halo_areas: Seq<i64>, blockages: Seq<Rect>) -> bool {
    let insts = design.instances@;
    &&& forall|m: int|
        0 <= m <= insts.len() ==> i64::MIN <= #[trigger] occupied_upto(insts, area, halo_areas, m) <= i64::MAX
    &&& occupied_upto(insts, area, halo_areas, insts.len() as int) + covered_count(
        blockages,
        area.x_min as int,
        area.x_max as int,
        area.y_min as int,
        area.y_max as int,
    ) <= i64::MAX
}

proof fn lemma_clipped_inside(bs: Seq<Rect>, area: Rect, n: int)
    requires
        0 <= n <= bs.len(),
    ensures
        forall|k: int|
            0 <= k < clipped_blockages(bs, area, n).len() ==> {
                let c = #[trigger] clipped_blockages(bs, area, n)[k];
                &&& has_interior(c)
                &&& area.x_min <= c.x_min && c.x_max <= area.x_max && area.y_min <= c.y_min && c.y_max <= area.y_max
            },
        forall|x: int, y: int|
            covers(area, x, y) ==> (#[trigger] covered(clipped_blockages(bs, area, n), x, y) <==> covered(bs.take(n), x, y)),
    decreases n,
{
    if n > 0 {
        lemma_clipped_inside(bs, area, n - 1);
        let prev = clipped_blockages(bs, area, n - 1);
        let cur = clipped_blockages(bs, area, n);
        let b = bs[n - 1];
        let c = rect_intersection(b, area);
        assert(cur == if has_interior(c) { prev.push(c) } else { prev });
        assert(forall|k: int| 0 <= k < prev.len() ==> #[trigger] cur[k] == prev[k]);
        assert forall|x: int, y: int| covers(area, x, y) implies (#[trigger] covered(cur, x, y) <==> covered(
            bs.take(n),
            x,
            y,
        )) by {
            assert(bs.take(n).drop_last() =~= bs.take(n - 1));
            if covered(cur, x, y) {
                let k = choose|k: int| 0 <= k < cur.len() && #[trigger] covers(cur[k], x, y);
                if k < prev.len() {
                    assert(cur[k] == prev[k]);
                    assert(covered(prev, x, y));
                    let q = choose|q: int| 0 <= q < n - 1 && #[trigger] covers(bs.take(n - 1)[q], x, y);
                    assert(bs.take(n)[q] == bs.take(n - 1)[q]);
                } else {
                    assert(cur[k] == c);
                    assert(covers(bs.take(n)[n - 1], x, y));
                }
            }
            if covered(bs.take(n), x, y) {
                let q = choose|q: int| 0 <= q < n && #[trigger] covers(bs.take(n)[q], x, y);
                if q < n - 1 {
                    assert(bs.take(n - 1)[q] == bs.take(n)[q]);
                    assert(covered(bs.take(n - 1), x, y));
                    assert(covered(prev, x, y));
                    let k = choose|k: int| 0 <= k < prev.len() && #[trigger] covers(prev[k], x, y);
                    assert(cur[k] == prev[k]);
                } else {
                    assert(covers(b, x, y));
                    assert(covers(c, x, y));
                    assert(has_interior(c));
                    assert(cur[prev.len() as int] == c);
                }
            }
        }
    }
}

proof fn lemma_intersection_fits(a: Rect, area: Rect)
    requires
        area_fits(area),
    ensures
        area_fits(rect_intersection(a, area)),
        rect_area(rect_intersection(a, area)) >= 0,
{
    let c = rect_intersection(a, area);
    if has_interior(c) {
        let (w, h) = (c.x_max - c.x_min, c.y_max - c.y_min);
        let (aw, ah) = (area.x_max - area.x_min, area.y_max - area.y_min);
        assert(w * h <= aw * ah) by (nonlinear_arith)
            requires
                0 < w <= aw,
                0 < h <= ah,
        ;
        assert(w * h >= 0) by (nonlinear_arith)
            requires
                0 < w,
                0 < h,
        ;
    }
}

/// The movable cells fit the placement area: what every instance takes (see
/// [`instance_load`], with each instance's macro area with halo from `macro_area_with_halo`,
/// indexed by instance) plus the cells of the area under some blockage, each counted once
/// however many blockages overlap there, is at most the area's own.
pub fn movable_cells_fit(design: &Design, area: &Rect, macro_area_with_halo: &[i64], blockages: &[Rect]) -> (r: bool)
    requires
        macro_area_with_halo@.len() == design.instances@.len(),
        area_fits(*area),
        forall|i: int|
            0 <= i < design.instances@.len() && !design.instances@[i].is_fixed && !design.instances@[i].is_block
                ==> area_fits(#[trigger] design.instances@[i].bbox),
        occupancy_fits(*design, *area, macro_area_with_halo@, blockages@),
    ensures
        r == (occupied_upto(design.instances@, *area, macro_area_with_halo@, design.instances@.len() as int)
            + covered_count(blockages@, area.x_min as int, area.x_max as int, area.y_min as int, area.y_max as int)
            <= rect_area(*area)),
{
    let ghost insts = design.instances@;
    let ghost halos = macro_area_with_halo@;
    let n = design.instances.len();
    let mut occupied: i64 = 0;
    let mut i: usize = 0;
    while i < n
        invariant
            i <= n,
            n == insts.len(),
            insts == design.instances@,
            halos == macro_area_with_halo@,
            halos.len() == n,
            area_fits(*area),
            forall|q: int| 0 <= q < n && !insts[q].is_fixed && !insts[q].is_block ==> area_fits(#[trigger] insts[q].bbox),
            occupancy_fits(*design, *area, halos, blockages@),
            occupied == occupied_upto(insts, *area, halos, i as int),
        decreases n - i,
    {
        let inst = &design.instances[i];
        assert(i64::MIN <= occupied_upto(insts, *area, halos, i + 1) <= i64::MAX);
        if inst.is_fixed {
            proof {
                lemma_intersection_fits(inst.bbox, *area);
            }
            let clip = inst.bbox.intersection(area);
            occupied = occupied + clip.area();
        } else if inst.is_block {
            occupied = occupied + macro_area_with_halo[i];
        } else {
            occupied = occupied + inst.bbox.area();
        }
        i = i + 1;
    }
    let ghost bs = blockages@;
    let mut clipped: Vec<Rect> = Vec::new();
    let mut k: usize = 0;
    while k < blockages.len()
        invariant
            k <= bs.len(),
            bs == blockages@,
            clipped@ == clipped_blockages(bs, *area, k as int),
        decreases bs.len() - k,
    {
        let c = blockages[k].intersection(area);
        if c.x_max > c.x_min && c.y_max > c.y_min {
            clipped.push(c);
        }
        k = k + 1;
    }
    let ghost cs = clipped@;
    let ghost (ax0, ax1, ay0, ay1) = (area.x_min as int, area.x_max as int, area.y_min as int, area.y_max as int);
    proof {
        lemma_clipped_inside(bs, *area, bs.len() as int);
        assert(bs.take(bs.len() as int) =~= bs);
        lemma_count_congruent(cs, bs, ax0, ax1, ay0, ay1);
        if cs.len() > 0 {
            assert(has_interior(cs[0]));
            assert(encloses(cs, ax0, ax1, ay0, ay1));
            lemma_count_bounded(cs, ax0, ax1, ay0, ay1);
            assert(rect_area(*area) == (ax1 - ax0) * (ay1 - ay0));
            assert forall|x0: int, x1: int, y0: int, y1: int| encloses(cs, x0, x1, y0, y1) implies #[trigger] covered_count(
                cs,
                x0,
                x1,
                y0,
                y1,
            ) <= i64::MAX by {
                lemma_union_independent_of_window(cs, x0, x1, y0, y1, ax0, ax1, ay0, ay1);
            }
        } else {
            assert forall|x0: int, x1: int, y0: int, y1: int| encloses(cs, x0, x1, y0, y1) implies #[trigger] covered_count(
                cs,
                x0,
                x1,
                y0,
                y1,
            ) <= i64::MAX by {
                lemma_count_congruent(cs, Seq::<Rect>::empty(), x0, x1, y0, y1);
                lemma_count_bounded(cs, x0, x1, y0, y1);
                assert forall|x: int, y: int| x0 <= x < x1 && y0 <= y < y1 implies #[trigger] covered(cs, x, y) == false by {}
                crate::coverage::lemma_no_rectangles(x0, x1, y0, y1);
            }
        }
        assert(union_fits(cs));
    }
    let blocked = union_area(&clipped);
    proof {
        if cs.len() > 0 {
            assert(blocked == covered_count(cs, ax0, ax1, ay0, ay1));
        } else {
            crate::coverage::lemma_no_rectangles(ax0, ax1, ay0, ay1);
            assert(encloses(cs, 0, 0, 0, 0));
            crate::coverage::lemma_no_rectangles(0, 0, 0, 0);
            assert(blocked == covered_count(cs, 0, 0, 0, 0));
            lemma_count_congruent(cs, Seq::<Rect>::empty(), ax0, ax1, ay0, ay1);
            lemma_count_congruent(cs, Seq::<Rect>::empty(), 0, 0, 0, 0);
        }
    }
    occupied = occupied + blocked;
    occupied <= area.area()
}

/// With every area and the sum below 2^24, the single-precision check is the exact one.
pub proof fn lemma_small_areas_check_exactly(macro_with_halo_area: i64, std_cell_area: i64, floorplan_area: i64)
    requires
        0 <= macro_with_halo_area,
        0 <= std_cell_area,
        macro_with_halo_area + std_cell_area < 0x100_0000,
        0 <= floorplan_area < 0x100_0000,
    ensures
        (nearest_single(nearest_single(macro_with_halo_area as int) + nearest_single(std_cell_area as int))
            <= nearest_single(floorplan_area as int)) == (macro_with_halo_area + std_cell_area <= floorplan_area),
{
    lemma_small_integers_are_exact(macro_with_halo_area as int);
    lemma_small_integers_are_exact(std_cell_area as int);
    lemma_small_integers_are_exact(macro_with_halo_area + std_cell_area);
    lemma_small_integers_are_exact(floorplan_area as int);
}

} // verus!
