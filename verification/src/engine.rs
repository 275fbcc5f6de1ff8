//! The clustering stage's vocabulary: why it declines, what it produces, what it reads, and
//! what it hands on to coarse shaping.

use crate::cluster::{Cluster, ClusterId};
use crate::design::{
    area_fits, areas_fit, compute_module_metrics, counts_fit, floorplan_shape, module_counts, module_errors,
    rect_area, rect_intersection, rects_overlap, unfixed_macros, Design, FixedInstanceInArea, ModuleMetrics, Rect,
};
use crate::coverage::covered_count;
use crate::feasibility::{instance_area_with_halos_fits, movable_cells_fit, occupancy_fits, occupied_upto};
use crate::single::nearest_single;
use crate::feasibility::macro_fits_in_core;
use crate::halo::{build_macro_halo, macro_halo_of, pins_in_range};
use crate::options::Halo;
use crate::ioclusters::{IoClusters, Pin};
use crate::netlist::DbNet;
use crate::options::MplError;
use crate::read::MacroGeometry;
use crate::regions::{edge_of, boundary_of, BoundaryRegion, IoRegion};
use crate::report::DesignReport;
use crate::status::Status;
use vstd::prelude::*;

verus! {

/// Why clustering declined.
#[derive(Debug, PartialEq, Eq)]
pub enum Refusal {
    /// No partitioner here; names the clusters that needed one.
    NeedsPartitioner(Vec<ClusterId>),
    /// A design the engine cannot process at all.
    Error(String),
    /// A design the placer itself refuses, with its MPL code.
    Mpl(MplError),
    /// A path this engine does not take: refused, never approximated.
    NotImplemented(&'static str),
}

/// Everything coarse shaping reads that clustering has already worked out.
#[derive(Debug, PartialEq)]
pub struct ShapingHandoff {
    pub die: Rect,
    /// The core, or the global fence clipped to it.
    pub floorplan: Rect,
    /// No standard cells and no IO clusters.
    pub has_only_macros: bool,
    pub has_io_pads: bool,
    /// The top module's standard-cell area.
    pub top_std_cell_area: i64,
    /// `(width, height)` with halo, by instance index; zero for anything not a macro.
    pub macro_dims: Vec<(i64, i64)>,
    /// The halo-inclusive bounding box, by instance index.
    pub macro_bboxes: Vec<Rect>,
    pub has_std_cells: bool,
    /// Summed over the unfixed macros.
    pub macro_with_halo_area: i64,
    pub io_bundles: Vec<IoRegion>,
    pub constrained_regions: Vec<IoRegion>,
    /// Block ports whose first pin is fixed.
    pub fixed_ios: i64,
    /// Block ports whose first pin is not fixed.
    pub unfixed_ios: i64,
    pub has_unconstrained_ios: bool,
    pub blocked_regions_for_pins: Vec<Rect>,
}

/// The outcome of clustering: the tree, its verdict, and for a run that clustered, the design
/// report and what shaping needs.
#[derive(Debug, PartialEq)]
pub struct Clustering {
    pub root: Cluster,
    pub status: Status,
    pub refusal: Option<Refusal>,
    pub report: Option<DesignReport>,
    pub shaping: Option<ShapingHandoff>,
}

/// Everything the stage reads from the database.
pub struct DesignInputs<'a> {
    pub design: &'a Design,
    pub pins: &'a [Pin],
    pub nets: &'a [DbNet],
    /// Per instance, present for macros only.
    pub geometry: &'a [Option<MacroGeometry>],
    /// Placement blockages as read; their union is what occupies area.
    pub blockages: &'a [Rect],
    /// Where pins may not sit: die-edge lines, consulted only by coarse shaping.
    pub blocked_regions_for_pins: &'a [Rect],
    pub minimum_spacing: i64,
    /// Reported verbatim; the engine does not use it.
    pub manufacturing_grid: i32,
}

/// An IO cluster's region: its line on a die edge, with the edge and its pin count; nothing
/// for a cluster without a line.
pub open spec fn region_of(die: Rect, c: Cluster) -> Option<IoRegion> {
    match c.io_region {
        None => None,
        Some(line) => Some(IoRegion { region: BoundaryRegion { boundary: edge_of(die, line), line }, ios: c.num_io_pins as i64 }),
    }
}

/// The regions of the first `n` clusters that have one; with `constrained_only`, of those
/// whose pins are constrained.
pub open spec fn regions_of(die: Rect, cs: Seq<Cluster>, constrained_only: bool, n: int) -> Seq<IoRegion>
    decreases n,
{
    if n <= 0 {
        Seq::empty()
    } else {
        let prev = regions_of(die, cs, constrained_only, n - 1);
        let c = cs[n - 1];
        if constrained_only && c.is_cluster_of_unconstrained_io_pins {
            prev
        } else {
            match region_of(die, c) {
                Some(r) => prev.push(r),
                None => prev,
            }
        }
    }
}

/// The number among the first `n` pins whose fixedness is `fixed`.
pub open spec fn pins_with(pins: Seq<Pin>, fixed: bool, n: int) -> int
    decreases n,
{
    if n <= 0 { 0 } else { pins_with(pins, fixed, n - 1) + if pins[n - 1].is_fixed == fixed { 1int } else { 0int } }
}

fn collect_regions(die: &Rect, cs: &Vec<Cluster>, constrained_only: bool) -> (r: Vec<IoRegion>)
    ensures
        r@ == regions_of(*die, cs@, constrained_only, cs@.len() as int),
{
    let mut out: Vec<IoRegion> = Vec::new();
    let mut k: usize = 0;
    while k < cs.len()
        invariant
            k <= cs@.len(),
            out@ == regions_of(*die, cs@, constrained_only, k as int),
        decreases cs@.len() - k,
    {
        let c = &cs[k];
        if !(constrained_only && c.is_cluster_of_unconstrained_io_pins) {
            match c.io_region {
                Some(line) => {
                    out.push(IoRegion { region: BoundaryRegion { boundary: boundary_of(die, &line), line }, ios: c.num_io_pins as i64 });
                },
                None => {},
            }
        }
        k = k + 1;
    }
    out
}

fn count_pins(pins: &[Pin], fixed: bool) -> (r: i64)
    ensures
        r == pins_with(pins@, fixed, pins@.len() as int) as i64,
{
    let mut count: usize = 0;
    let mut k: usize = 0;
    while k < pins.len()
        invariant
            k <= pins@.len(),
            0 <= count <= k,
            count == pins_with(pins@, fixed, k as int),
        decreases pins@.len() - k,
    {
        if pins[k].is_fixed == fixed {
            count = count + 1;
        }
        k = k + 1;
    }
    count as i64
}

fn any_unconstrained(cs: &Vec<Cluster>) -> (r: bool)
    ensures
        r == exists|k: int| 0 <= k < cs@.len() && (#[trigger] cs@[k]).is_cluster_of_unconstrained_io_pins,
{
    let mut k: usize = 0;
    while k < cs.len()
        invariant
            k <= cs@.len(),
            forall|j: int| 0 <= j < k ==> !(#[trigger] cs@[j]).is_cluster_of_unconstrained_io_pins,
        decreases cs@.len() - k,
    {
        if cs[k].is_cluster_of_unconstrained_io_pins {
            return true;
        }
        k = k + 1;
    }
    false
}

/// Gather what shaping needs once every value is in hand: the die and floorplan, whether the
/// design is only macros (no standard cells and no IO clusters), the IO bundles' regions, the
/// regions of the constrained pin clusters only, since an unconstrained one is served by the
/// available regions, the counts of fixed and unfixed ports, and whether any pin cluster is
/// unconstrained.
pub fn shaping_handoff(
    design: &Design,
    pins: &[Pin],
    blocked_regions_for_pins: &[Rect],
    floorplan: &Rect,
    top_std_cell_area: i64,
    macro_with_halo_area: i64,
    macro_dims: Vec<(i64, i64)>,
    macro_bboxes: Vec<Rect>,
    io: &IoClusters,
    has_io_pads: bool,
    num_std_cell: i32,
) -> (r: ShapingHandoff)
    ensures
        r.die == design.die_area,
        r.floorplan == *floorplan,
        r.has_only_macros == (num_std_cell == 0 && !io.has_io_clusters),
        r.has_io_pads == has_io_pads,
        r.top_std_cell_area == top_std_cell_area,
        r.macro_dims@ == macro_dims@,
        r.macro_bboxes@ == macro_bboxes@,
        r.has_std_cells == (num_std_cell > 0),
        r.macro_with_halo_area == macro_with_halo_area,
        r.io_bundles@ == regions_of(design.die_area, io.bundles@, false, io.bundles@.len() as int),
        r.constrained_regions@ == regions_of(design.die_area, io.pin_clusters@, true, io.pin_clusters@.len() as int),
        r.fixed_ios == pins_with(pins@, true, pins@.len() as int) as i64,
        r.unfixed_ios == pins_with(pins@, false, pins@.len() as int) as i64,
        r.has_unconstrained_ios == exists|k: int| 0 <= k < io.pin_clusters@.len() && (#[trigger] io.pin_clusters@[k]).is_cluster_of_unconstrained_io_pins,
        r.blocked_regions_for_pins@ == blocked_regions_for_pins@,
{
    let die = design.die_area;
    let mut blocked: Vec<Rect> = Vec::new();
    let mut k: usize = 0;
    while k < blocked_regions_for_pins.len()
        invariant
            k <= blocked_regions_for_pins@.len(),
            blocked@ == blocked_regions_for_pins@.take(k as int),
        decreases blocked_regions_for_pins@.len() - k,
    {
        blocked.push(blocked_regions_for_pins[k]);
        proof {
            assert(blocked@ =~= blocked_regions_for_pins@.take(k + 1));
        }
        k = k + 1;
    }
    proof {
        assert(blocked@ =~= blocked_regions_for_pins@);
    }
    ShapingHandoff {
        die,
        floorplan: *floorplan,
        has_only_macros: num_std_cell == 0 && !io.has_io_clusters,
        has_io_pads,
        top_std_cell_area,
        macro_dims,
        macro_bboxes,
        has_std_cells: num_std_cell > 0,
        macro_with_halo_area,
        io_bundles: collect_regions(&die, &io.bundles, false),
        constrained_regions: collect_regions(&die, &io.pin_clusters, true),
        fixed_ios: count_pins(pins, true),
        unfixed_ios: count_pins(pins, false),
        has_unconstrained_ios: any_unconstrained(&io.pin_clusters),
        blocked_regions_for_pins: blocked,
    }
}

/// The halo instance `i` resolves to, or `None` when it has none to resolve: an instance with no
/// macro geometry, or a fixed one outside the placement area, is skipped.
pub open spec fn resolved_halo(
    design: Design,
    geometry: Seq<Option<MacroGeometry>>,
    explicit: Seq<Option<Halo>>,
    base: Halo,
    use_full_halo: bool,
    minimum_spacing: i64,
    placement_area: Rect,
    i: int,
) -> Option<Halo> {
    let inst = design.instances@[i];
    match geometry[i] {
        None => None,
        Some(g) => if inst.is_fixed && !rects_overlap(inst.bbox, placement_area) {
            None
        } else {
            Some(
                macro_halo_of(
                    explicit[i],
                    g.inst_halo,
                    base,
                    use_full_halo,
                    g.pins@,
                    g.master_width,
                    g.master_height,
                    minimum_spacing,
                    inst.is_fixed,
                    g.orient,
                ),
            )
        },
    }
}

/// The macro with its halo fits the core on both axes.
pub open spec fn fits_core(g: MacroGeometry, h: Halo, core: Rect) -> bool {
    g.master_width + h.left + h.right <= core.x_max - core.x_min && g.master_height + h.bottom + h.top
        <= core.y_max - core.y_min
}

/// Instance `i` resolves to a halo with which it does not fit the core.
pub open spec fn misfit(
    design: Design,
    geometry: Seq<Option<MacroGeometry>>,
    explicit: Seq<Option<Halo>>,
    base: Halo,
    use_full_halo: bool,
    minimum_spacing: i64,
    placement_area: Rect,
    i: int,
) -> bool {
    match resolved_halo(design, geometry, explicit, base, use_full_halo, minimum_spacing, placement_area, i) {
        None => false,
        Some(h) => !fits_core(geometry[i]->0, h, design.core_area),
    }
}

/// The sums of each macro's extents and its resolved halo, formed left to right, and the core's
/// extents fit 64 bits, and every macro's pins lie within its master.
pub open spec fn halo_inputs_ok(
    design: Design,
    geometry: Seq<Option<MacroGeometry>>,
    explicit: Seq<Option<Halo>>,
    base: Halo,
    use_full_halo: bool,
    minimum_spacing: i64,
    placement_area: Rect,
) -> bool {
    &&& geometry.len() == design.instances@.len()
    &&& explicit.len() == design.instances@.len()
    &&& i64::MIN <= design.core_area.x_max - design.core_area.x_min <= i64::MAX
    &&& i64::MIN <= design.core_area.y_max - design.core_area.y_min <= i64::MAX
    &&& forall|i: int|
        0 <= i < geometry.len() && #[trigger] geometry[i] is Some ==> pins_in_range(
            geometry[i]->0.pins@,
            geometry[i]->0.master_width,
            geometry[i]->0.master_height,
        )
    &&& forall|i: int|
        0 <= i < geometry.len() ==> match #[trigger] resolved_halo(
            design,
            geometry,
            explicit,
            base,
            use_full_halo,
            minimum_spacing,
            placement_area,
            i,
        ) {
            None => true,
            Some(h) => i64::MIN <= geometry[i]->0.master_width + h.left <= i64::MAX && i64::MIN
                <= geometry[i]->0.master_width + h.left + h.right <= i64::MAX && i64::MIN
                <= geometry[i]->0.master_height + h.bottom <= i64::MAX && i64::MIN
                <= geometry[i]->0.master_height + h.bottom + h.top <= i64::MAX,
        }
}

/// Every macro's halo, checked against the core: each instance gets its resolved halo (the
/// zero halo when it is skipped), or the first macro that does not fit the core with its halo
/// is refused with MPL-6, naming it.
pub fn resolve_halos(
    design: &Design,
    geometry: &[Option<MacroGeometry>],
    explicit_halos: &[Option<Halo>],
    base_halo: Halo,
    use_full_halo: bool,
    minimum_spacing: i64,
    placement_area: &Rect,
) -> (r: Result<Vec<Halo>, MplError>)
    requires
        halo_inputs_ok(*design, geometry@, explicit_halos@, base_halo, use_full_halo, minimum_spacing, *placement_area),
    ensures
        match r {
            Ok(v) => {
                &&& forall|i: int|
                    0 <= i < geometry@.len() ==> !#[trigger] misfit(
                        *design,
                        geometry@,
                        explicit_halos@,
                        base_halo,
                        use_full_halo,
                        minimum_spacing,
                        *placement_area,
                        i,
                    )
                &&& v@.len() == geometry@.len()
                &&& forall|i: int|
                    0 <= i < v@.len() ==> #[trigger] v@[i] == match resolved_halo(
                        *design,
                        geometry@,
                        explicit_halos@,
                        base_halo,
                        use_full_halo,
                        minimum_spacing,
                        *placement_area,
                        i,
                    ) {
                        None => Halo { left: 0, bottom: 0, right: 0, top: 0 },
                        Some(h) => h,
                    }
            },
            Err(e) => exists|i: int|
                0 <= i < geometry@.len() && #[trigger] misfit(
                    *design,
                    geometry@,
                    explicit_halos@,
                    base_halo,
                    use_full_halo,
                    minimum_spacing,
                    *placement_area,
                    i,
                ) && (forall|j: int|
                    0 <= j < i ==> !#[trigger] misfit(
                        *design,
                        geometry@,
                        explicit_halos@,
                        base_halo,
                        use_full_halo,
                        minimum_spacing,
                        *placement_area,
                        j,
                    )) && e.code == 6 && e.message@ == "Found macro that does not fit in the core.\nName: "@
                    + design.instances@[i].name@,
        },
{
    let ghost (d, gs, ex) = (*design, geometry@, explicit_halos@);
    let n = geometry.len();
    let mut halos: Vec<Halo> = Vec::new();
    let mut i: usize = 0;
    while i < n
        invariant
            i <= n,
            n == gs.len(),
            gs == geometry@,
            ex == explicit_halos@,
            d == *design,
            halo_inputs_ok(d, gs, ex, base_halo, use_full_halo, minimum_spacing, *placement_area),
            halos@.len() == i,
            forall|q: int| 0 <= q < i ==> !#[trigger] misfit(d, gs, ex, base_halo, use_full_halo, minimum_spacing, *placement_area, q),
            forall|q: int|
                0 <= q < i ==> #[trigger] halos@[q] == match resolved_halo(
                    d,
                    gs,
                    ex,
                    base_halo,
                    use_full_halo,
                    minimum_spacing,
                    *placement_area,
                    q,
                ) {
                    None => Halo { left: 0, bottom: 0, right: 0, top: 0 },
                    Some(h) => h,
                },
        decreases n - i,
    {
        let inst = &design.instances[i];
        let ghost res = resolved_halo(d, gs, ex, base_halo, use_full_halo, minimum_spacing, *placement_area, i as int);
        match &geometry[i] {
            None => {
                halos.push(Halo { left: 0, bottom: 0, right: 0, top: 0 });
            },
            Some(g) => {
                if inst.is_fixed && !inst.bbox.overlaps(placement_area) {
                    halos.push(Halo { left: 0, bottom: 0, right: 0, top: 0 });
                } else {
                    assert(gs[i as int] is Some);
                    let halo = build_macro_halo(
                        explicit_halos[i],
                        g.inst_halo,
                        base_halo,
                        use_full_halo,
                        g.pins.as_slice(),
                        g.master_width,
                        g.master_height,
                        minimum_spacing,
                        inst.is_fixed,
                        g.orient,
                    );
                    assert(res == Some(halo));
                    if !macro_fits_in_core(
                        g.master_width + halo.left + halo.right,
                        g.master_height + halo.bottom + halo.top,
                        &design.core_area,
                    ) {
                        let mut message = String::from_str("Found macro that does not fit in the core.\nName: ");
                        message.append(inst.name.as_str());
                        assert(misfit(d, gs, ex, base_halo, use_full_halo, minimum_spacing, *placement_area, i as int));
                        return Err(MplError { code: 6, message });
                    }
                    halos.push(halo);
                }
            },
        }
        i = i + 1;
    }
    Ok(halos)
}

/// The floorplan the placer works in: the core, or the core clipped to the global fence.
pub open spec fn fence_shape(design: Design, global_fence: Option<Rect>) -> Rect {
    match global_fence {
        Some(f) => rect_intersection(design.core_area, f),
        None => design.core_area,
    }
}

/// Some instance's macro does not fit the core with its resolved halo.
pub open spec fn any_misfit(
    design: Design,
    geometry: Seq<Option<MacroGeometry>>,
    explicit: Seq<Option<Halo>>,
    base: Halo,
    use_full_halo: bool,
    minimum_spacing: i64,
    area: Rect,
) -> bool {
    exists|i: int|
        0 <= i < geometry.len() && #[trigger] misfit(design, geometry, explicit, base, use_full_halo, minimum_spacing, area, i)
}

/// Every instance's resolved halo, the zero halo where it has none.
pub open spec fn resolved_halos(
    design: Design,
    geometry: Seq<Option<MacroGeometry>>,
    explicit: Seq<Option<Halo>>,
    base: Halo,
    use_full_halo: bool,
    minimum_spacing: i64,
    area: Rect,
) -> Seq<Halo> {
    Seq::new(
        geometry.len(),
        |i: int|
            match resolved_halo(design, geometry, explicit, base, use_full_halo, minimum_spacing, area, i) {
                None => Halo { left: 0, bottom: 0, right: 0, top: 0 },
                Some(h) => h,
            },
    )
}

/// An instance's width and height with its halo; zero for one without macro geometry.
pub open spec fn haloed_dims(geometry: Seq<Option<MacroGeometry>>, halos: Seq<Halo>, i: int) -> (int, int) {
    match geometry[i] {
        None => (0, 0),
        Some(g) => (g.master_width + halos[i].left + halos[i].right, g.master_height + halos[i].bottom + halos[i].top),
    }
}

/// An instance's area with its halo.
pub open spec fn haloed_area(geometry: Seq<Option<MacroGeometry>>, halos: Seq<Halo>, i: int) -> int {
    haloed_dims(geometry, halos, i).0 * haloed_dims(geometry, halos, i).1
}

/// An instance's box with its halo: its own corner moved out by the halo, spanning the haloed
/// dimensions; the zero box for one without macro geometry.
pub open spec fn haloed_box(design: Design, geometry: Seq<Option<MacroGeometry>>, halos: Seq<Halo>, i: int) -> Rect {
    match geometry[i] {
        None => Rect { x_min: 0, y_min: 0, x_max: 0, y_max: 0 },
        Some(g) => {
            let b = design.instances@[i].bbox;
            let x_min = b.x_min - halos[i].left;
            let y_min = b.y_min - halos[i].bottom;
            Rect {
                x_min: x_min as i64,
                y_min: y_min as i64,
                x_max: (x_min + haloed_dims(geometry, halos, i).0) as i64,
                y_max: (y_min + haloed_dims(geometry, halos, i).1) as i64,
            }
        },
    }
}

/// The haloed areas of the first `n` of the listed instances, summed.
pub open spec fn haloed_sum(geometry: Seq<Option<MacroGeometry>>, halos: Seq<Halo>, listed: Seq<usize>, n: int) -> int
    decreases n,
{
    if n <= 0 {
        0
    } else {
        haloed_sum(geometry, halos, listed, n - 1) + haloed_area(geometry, halos, listed[n - 1] as int)
    }
}

/// The unfixed macros: the blocks that are not fixed, by index.
pub open spec fn unfixed_of(design: Design) -> Seq<usize> {
    Seq::new(design.instances@.len(), |i: int| i as usize).filter(
        |i: usize| design.instances@[i as int].is_block && !design.instances@[i as int].is_fixed,
    )
}

/// The values the checks form all fit their types: the floorplan's extents and area, each
/// macro's haloed extents, area and box, the occupancy sums, the module counts, and the sum of
/// the unfixed macros' haloed areas.
pub open spec fn preflight_fits(
    design: Design,
    geometry: Seq<Option<MacroGeometry>>,
    explicit: Seq<Option<Halo>>,
    base: Halo,
    use_full_halo: bool,
    minimum_spacing: i64,
    global_fence: Option<Rect>,
    blockages: Seq<Rect>,
) -> bool {
    let shape = fence_shape(design, global_fence);
    let halos = resolved_halos(design, geometry, explicit, base, use_full_halo, minimum_spacing, shape);
    let areas = Seq::new(geometry.len(), |i: int| haloed_area(geometry, halos, i) as i64);
    let unfixed = unfixed_of(design);
    &&& area_fits(design.core_area)
    &&& area_fits(shape)
    &&& design.well_formed()
    &&& areas_fit(design)
    &&& halo_inputs_ok(design, geometry, explicit, base, use_full_halo, minimum_spacing, shape)
    &&& forall|i: int|
        0 <= i < geometry.len() && #[trigger] geometry[i] is Some ==> {
            let (w, h) = haloed_dims(geometry, halos, i);
            let b = design.instances@[i].bbox;
            &&& i64::MIN <= w * h <= i64::MAX
            &&& i64::MIN <= b.x_min - halos[i].left <= i64::MAX
            &&& i64::MIN <= b.y_min - halos[i].bottom <= i64::MAX
            &&& i64::MIN <= b.x_min - halos[i].left + w <= i64::MAX
            &&& i64::MIN <= b.y_min - halos[i].bottom + h <= i64::MAX
        }
    &&& occupancy_fits(design, shape, areas, blockages)
    &&& counts_fit(module_counts(design, design.top as int, shape))
    &&& forall|m: int| 0 <= m <= unfixed.len() ==> i64::MIN <= #[trigger] haloed_sum(geometry, halos, unfixed, m) <= i64::MAX
}

/// What the checks before clustering found for a design that goes on to be clustered.
#[derive(Debug, PartialEq)]
pub struct Preflight {
    pub placement_area: Rect,
    pub halos: Vec<Halo>,
    pub macro_dims: Vec<(i64, i64)>,
    pub macro_bboxes: Vec<Rect>,
    pub design_metrics: ModuleMetrics,
    pub unfixed: Vec<usize>,
    pub macro_with_halo_area: i64,
}

/// How the checks before clustering end.
#[derive(Debug, PartialEq)]
pub enum PreflightOutcome {
    /// Every check passed.
    Proceed(Preflight),
    /// No unfixed macro: nothing to place.
    Vacuous,
    /// A check refused the design.
    Refused(Refusal),
}

/// The checks that run before any clustering, in order: the floorplan must have area (MPL-68);
/// every macro must fit the core with its halo (MPL-6); the movable cells must fit the
/// floorplan (MPL-65), before the module metrics and before the vacuous test; no fixed
/// non-macro instance may sit inside it; a design with no unfixed macro is vacuous; and the
/// macros' area with halos plus the cells' must fit the floorplan in single precision
/// (MPL-16).
pub fn clustering_preflight(
    design: &Design,
    geometry: &[Option<MacroGeometry>],
    explicit_halos: &[Option<Halo>],
    base_halo: Halo,
    use_full_halo: bool,
    minimum_spacing: i64,
    global_fence: Option<&Rect>,
    blockages: &[Rect],
) -> (r: PreflightOutcome)
    requires
        preflight_fits(
            *design,
            geometry@,
            explicit_halos@,
            base_halo,
            use_full_halo,
            minimum_spacing,
            match global_fence {
                Some(f) => Some(*f),
                None => None,
            },
            blockages@,
        ),
    ensures
        ({
            let fence = match global_fence {
                Some(f) => Some(*f),
                None => None,
            };
            let shape = fence_shape(*design, fence);
            let misfits = any_misfit(*design, geometry@, explicit_halos@, base_halo, use_full_halo, minimum_spacing, shape);
            let halos = resolved_halos(*design, geometry@, explicit_halos@, base_halo, use_full_halo, minimum_spacing, shape);
            let areas = Seq::new(geometry@.len(), |i: int| haloed_area(geometry@, halos, i) as i64);
            let occupied = occupied_upto(design.instances@, shape, areas, design.instances@.len() as int);
            let blocked = covered_count(blockages@, shape.x_min as int, shape.x_max as int, shape.y_min as int, shape.y_max as int);
            let counts = module_counts(*design, design.top as int, shape);
            let errors = module_errors(*design, design.top as int, shape);
            let unfixed = unfixed_of(*design);
            let with_halos = haloed_sum(geometry@, halos, unfixed, unfixed.len() as int);
            if rect_area(shape) == 0 {
                (r matches PreflightOutcome::Refused(Refusal::Mpl(e)) && e.code == 68 && e.message@
                    == "The global fence set is completely outside the core area."@)
            } else if misfits {
                (r matches PreflightOutcome::Refused(Refusal::Mpl(e)) && e.code == 6)
            } else if !(occupied + blocked <= rect_area(shape)) {
                (r matches PreflightOutcome::Refused(Refusal::Mpl(e)) && e.code == 65 && e.message@
                    == "The movable cells do not fit in the macro placement area."@)
            } else if errors.len() > 0 {
                (r matches PreflightOutcome::Refused(Refusal::Error(m)) && m@ == "fixed non-macro instance "@
                    + errors[0]@ + " inside the macro placement area"@)
            } else if unfixed.len() == 0 {
                r is Vacuous
            } else if !(nearest_single(nearest_single(with_halos) + nearest_single(counts.2)) <= nearest_single(
                rect_area(shape),
            )) {
                (r matches PreflightOutcome::Refused(Refusal::Mpl(e)) && e.code == 16 && e.message@
                    == "The instance area considering the macros' halos exceeds the floorplan area."@)
            } else {
                (r matches PreflightOutcome::Proceed(p) && p.placement_area == shape && p.halos@ == halos
                    && p.macro_dims@ == Seq::new(
                    geometry@.len(),
                    |i: int| (haloed_dims(geometry@, halos, i).0 as i64, haloed_dims(geometry@, halos, i).1 as i64),
                ) && p.macro_bboxes@ == Seq::new(geometry@.len(), |i: int| haloed_box(*design, geometry@, halos, i))
                    && (p.design_metrics.num_std_cell as int, p.design_metrics.num_macro as int,
                p.design_metrics.std_cell_area as int, p.design_metrics.macro_area as int) == counts
                    && p.unfixed@ == unfixed && p.macro_with_halo_area == with_halos)
            }
        }),
{
    let ghost fence = match global_fence {
        Some(f) => Some(*f),
        None => None,
    };
    let ghost shape = fence_shape(*design, fence);
    let placement_area = match floorplan_shape(&design.core_area, global_fence) {
        Some(a) => a,
        None => {
            return PreflightOutcome::Refused(
                Refusal::Mpl(MplError::new(68, "The global fence set is completely outside the core area.")),
            );
        },
    };
    assert(placement_area == shape);
    let halos = match resolve_halos(
        design,
        geometry,
        explicit_halos,
        base_halo,
        use_full_halo,
        minimum_spacing,
        &placement_area,
    ) {
        Ok(h) => h,
        Err(e) => {
            assert(any_misfit(*design, geometry@, explicit_halos@, base_halo, use_full_halo, minimum_spacing, shape));
            return PreflightOutcome::Refused(Refusal::Mpl(e));
        },
    };
    let ghost hs = resolved_halos(*design, geometry@, explicit_halos@, base_halo, use_full_halo, minimum_spacing, shape);
    assert(halos@ =~= hs);
    let n = geometry.len();
    let mut areas: Vec<i64> = Vec::new();
    let mut dims: Vec<(i64, i64)> = Vec::new();
    let mut boxes: Vec<Rect> = Vec::new();
    let mut i: usize = 0;
    while i < n
        invariant
            i <= n,
            n == geometry@.len(),
            halos@ == hs,
            hs.len() == n,
            design.instances@.len() == n,
            preflight_fits(*design, geometry@, explicit_halos@, base_halo, use_full_halo, minimum_spacing, fence, blockages@),
            shape == fence_shape(*design, fence),
            hs == resolved_halos(*design, geometry@, explicit_halos@, base_halo, use_full_halo, minimum_spacing, shape),
            areas@.len() == i,
            dims@.len() == i,
            boxes@.len() == i,
            forall|k: int| 0 <= k < i ==> #[trigger] areas@[k] == haloed_area(geometry@, hs, k) as i64,
            forall|k: int|
                0 <= k < i ==> #[trigger] dims@[k] == (haloed_dims(geometry@, hs, k).0 as i64, haloed_dims(geometry@, hs, k).1 as i64),
            forall|k: int| 0 <= k < i ==> #[trigger] boxes@[k] == haloed_box(*design, geometry@, hs, k),
        decreases n - i,
    {
        match &geometry[i] {
            None => {
                areas.push(0);
                dims.push((0, 0));
                boxes.push(Rect { x_min: 0, y_min: 0, x_max: 0, y_max: 0 });
            },
            Some(g) => {
                assert(geometry@[i as int] is Some);
                let h = halos[i];
                assert(halo_inputs_ok(*design, geometry@, explicit_halos@, base_halo, use_full_halo, minimum_spacing, shape));
                let ghost rh = resolved_halo(*design, geometry@, explicit_halos@, base_halo, use_full_halo, minimum_spacing, shape, i as int);
                assert(hs[i as int] == match rh {
                    None => Halo { left: 0, bottom: 0, right: 0, top: 0 },
                    Some(x) => x,
                });
                let w = g.master_width + h.left + h.right;
                let ht = g.master_height + h.bottom + h.top;
                let b = design.instances[i].bbox;
                let x_min = b.x_min - h.left;
                let y_min = b.y_min - h.bottom;
                areas.push(w * ht);
                dims.push((w, ht));
                boxes.push(Rect { x_min, y_min, x_max: x_min + w, y_max: y_min + ht });
            },
        }
        i = i + 1;
    }
    let ghost area_seq = Seq::new(geometry@.len(), |k: int| haloed_area(geometry@, hs, k) as i64);
    assert(areas@ =~= area_seq);
    if !movable_cells_fit(design, &placement_area, areas.as_slice(), blockages) {
        return PreflightOutcome::Refused(
            Refusal::Mpl(MplError::new(65, "The movable cells do not fit in the macro placement area.")),
        );
    }
    let mut errors: Vec<FixedInstanceInArea> = Vec::new();
    let design_metrics = compute_module_metrics(design, design.top, &placement_area, &mut errors);
    assert(errors@.map_values(|e: FixedInstanceInArea| e.name) =~= module_errors(*design, design.top as int, shape));
    if errors.len() > 0 {
        assert(errors@.map_values(|e: FixedInstanceInArea| e.name)[0] == errors@[0].name);
        let mut m = String::from_str("fixed non-macro instance ");
        m.append(errors[0].name.as_str());
        m.append(" inside the macro placement area");
        return PreflightOutcome::Refused(Refusal::Error(m));
    }
    let unfixed = unfixed_macros(design);
    if unfixed.len() == 0 {
        return PreflightOutcome::Vacuous;
    }
    let ghost uf = unfixed_of(*design);
    assert(unfixed@ == uf);
    proof {
        let all = Seq::new(design.instances@.len(), |q: int| q as usize);
        let keep = |q: usize| design.instances@[q as int].is_block && !design.instances@[q as int].is_fixed;
        assert(uf == all.filter(keep));
        assert forall|q: int| 0 <= q < uf.len() implies #[trigger] uf[q] < geometry@.len() by {
            assert(uf.contains(uf[q]));
            all.lemma_filter_contains_rev(keep, uf[q]);
            let j = choose|j: int| 0 <= j < all.len() && all[j] == uf[q];
            assert(all[j] == j as usize);
        }
    }
    let mut with_halos: i64 = 0;
    let mut k: usize = 0;
    while k < unfixed.len()
        invariant
            k <= unfixed@.len(),
            unfixed@ == uf,
            uf == unfixed_of(*design),
            areas@ == area_seq,
            area_seq.len() == geometry@.len(),
            preflight_fits(*design, geometry@, explicit_halos@, base_halo, use_full_halo, minimum_spacing, fence, blockages@),
            shape == fence_shape(*design, fence),
            hs == resolved_halos(*design, geometry@, explicit_halos@, base_halo, use_full_halo, minimum_spacing, shape),
            area_seq == Seq::new(geometry@.len(), |q: int| haloed_area(geometry@, hs, q) as i64),
            forall|q: int| 0 <= q < uf.len() ==> #[trigger] uf[q] < geometry@.len(),
            with_halos == haloed_sum(geometry@, hs, uf, k as int),
        decreases unfixed@.len() - k,
    {
        let idx = unfixed[k];
        assert(i64::MIN <= haloed_sum(geometry@, hs, uf, k + 1) <= i64::MAX);
        assert(areas@[idx as int] == haloed_area(geometry@, hs, idx as int) as i64);
        with_halos = with_halos + areas[idx];
        k = k + 1;
    }
    if !instance_area_with_halos_fits(with_halos, design_metrics.std_cell_area, placement_area.area()) {
        return PreflightOutcome::Refused(
            Refusal::Mpl(
                MplError::new(16, "The instance area considering the macros' halos exceeds the floorplan area."),
            ),
        );
    }
    PreflightOutcome::Proceed(
        Preflight {
            placement_area,
            halos,
            macro_dims: dims,
            macro_bboxes: boxes,
            design_metrics,
            unfixed,
            macro_with_halo_area: with_halos,
        },
    )
}

} // verus!
