//! Blockages, fixed terminals, merged regions and the kinds of soft macro the placement
//! problem holds.

use crate::anneal::{ShapeCurve, SoftMacro, shape_curve_from_tilings};
use crate::cluster::{io_cluster, Cluster, ClusterType};
use vstd::prelude::*;

verus! {

/// What kind of thing a soft macro stands for.
#[derive(Debug, Clone, Copy, PartialEq, Eq, Structural)]
pub enum AreaKind {
    /// A blockage, with no cluster behind it.
    Blockage,
    IoCluster,
    FixedMacro,
    StdCellCluster,
    HardMacroCluster,
    MixedCluster,
}

/// How every placement stage classifies a cluster: an IO cluster first, before fixedness and
/// type; then a fixed macro, whose type would otherwise make it a macro cluster; then by type.
pub open spec fn kind_of(c: Cluster) -> AreaKind {
    if io_cluster(c) {
        AreaKind::IoCluster
    } else if c.is_fixed_macro {
        AreaKind::FixedMacro
    } else {
        match c.cluster_type {
            ClusterType::StdCell => AreaKind::StdCellCluster,
            ClusterType::HardMacro => AreaKind::HardMacroCluster,
            ClusterType::Mixed => AreaKind::MixedCluster,
        }
    }
}

/// The kind of a cluster, as every placement stage asks for it.
pub fn area_kind_of(cluster: &Cluster) -> (r: AreaKind)
    ensures
        r == kind_of(*cluster),
{
    if cluster.is_io_cluster() {
        return AreaKind::IoCluster;
    }
    if cluster.is_fixed_macro {
        return AreaKind::FixedMacro;
    }
    match cluster.cluster_type {
        ClusterType::StdCell => AreaKind::StdCellCluster,
        ClusterType::HardMacro => AreaKind::HardMacroCluster,
        ClusterType::Mixed => AreaKind::MixedCluster,
    }
}

/// One entry in the utilization sum.
#[derive(Debug, Clone, Copy, PartialEq, Eq, Structural)]
pub struct AreaContribution {
    pub kind: AreaKind,
    /// The soft macro's own area, used for blockages and fixed macros.
    pub soft_macro_area: i64,
    pub cluster_std_cell_area: i64,
    /// The first tiling's area, for the two kinds that have tilings.
    pub first_tiling_area: i64,
}

/// A box as `(x_min, y_min, x_max, y_max)`.
pub type Bbox = (i32, i32, i32, i32);

/// The larger of two values.
pub open spec fn max_i32(a: i32, b: i32) -> i32 {
    if a >= b { a } else { b }
}

/// The smaller of two values.
pub open spec fn min_i32(a: i32, b: i32) -> i32 {
    if a <= b { a } else { b }
}

/// A candidate clipped to the outline and rebased on its corner, unless the clip is inverted or
/// has no area.
pub open spec fn offset_clip(c: Bbox, outline: Bbox) -> Option<Bbox> {
    let x0 = max_i32(c.0, outline.0);
    let y0 = max_i32(c.1, outline.1);
    let x1 = min_i32(c.2, outline.2);
    let y1 = min_i32(c.3, outline.3);
    if x0 > x1 || y0 > y1 || (x1 - x0) * (y1 - y0) == 0 {
        None
    } else {
        Some(((x0 - outline.0) as i32, (y0 - outline.1) as i32, (x1 - outline.0) as i32, (y1 - outline.1) as i32))
    }
}

/// The clipped, rebased candidates with area, in order.
pub open spec fn offset_clips(cs: Seq<Bbox>, outline: Bbox, n: int) -> Seq<Bbox>
    decreases n,
{
    if n <= 0 {
        Seq::empty()
    } else {
        let prev = offset_clips(cs, outline, n - 1);
        match offset_clip(cs[n - 1], outline) {
            Some(b) => prev.push(b),
            None => prev,
        }
    }
}

/// The outline's corner and every clipped corner are close enough that rebasing fits 32 bits.
pub open spec fn rebase_fits(cs: Seq<Bbox>, outline: Bbox) -> bool {
    forall|k: int|
        0 <= k < cs.len() ==> {
            let c = #[trigger] cs[k];
            &&& i32::MIN <= max_i32(c.0, outline.0) - outline.0 <= i32::MAX
            &&& i32::MIN <= max_i32(c.1, outline.1) - outline.1 <= i32::MAX
            &&& i32::MIN <= min_i32(c.2, outline.2) - outline.0 <= i32::MAX
            &&& i32::MIN <= min_i32(c.3, outline.3) - outline.1 <= i32::MAX
        } && 0 <= outline.2 - outline.0 <= i32::MAX && 0 <= outline.3 - outline.1 <= i32::MAX
}

/// Each candidate clipped to the outline and moved relative to its corner; a clip with no area,
/// or an inverted one, is dropped.
pub fn find_offset_intersections(candidates: &[Bbox], outline: Bbox) -> (r: Vec<Bbox>)
    requires
        rebase_fits(candidates@, outline),
    ensures
        r@ == offset_clips(candidates@, outline, candidates@.len() as int),
{
    let mut out: Vec<Bbox> = Vec::new();
    let mut k: usize = 0;
    while k < candidates.len()
        invariant
            k <= candidates@.len(),
            rebase_fits(candidates@, outline),
            out@ == offset_clips(candidates@, outline, k as int),
        decreases candidates@.len() - k,
    {
        let (cx0, cy0, cx1, cy1) = candidates[k];
        assert(rebase_fits(candidates@, outline));
        let ghost c = candidates@[k as int];
        let x0 = if cx0 >= outline.0 { cx0 } else { outline.0 };
        let y0 = if cy0 >= outline.1 { cy0 } else { outline.1 };
        let x1 = if cx1 <= outline.2 { cx1 } else { outline.2 };
        let y1 = if cy1 <= outline.3 { cy1 } else { outline.3 };
        if !(x0 > x1 || y0 > y1) {
            let w = (x1 as i64) - (x0 as i64);
            let h = (y1 as i64) - (y0 as i64);
            proof {
                assert(w * h >= 0) by (nonlinear_arith) requires w >= 0, h >= 0;
                assert(w * h <= 0x4000_0000_0000_0000) by (nonlinear_arith)
                    requires 0 <= w <= 0x8000_0000, 0 <= h <= 0x8000_0000;
            }
            if w * h != 0 {
                out.push((x0 - outline.0, y0 - outline.1, x1 - outline.0, y1 - outline.1));
            }
        }
        k = k + 1;
    }
    out
}

/// A blockage set that only a polygon union could reduce.
#[derive(Debug, Clone, PartialEq, Eq, Structural)]
pub struct NeedsPolygonUnion;

/// Merge the blockages into disjoint rectangles: none or one needs no union and comes back as
/// it is; two or more are refused, touching or not.
pub fn eliminate_overlaps(blockages: &[Bbox]) -> (r: Result<Vec<Bbox>, NeedsPolygonUnion>)
    ensures
        blockages@.len() <= 1 ==> (r matches Ok(v) && v@ == blockages@),
        blockages@.len() > 1 ==> r is Err,
{
    if blockages.len() == 0 {
        return Ok(Vec::new());
    }
    if blockages.len() == 1 {
        let mut v: Vec<Bbox> = Vec::new();
        v.push(blockages[0]);
        proof {
            assert(v@ =~= blockages@);
        }
        return Ok(v);
    }
    Err(NeedsPolygonUnion)
}

/// The fixed, cluster-less soft macro a blockage becomes.
pub open spec fn blockage_macro(b: Bbox) -> SoftMacro {
    SoftMacro {
        x: b.0,
        y: b.1,
        width: (b.2 - b.0) as i32,
        height: (b.3 - b.1) as i32,
        fixed: true,
        area: ((b.2 - b.0) * (b.3 - b.1)) as i64,
        is_macro_cluster: false,
    }
}

/// Every blockage's extents fit 32 bits.
pub open spec fn extents_fit(bs: Seq<Bbox>) -> bool {
    forall|k: int|
        0 <= k < bs.len() ==> i32::MIN <= #[trigger] bs[k].2 - bs[k].0 <= i32::MAX && i32::MIN
            <= bs[k].3 - bs[k].1 <= i32::MAX
}

/// Each blockage becomes a fixed macro with no cluster, in order.
pub fn soft_macros_for_blockages(blockages: &[Bbox]) -> (r: Vec<SoftMacro>)
    requires
        extents_fit(blockages@),
    ensures
        r@ == blockages@.map_values(|b: Bbox| blockage_macro(b)),
{
    let mut out: Vec<SoftMacro> = Vec::new();
    let mut k: usize = 0;
    while k < blockages.len()
        invariant
            k <= blockages@.len(),
            extents_fit(blockages@),
            out@ == blockages@.take(k as int).map_values(|b: Bbox| blockage_macro(b)),
        decreases blockages@.len() - k,
    {
        let (x0, y0, x1, y1) = blockages[k];
        assert(extents_fit(blockages@));
        let w = x1 - x0;
        let h = y1 - y0;
        let area = crate::arith::wide_mul(w, h);
        out.push(SoftMacro { x: x0, y: y0, width: w, height: h, fixed: true, area, is_macro_cluster: false });
        proof {
            assert(out@ =~= blockages@.take(k + 1).map_values(|b: Bbox| blockage_macro(b)));
        }
        k = k + 1;
    }
    proof {
        assert(blockages@.take(blockages@.len() as int) =~= blockages@);
    }
    out
}

/// A cluster, as the fixed-terminal builder needs to see it.
#[derive(Debug, Clone, Copy, PartialEq, Eq)]
pub struct TerminalCluster {
    pub center: (i32, i32),
    pub origin: (i32, i32),
    pub width: i32,
    pub height: i32,
    pub is_cluster_of_unplaced_io_pins: bool,
}

/// A fixed terminal, relative to the outline's corner: a cluster of unplaced IO pins keeps its
/// origin and extent, any other cluster is a point at its centre; the area is zero either way.
pub open spec fn terminal_of(c: TerminalCluster, origin: (i32, i32)) -> SoftMacro {
    let (loc, w, h) = if c.is_cluster_of_unplaced_io_pins {
        (c.origin, c.width, c.height)
    } else {
        (c.center, 0i32, 0i32)
    };
    SoftMacro {
        x: (loc.0 - origin.0) as i32,
        y: (loc.1 - origin.1) as i32,
        width: w,
        height: h,
        fixed: true,
        area: 0,
        is_macro_cluster: false,
    }
}

/// The terminal's corner relative to the outline fits 32 bits.
pub open spec fn terminal_fits(c: TerminalCluster, origin: (i32, i32)) -> bool {
    let loc = if c.is_cluster_of_unplaced_io_pins { c.origin } else { c.center };
    i32::MIN <= loc.0 - origin.0 <= i32::MAX && i32::MIN <= loc.1 - origin.1 <= i32::MAX
}

/// The fixed terminal a cluster becomes in its parent's placement problem.
pub fn fixed_terminal(cluster: &TerminalCluster, outline_origin: (i32, i32)) -> (m: SoftMacro)
    requires
        terminal_fits(*cluster, outline_origin),
    ensures
        m == terminal_of(*cluster, outline_origin),
{
    let (location, width, height) = if cluster.is_cluster_of_unplaced_io_pins {
        (cluster.origin, cluster.width, cluster.height)
    } else {
        (cluster.center, 0, 0)
    };
    SoftMacro {
        x: location.0 - outline_origin.0,
        y: location.1 - outline_origin.1,
        width,
        height,
        fixed: true,
        area: 0,
        is_macro_cluster: false,
    }
}

/// The chain of parents from `node` ends within `fuel` steps, every index in range.
pub open spec fn climbs(parent_of: Seq<Option<usize>>, node: int, fuel: nat) -> bool
    decreases fuel,
{
    0 <= node < parent_of.len() && match parent_of[node] {
        None => true,
        Some(p) => fuel > 0 && climbs(parent_of, p as int, (fuel - 1) as nat),
    }
}

/// The siblings of `node` under `parent`, the node itself excluded, in order.
pub open spec fn siblings(children_of: Seq<Vec<usize>>, parent: int, node: usize) -> Seq<usize> {
    children_of[parent]@.filter(other_than(node))
}

/// Every cluster but `node`.
pub open spec fn other_than(node: usize) -> spec_fn(usize) -> bool {
    |s: usize| s != node
}

/// The walk from `node` up: its siblings, then, while the parent itself has a parent, the
/// parent's siblings, and so on.
pub open spec fn walk_from(parent_of: Seq<Option<usize>>, children_of: Seq<Vec<usize>>, node: int, fuel: nat) -> Seq<usize>
    decreases fuel,
{
    if fuel == 0 {
        Seq::empty()
    } else {
        match parent_of[node] {
            None => Seq::empty(),
            Some(p) => siblings(children_of, p as int, node as usize) + match parent_of[p as int] {
                Some(_) => walk_from(parent_of, children_of, p as int, (fuel - 1) as nat),
                None => Seq::empty(),
            },
        }
    }
}

/// Every sibling at every level above `start`, excluding the node itself at each level; the
/// climb stops one level below the root, so the root's own children are never gathered, and a
/// cluster without a parent gathers nothing. `parent_of` and `children_of` are indexed by
/// cluster.
pub fn fixed_terminal_walk(start: usize, parent_of: &[Option<usize>], children_of: &[Vec<usize>]) -> (r: Vec<usize>)
    requires
        climbs(parent_of@, start as int, parent_of@.len() as nat),
        children_of@.len() == parent_of@.len(),
    ensures
        r@ == walk_from(parent_of@, children_of@, start as int, parent_of@.len() as nat),
{
    let mut out: Vec<usize> = Vec::new();
    let mut node = start;
    let mut fuel: usize = parent_of.len();
    let mut done = false;
    while !done
        invariant
            children_of@.len() == parent_of@.len(),
            fuel <= parent_of@.len(),
            climbs(parent_of@, node as int, fuel as nat),
            done ==> out@ == walk_from(parent_of@, children_of@, start as int, parent_of@.len() as nat),
            !done ==> out@ + walk_from(parent_of@, children_of@, node as int, fuel as nat) == walk_from(parent_of@, children_of@, start as int, parent_of@.len() as nat),
        decreases fuel + (if done { 0int } else { 1int }),
    {
        match parent_of[node] {
            None => {
                proof {
                    assert(out@ + Seq::<usize>::empty() =~= out@);
                }
                done = true;
            },
            Some(p) => {
                let ghost before = out@;
                proof {
                    assert(fuel > 0);
                    assert(climbs(parent_of@, p as int, (fuel - 1) as nat));
                }
                let kids = &children_of[p];
                assert(kids@ == children_of@[p as int]@);
                let mut k: usize = 0;
                proof {
                    assert(kids@.take(0).filter(other_than(node)) =~= Seq::<usize>::empty());
                }
                while k < kids.len()
                    invariant
                        k <= kids@.len(),
                        out@ == before + kids@.take(k as int).filter(other_than(node)),
                    decreases kids@.len() - k,
                {
                    let s = kids[k];
                    proof {
                        assert(kids@.take(k + 1).drop_last() =~= kids@.take(k as int));
                        reveal_with_fuel(Seq::<_>::filter, 1);
                    }
                    if s != node {
                        out.push(s);
                        proof {
                            assert(kids@.take(k + 1).filter(other_than(node)) =~= kids@.take(k as int).filter(other_than(node)).push(s));
                        }
                    } else {
                        proof {
                            assert(kids@.take(k + 1).filter(other_than(node)) =~= kids@.take(k as int).filter(other_than(node)));
                        }
                    }
                    k = k + 1;
                }
                proof {
                    assert(kids@.take(kids@.len() as int) =~= kids@);
                    assert(out@ == before + siblings(children_of@, p as int, node));
                }
                match parent_of[p] {
                    Some(_) => {
                        proof {
                            assert(before + siblings(children_of@, p as int, node) + walk_from(parent_of@, children_of@, p as int, (fuel - 1) as nat) =~= before + walk_from(parent_of@, children_of@, node as int, fuel as nat));
                        }
                        node = p;
                        fuel = fuel - 1;
                    },
                    None => {
                        proof {
                            assert(walk_from(parent_of@, children_of@, node as int, fuel as nat) == siblings(children_of@, p as int, node) + Seq::<usize>::empty());
                            assert(out@ =~= before + walk_from(parent_of@, children_of@, node as int, fuel as nat));
                        }
                        done = true;
                    },
                }
            },
        }
    }
    out
}

/// The bounding union of a list of regions, or nothing for an empty list.
pub open spec fn bounding_union(regions: Seq<Bbox>, n: int) -> Option<Bbox>
    decreases n,
{
    if n <= 0 {
        None
    } else {
        let r = regions[n - 1];
        match bounding_union(regions, n - 1) {
            None => Some(r),
            Some(m) => Some((min_i32(m.0, r.0), min_i32(m.1, r.1), max_i32(m.2, r.2), max_i32(m.3, r.3))),
        }
    }
}

/// The union of the regions clipped to the outline and rebased on its corner; nothing when
/// there are no regions, when the clip is inverted, or when it has no area.
pub open spec fn merged_region_of(regions: Seq<Bbox>, outline: Bbox) -> Option<Bbox> {
    match bounding_union(regions, regions.len() as int) {
        None => None,
        Some(m) => {
            let c = (max_i32(m.0, outline.0), max_i32(m.1, outline.1), min_i32(m.2, outline.2), min_i32(m.3, outline.3));
            if c.0 > c.2 || c.1 > c.3 || (c.2 - c.0) * (c.3 - c.1) <= 0 {
                None
            } else {
                Some(((c.0 - outline.0) as i32, (c.1 - outline.1) as i32, (c.2 - outline.0) as i32, (c.3 - outline.1) as i32))
            }
        },
    }
}

/// The outline's extents fit 32 bits, so anything clipped to it rebases on its corner; an
/// inverted outline clips everything away and needs nothing.
pub open spec fn outline_rebases(outline: Bbox) -> bool {
    &&& outline.2 - outline.0 <= i32::MAX
    &&& outline.3 - outline.1 <= i32::MAX
}

/// The single region a cluster inherits from its macros: the union of theirs, clipped to the
/// outline and relative to its corner.
pub fn merged_region(regions: &[Bbox], outline: Bbox) -> (r: Option<Bbox>)
    requires
        outline_rebases(outline),
    ensures
        r == merged_region_of(regions@, outline),
{
    let mut merged: Option<Bbox> = None;
    let mut k: usize = 0;
    while k < regions.len()
        invariant
            k <= regions@.len(),
            merged == bounding_union(regions@, k as int),
        decreases regions@.len() - k,
    {
        let r = regions[k];
        merged = match merged {
            None => Some(r),
            Some(m) => Some((
                if m.0 <= r.0 { m.0 } else { r.0 },
                if m.1 <= r.1 { m.1 } else { r.1 },
                if m.2 >= r.2 { m.2 } else { r.2 },
                if m.3 >= r.3 { m.3 } else { r.3 },
            )),
        };
        k = k + 1;
    }
    let m = match merged {
        None => {
            return None;
        },
        Some(m) => m,
    };
    let c0 = if m.0 >= outline.0 { m.0 } else { outline.0 };
    let c1 = if m.1 >= outline.1 { m.1 } else { outline.1 };
    let c2 = if m.2 <= outline.2 { m.2 } else { outline.2 };
    let c3 = if m.3 <= outline.3 { m.3 } else { outline.3 };
    if c0 > c2 || c1 > c3 {
        return None;
    }
    let w = c2 as i64 - c0 as i64;
    let h = c3 as i64 - c1 as i64;
    proof {
        assert((w * h <= 0) == (w == 0 || h == 0)) by (nonlinear_arith) requires w >= 0, h >= 0;
    }
    if w == 0 || h == 0 {
        return None;
    }
    Some((c0 - outline.0, c1 - outline.1, c2 - outline.0, c3 - outline.1))
}

/// A movable macro cluster with tilings takes them as its shapes; anything else keeps none.
pub fn set_macro_cluster_shapes(is_macro_cluster: bool, is_fixed: bool, tilings: &Vec<(i32, i32)>) -> (r: Option<(ShapeCurve, i32, i32, i64)>)
    ensures
        (!is_macro_cluster || is_fixed || tilings@.len() == 0) <==> r is None,
        r matches Some(s) ==> {
            &&& s.0.width_intervals@.len() == tilings@.len()
            &&& s.0.height_intervals@.len() == tilings@.len()
            &&& forall|i: int| 0 <= i < tilings@.len() ==> #[trigger] s.0.width_intervals@[i]
                == (crate::anneal::Interval { min: tilings@[i].0, max: tilings@[i].0 })
            &&& forall|i: int| 0 <= i < tilings@.len() ==> #[trigger] s.0.height_intervals@[i]
                == (crate::anneal::Interval { min: tilings@[i].1, max: tilings@[i].1 })
            &&& s.1 == tilings@[0].0
            &&& s.2 == tilings@[0].1
            &&& s.3 == tilings@[0].0 * tilings@[0].1
        },
{
    if !is_macro_cluster || is_fixed || tilings.len() == 0 {
        return None;
    }
    Some(shape_curve_from_tilings(tilings))
}

/// How many interconnected arrays and standard-cell clusters the first `n` entries hold, or
/// `None` once the test has failed: a mixed cluster fails it, a macro cluster that is not an
/// interconnected array fails it, and so does a second array or a second cell cluster.
pub open spec fn array_count(entries: Seq<(Option<ClusterType>, bool)>, n: int) -> Option<(int, int)>
    decreases n,
{
    if n <= 0 {
        Some((0, 0))
    } else {
        match array_count(entries, n - 1) {
            None => None,
            Some((a, s)) => {
                let (t, is_array) = entries[n - 1];
                match t {
                    Some(ClusterType::Mixed) => None,
                    None => Some((a, s)),
                    Some(ClusterType::HardMacro) => if !is_array || a + 1 > 1 {
                        None
                    } else {
                        Some((a + 1, s))
                    },
                    Some(ClusterType::StdCell) => if s + 1 > 1 {
                        None
                    } else {
                        Some((a, s + 1))
                    },
                }
            },
        }
    }
}

/// Exactly one interconnected macro array and exactly one standard-cell cluster, and nothing
/// else but cluster-less macros. Each entry is a macro's cluster type, if it has a cluster, and
/// whether that cluster is an array of interconnected macros.
pub fn single_array_single_std_cell_cluster(entries: &[(Option<ClusterType>, bool)]) -> (r: bool)
    ensures
        r == (array_count(entries@, entries@.len() as int) == Some((1int, 1int))),
{
    let mut arrays: u8 = 0;
    let mut std_clusters: u8 = 0;
    let mut k: usize = 0;
    while k < entries.len()
        invariant
            k <= entries@.len(),
            array_count(entries@, k as int) == Some((arrays as int, std_clusters as int)),
            arrays <= 1,
            std_clusters <= 1,
        decreases entries@.len() - k,
    {
        let (cluster_type, is_array) = entries[k];
        match cluster_type {
            Some(ClusterType::Mixed) => {
                proof {
                    lemma_failed_stays_failed(entries@, k + 1, entries@.len() as int);
                }
                return false;
            },
            None => {},
            Some(ClusterType::HardMacro) => {
                if !is_array || arrays >= 1 {
                    proof {
                        lemma_failed_stays_failed(entries@, k + 1, entries@.len() as int);
                    }
                    return false;
                }
                arrays = arrays + 1;
            },
            Some(ClusterType::StdCell) => {
                if std_clusters >= 1 {
                    proof {
                        lemma_failed_stays_failed(entries@, k + 1, entries@.len() as int);
                    }
                    return false;
                }
                std_clusters = std_clusters + 1;
            },
        }
        k = k + 1;
    }
    arrays != 0 && std_clusters != 0
}

proof fn lemma_failed_stays_failed(entries: Seq<(Option<ClusterType>, bool)>, k: int, n: int)
    requires
        0 <= k <= n,
        array_count(entries, k) is None,
    ensures
        array_count(entries, n) is None,
    decreases n - k,
{
    if k < n {
        lemma_failed_stays_failed(entries, k + 1, n);
    }
}

} // verus!
