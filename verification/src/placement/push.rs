//! Pushing macro clusters onto the core's boundaries, once placement is done.

use crate::cluster::ClusterType;
use crate::halo::Boundary;
use crate::placement::blockages::Bbox;
use crate::ioclusters::edge_letter;
use crate::text::{dec_int, push_signed};
use crate::trace::{point_text, push_point};
use vstd::prelude::*;

verus! {

/// No mixed cluster among the root's children, no standard-cell cluster whose soft macro has
/// area, and at most one macro cluster, the test failing at the first child that breaks it.
pub open spec fn single_array_walk(children: Seq<(ClusterType, i64)>, n: int) -> Option<int>
    decreases n,
{
    if n <= 0 {
        Some(0)
    } else {
        match single_array_walk(children, n - 1) {
            None => None,
            Some(count) => {
                let (t, area) = children[n - 1];
                let c = if t == ClusterType::HardMacro { count + 1 } else { count };
                if t == ClusterType::Mixed || (t == ClusterType::StdCell && area != 0) || c > 1 {
                    None
                } else {
                    Some(c)
                }
            },
        }
    }
}

proof fn lemma_walk_fails_on(children: Seq<(ClusterType, i64)>, k: int, n: int)
    requires
        0 <= k <= n,
        single_array_walk(children, k) is None,
    ensures
        single_array_walk(children, n) is None,
    decreases n - k,
{
    if k < n {
        lemma_walk_fails_on(children, k, n - 1);
    }
}

/// The arrangement a lone macro array leaves: every child of the root passes, judged by its
/// soft macro's area; an IO cluster is a mixed cluster and fails it; a root with no children
/// passes vacuously.
pub fn has_single_centralized_macro_array(children: &[(ClusterType, i64)]) -> (r: bool)
    ensures
        r == (single_array_walk(children@, children@.len() as int) is Some),
{
    let mut count: u8 = 0;
    let mut k: usize = 0;
    while k < children.len()
        invariant
            k <= children@.len(),
            single_array_walk(children@, k as int) == Some(count as int),
            count <= 1,
        decreases children@.len() - k,
    {
        let (cluster_type, soft_macro_area) = children[k];
        let mut failed = false;
        match cluster_type {
            ClusterType::Mixed => {
                failed = true;
            },
            ClusterType::HardMacro => {
                if count >= 1 {
                    failed = true;
                } else {
                    count = count + 1;
                }
            },
            ClusterType::StdCell => {
                if soft_macro_area != 0 {
                    failed = true;
                }
            },
        }
        if failed {
            proof {
                lemma_walk_fails_on(children@, k + 1, children@.len() as int);
            }
            return false;
        }
        k = k + 1;
    }
    true
}

/// A soft macro's area as read: one square unit or less reads as nothing.
pub fn soft_macro_area(area: i64) -> (r: i64)
    ensures
        r == if area > 1 { area } else { 0 },
{
    if area > 1 { area } else { 0 }
}

/// Why the boundary push declined to run.
#[derive(Debug, Clone, Copy, PartialEq, Eq, Structural)]
pub enum NoPush {
    /// The root itself is a macro cluster: the design is nothing but macros.
    DesignIsAllMacros,
    /// A lone macro array, already where it should be.
    SingleCentralizedMacroArray,
}

/// The push's two opening guards.
pub fn push_decision(root_type: ClusterType, root_children: &[(ClusterType, i64)]) -> (r: Result<(), NoPush>)
    ensures
        r == if root_type == ClusterType::HardMacro {
            Err::<(), NoPush>(NoPush::DesignIsAllMacros)
        } else if single_array_walk(root_children@, root_children@.len() as int) is Some {
            Err::<(), NoPush>(NoPush::SingleCentralizedMacroArray)
        } else {
            Ok::<(), NoPush>(())
        },
{
    let all_macros = match root_type {
        ClusterType::HardMacro => true,
        _ => false,
    };
    if all_macros {
        return Err(NoPush::DesignIsAllMacros);
    }
    if has_single_centralized_macro_array(root_children) {
        return Err(NoPush::SingleCentralizedMacroArray);
    }
    Ok(())
}

/// Every coordinate small enough that differences and shifts stay in 32 bits.
pub open spec fn small_box(b: Bbox) -> bool {
    &&& -0x0800_0000 <= b.0 <= 0x0800_0000
    &&& -0x0800_0000 <= b.1 <= 0x0800_0000
    &&& -0x0800_0000 <= b.2 <= 0x0800_0000
    &&& -0x0800_0000 <= b.3 <= 0x0800_0000
}

/// The absolute value.
pub open spec fn abs_of(v: int) -> int {
    if v < 0 { -v } else { v }
}

/// The close boundaries: the nearer of left and right (a tie goes right) when nearer than a
/// macro's width, and the nearer of bottom and top (a tie goes top) when nearer than its
/// height, listed in the order `B, L, T, R`.
pub open spec fn close_boundaries(b: Bbox, core: Bbox, w: i32, h: i32) -> Seq<(Boundary, i32)> {
    let left = abs_of(b.0 - core.0);
    let right = abs_of(b.2 - core.2);
    let (hb, hd) = if left < right { (Boundary::L, left) } else { (Boundary::R, right) };
    let top = abs_of(b.3 - core.3);
    let bottom = abs_of(b.1 - core.1);
    let (vb, vd) = if bottom < top { (Boundary::B, bottom) } else { (Boundary::T, top) };
    let hor: Seq<(Boundary, i32)> = if hd < w { seq![(hb, hd as i32)] } else { Seq::empty() };
    let ver: Seq<(Boundary, i32)> = if vd < h { seq![(vb, vd as i32)] } else { Seq::empty() };
    if vb == Boundary::B { ver + hor } else { hor + ver }
}

/// How far the box lies from one side of the core.
pub open spec fn side_distance(b: Bbox, core: Bbox, side: Boundary) -> int {
    match side {
        Boundary::L => abs_of(b.0 - core.0),
        Boundary::R => abs_of(b.2 - core.2),
        Boundary::B => abs_of(b.1 - core.1),
        Boundary::T => abs_of(b.3 - core.3),
    }
}

/// The side is the bottom or the top.
pub open spec fn is_vertical_side(side: Boundary) -> bool {
    side == Boundary::B || side == Boundary::T
}

/// The side across the core.
pub open spec fn opposite_side(side: Boundary) -> Boundary {
    match side {
        Boundary::L => Boundary::R,
        Boundary::R => Boundary::L,
        Boundary::B => Boundary::T,
        Boundary::T => Boundary::B,
    }
}

/// The close boundaries are the nearer side of each axis, when nearer than the macro: every
/// entry carries its side's true distance, which is below the macro's extent across that
/// side and no more than the distance to the opposite side (strictly less for the bottom and
/// the left, which lose ties); at most one entry per axis; an axis whose nearer side is
/// closer than the macro's extent has its entry; and a bottom entry comes first.
pub proof fn lemma_close_boundaries_are_the_nearer_sides(b: Bbox, core: Bbox, w: i32, h: i32)
    requires
        small_box(b),
        small_box(core),
    ensures
        ({
            let r = close_boundaries(b, core, w, h);
            let db = side_distance(b, core, Boundary::B);
            let dt = side_distance(b, core, Boundary::T);
            let dl = side_distance(b, core, Boundary::L);
            let dr = side_distance(b, core, Boundary::R);
            &&& r.len() <= 2
            &&& forall|k: int|
                0 <= k < r.len() ==> {
                    let (side, d) = #[trigger] r[k];
                    &&& d == side_distance(b, core, side)
                    &&& d < if is_vertical_side(side) { h as int } else { w as int }
                    &&& (side == Boundary::B || side == Boundary::L) ==> d < side_distance(b, core, opposite_side(side))
                    &&& (side == Boundary::T || side == Boundary::R) ==> d <= side_distance(b, core, opposite_side(side))
                }
            &&& forall|k: int, j: int|
                0 <= k < r.len() && 0 <= j < r.len() && k != j ==> is_vertical_side(#[trigger] r[k].0) != is_vertical_side(
                    #[trigger] r[j].0,
                )
            &&& (db < h || dt < h) ==> exists|k: int| 0 <= k < r.len() && is_vertical_side(#[trigger] r[k].0)
            &&& (dl < w || dr < w) ==> exists|k: int| 0 <= k < r.len() && !is_vertical_side(#[trigger] r[k].0)
            &&& forall|k: int| 0 < k < r.len() ==> #[trigger] r[k].0 != Boundary::B
        }),
{
    let left = abs_of(b.0 - core.0);
    let right = abs_of(b.2 - core.2);
    let (hb, hd) = if left < right { (Boundary::L, left) } else { (Boundary::R, right) };
    let top = abs_of(b.3 - core.3);
    let bottom = abs_of(b.1 - core.1);
    let (vb, vd) = if bottom < top { (Boundary::B, bottom) } else { (Boundary::T, top) };
    let hor: Seq<(Boundary, i32)> = if hd < w { seq![(hb, hd as i32)] } else { Seq::empty() };
    let ver: Seq<(Boundary, i32)> = if vd < h { seq![(vb, vd as i32)] } else { Seq::empty() };
    let r = close_boundaries(b, core, w, h);
    assert(r == if vb == Boundary::B { ver + hor } else { hor + ver });
    if vd < h {
        if vb == Boundary::B {
            assert(r[0] == (vb, vd as i32));
        } else {
            assert(r[hor.len() as int] == (vb, vd as i32));
        }
    }
    if hd < w {
        if vb == Boundary::B {
            assert(r[ver.len() as int] == (hb, hd as i32));
        } else {
            assert(r[0] == (hb, hd as i32));
        }
    }
}

/// The boundaries a cluster is close to, with their distances.
pub fn distance_to_close_boundaries(cluster_box: Bbox, core: Bbox, macro_width: i32, macro_height: i32) -> (r: Vec<(Boundary, i32)>)
    requires
        small_box(cluster_box),
        small_box(core),
    ensures
        r@ == close_boundaries(cluster_box, core, macro_width, macro_height),
        forall|k: int|
            0 <= k < r@.len() ==> (#[trigger] r@[k]).1 == side_distance(cluster_box, core, r@[k].0) && r@[k].1
                <= side_distance(cluster_box, core, opposite_side(r@[k].0)),
        (side_distance(cluster_box, core, Boundary::B) < macro_height || side_distance(cluster_box, core, Boundary::T)
            < macro_height) ==> exists|k: int| 0 <= k < r@.len() && is_vertical_side(#[trigger] r@[k].0),
{
    proof {
        lemma_close_boundaries_are_the_nearer_sides(cluster_box, core, macro_width, macro_height);
    }
    let dl = cluster_box.0 - core.0;
    let distance_to_left = if dl < 0 { -dl } else { dl };
    let dr = cluster_box.2 - core.2;
    let distance_to_right = if dr < 0 { -dr } else { dr };
    let (hor_boundary, smaller_hor) = if distance_to_left < distance_to_right {
        (Boundary::L, distance_to_left)
    } else {
        (Boundary::R, distance_to_right)
    };
    let dt = cluster_box.3 - core.3;
    let distance_to_top = if dt < 0 { -dt } else { dt };
    let db = cluster_box.1 - core.1;
    let distance_to_bottom = if db < 0 { -db } else { db };
    let (ver_boundary, smaller_ver) = if distance_to_bottom < distance_to_top {
        (Boundary::B, distance_to_bottom)
    } else {
        (Boundary::T, distance_to_top)
    };
    let mut found: Vec<(Boundary, i32)> = Vec::new();
    let bottom_first = match ver_boundary {
        Boundary::B => true,
        _ => false,
    };
    if bottom_first && smaller_ver < macro_height {
        found.push((ver_boundary, smaller_ver));
    }
    if smaller_hor < macro_width {
        found.push((hor_boundary, smaller_hor));
    }
    if !bottom_first && smaller_ver < macro_height {
        found.push((ver_boundary, smaller_ver));
    }
    proof {
        let hor: Seq<(Boundary, i32)> = if smaller_hor < macro_width { seq![(hor_boundary, smaller_hor)] } else { Seq::empty() };
        let ver: Seq<(Boundary, i32)> = if smaller_ver < macro_height { seq![(ver_boundary, smaller_ver)] } else { Seq::empty() };
        if bottom_first {
            assert(found@ =~= ver + hor);
        } else {
            assert(found@ =~= hor + ver);
        }
    }
    found
}

/// A box shifted towards a boundary: `L` and `B` move negative, `R` and `T` positive.
pub open spec fn moved_box(b: Bbox, boundary: Boundary, d: int) -> Bbox {
    let (dx, dy) = match boundary {
        Boundary::L => (-d, 0int),
        Boundary::R => (d, 0int),
        Boundary::T => (0int, d),
        Boundary::B => (0int, -d),
    };
    ((b.0 + dx) as i32, (b.1 + dy) as i32, (b.2 + dx) as i32, (b.3 + dy) as i32)
}

/// The shift stays within 32 bits.
pub open spec fn move_fits(b: Bbox, d: int) -> bool {
    &&& i32::MIN <= b.0 - d && b.0 + d <= i32::MAX
    &&& i32::MIN <= b.1 - d && b.1 + d <= i32::MAX
    &&& i32::MIN <= b.2 - d && b.2 + d <= i32::MAX
    &&& i32::MIN <= b.3 - d && b.3 + d <= i32::MAX
}

/// Shift a box towards one boundary.
pub fn move_towards_boundary(box_: Bbox, boundary: Boundary, distance: i32) -> (r: Bbox)
    requires
        0 <= distance,
        move_fits(box_, distance as int),
    ensures
        r == moved_box(box_, boundary, distance as int),
{
    let (dx, dy): (i32, i32) = match boundary {
        Boundary::L => (-distance, 0),
        Boundary::R => (distance, 0),
        Boundary::T => (0, distance),
        Boundary::B => (0, -distance),
    };
    (box_.0 + dx, box_.1 + dy, box_.2 + dx, box_.3 + dy)
}

/// Whether two boxes overlap; boxes that merely touch do not.
pub open spec fn overlap(a: Bbox, b: Bbox) -> bool {
    b.2 > a.0 && b.0 < a.2 && b.3 > a.1 && b.1 < a.3
}

/// Two boxes overlap, strictly on every edge.
pub fn boxes_overlap(a: Bbox, b: Bbox) -> (r: bool)
    ensures
        r == overlap(a, b),
{
    b.2 > a.0 && b.0 < a.2 && b.3 > a.1 && b.1 < a.3
}

/// One macro moved towards a boundary along one axis.
pub open spec fn moved_point(p: (i32, i32), boundary: Boundary, d: int) -> (i32, i32) {
    match boundary {
        Boundary::L => ((p.0 - d) as i32, p.1),
        Boundary::R => ((p.0 + d) as i32, p.1),
        Boundary::T => (p.0, (p.1 + d) as i32),
        Boundary::B => (p.0, (p.1 - d) as i32),
    }
}

/// One macro, one axis: only x or only y moves.
pub fn move_hard_macro(location: (i32, i32), boundary: Boundary, distance: i32) -> (r: (i32, i32))
    requires
        0 <= distance,
        i32::MIN <= location.0 - distance,
        location.0 + distance <= i32::MAX,
        i32::MIN <= location.1 - distance,
        location.1 + distance <= i32::MAX,
    ensures
        r == moved_point(location, boundary, distance as int),
{
    match boundary {
        Boundary::L => (location.0 - distance, location.1),
        Boundary::R => (location.0 + distance, location.1),
        Boundary::T => (location.0, location.1 + distance),
        Boundary::B => (location.0, location.1 - distance),
    }
}

/// What stopped a push.
#[derive(Debug, Clone, Copy, PartialEq, Eq, Structural)]
pub enum PushObstacle {
    /// The macro's index in the pusher's flat list.
    HardMacro(usize),
    IoBlockage(usize),
}

/// The first of the first `n` hard macros, of another cluster, that the box overlaps.
pub open spec fn first_macro_hit(b: Bbox, cluster_id: i32, hm: Seq<(i32, Bbox)>, n: int) -> Option<int>
    decreases n,
{
    if n <= 0 {
        None
    } else {
        match first_macro_hit(b, cluster_id, hm, n - 1) {
            Some(i) => Some(i),
            None => if hm[n - 1].0 != cluster_id && overlap(b, hm[n - 1].1) { Some(n - 1) } else { None },
        }
    }
}

/// The first of the first `n` IO blockages that the box overlaps.
pub open spec fn first_io_hit(b: Bbox, io: Seq<Bbox>, n: int) -> Option<int>
    decreases n,
{
    if n <= 0 {
        None
    } else {
        match first_io_hit(b, io, n - 1) {
            Some(i) => Some(i),
            None => if overlap(b, io[n - 1]) { Some(n - 1) } else { None },
        }
    }
}

/// What stops a push of the box: the first other cluster's hard macro it overlaps, else the
/// first IO blockage; hard macros are tested first.
pub open spec fn obstacle_of(b: Bbox, cluster_id: i32, hm: Seq<(i32, Bbox)>, io: Seq<Bbox>) -> Option<PushObstacle> {
    match first_macro_hit(b, cluster_id, hm, hm.len() as int) {
        Some(i) => Some(PushObstacle::HardMacro(i as usize)),
        None => match first_io_hit(b, io, io.len() as int) {
            Some(i) => Some(PushObstacle::IoBlockage(i as usize)),
            None => None,
        },
    }
}

proof fn lemma_first_macro_hit_stays(b: Bbox, cluster_id: i32, hm: Seq<(i32, Bbox)>, k: int, n: int)
    requires
        0 <= k <= n,
        first_macro_hit(b, cluster_id, hm, k) is Some,
    ensures
        first_macro_hit(b, cluster_id, hm, n) == first_macro_hit(b, cluster_id, hm, k),
    decreases n - k,
{
    if k < n {
        lemma_first_macro_hit_stays(b, cluster_id, hm, k, n - 1);
    }
}

proof fn lemma_first_io_hit_stays(b: Bbox, io: Seq<Bbox>, k: int, n: int)
    requires
        0 <= k <= n,
        first_io_hit(b, io, k) is Some,
    ensures
        first_io_hit(b, io, n) == first_io_hit(b, io, k),
    decreases n - k,
{
    if k < n {
        lemma_first_io_hit_stays(b, io, k, n - 1);
    }
}

/// What would stop a push of this box.
pub fn push_obstacle(cluster_box: Bbox, cluster_id: i32, hard_macros: &[(i32, Bbox)], io_blockages: &[Bbox]) -> (r: Option<PushObstacle>)
    ensures
        r == obstacle_of(cluster_box, cluster_id, hard_macros@, io_blockages@),
{
    let mut i: usize = 0;
    while i < hard_macros.len()
        invariant
            i <= hard_macros@.len(),
            first_macro_hit(cluster_box, cluster_id, hard_macros@, i as int) is None,
        decreases hard_macros@.len() - i,
    {
        let (owner, bbox) = hard_macros[i];
        if owner != cluster_id && boxes_overlap(cluster_box, bbox) {
            proof {
                lemma_first_macro_hit_stays(cluster_box, cluster_id, hard_macros@, i + 1, hard_macros@.len() as int);
            }
            return Some(PushObstacle::HardMacro(i));
        }
        i = i + 1;
    }
    let mut k: usize = 0;
    while k < io_blockages.len()
        invariant
            k <= io_blockages@.len(),
            first_macro_hit(cluster_box, cluster_id, hard_macros@, hard_macros@.len() as int) is None,
            first_io_hit(cluster_box, io_blockages@, k as int) is None,
        decreases io_blockages@.len() - k,
    {
        if boxes_overlap(cluster_box, io_blockages[k]) {
            proof {
                lemma_first_io_hit_stays(cluster_box, io_blockages@, k + 1, io_blockages@.len() as int);
            }
            return Some(PushObstacle::IoBlockage(k));
        }
        k = k + 1;
    }
    None
}

/// One attempted push: the boundary, the distance, whether it stood, and what blocked it.
#[derive(Debug, Clone, Copy, PartialEq, Eq, Structural)]
pub struct PushAttempt {
    pub boundary: Boundary,
    pub distance: i32,
    /// False when the move was reverted.
    pub committed: bool,
    pub obstacle: Option<PushObstacle>,
}

/// The sum of the first `n` distances.
pub open spec fn total_distance(bs: Seq<(Boundary, i32)>, n: int) -> int
    decreases n,
{
    if n <= 0 { 0 } else { total_distance(bs, n - 1) + bs[n - 1].1 }
}

/// The box and the attempts after the first `n` boundaries: each is tried against the box the
/// previous ones left; a zero distance is skipped; a move that hits an obstacle is reverted.
pub open spec fn push_walk(b: Bbox, bs: Seq<(Boundary, i32)>, cluster_id: i32, hm: Seq<(i32, Bbox)>, io: Seq<Bbox>, n: int) -> (Bbox, Seq<PushAttempt>)
    decreases n,
{
    if n <= 0 {
        (b, Seq::empty())
    } else {
        let (cur, attempts) = push_walk(b, bs, cluster_id, hm, io, n - 1);
        let (boundary, d) = bs[n - 1];
        if d == 0 {
            (cur, attempts)
        } else {
            let moved = moved_box(cur, boundary, d as int);
            match obstacle_of(moved, cluster_id, hm, io) {
                Some(o) => (cur, attempts.push(PushAttempt { boundary, distance: d, committed: false, obstacle: Some(o) })),
                None => (moved, attempts.push(PushAttempt { boundary, distance: d, committed: true, obstacle: None })),
            }
        }
    }
}

/// Every distance is non-negative and together they keep the box within 32 bits.
pub open spec fn push_fits(b: Bbox, bs: Seq<(Boundary, i32)>) -> bool {
    &&& small_box(b)
    &&& forall|k: int| 0 <= k < bs.len() ==> 0 <= #[trigger] bs[k].1
    &&& total_distance(bs, bs.len() as int) <= 0x1000_0000
}

/// The box stays within the distance walked so far of where it started.
pub open spec fn near(a: Bbox, b: Bbox, d: int) -> bool {
    abs_of(a.0 - b.0) <= d && abs_of(a.1 - b.1) <= d && abs_of(a.2 - b.2) <= d && abs_of(a.3 - b.3) <= d
}

proof fn lemma_total_monotone(bs: Seq<(Boundary, i32)>, k: int, n: int)
    requires
        0 <= k <= n <= bs.len(),
        forall|j: int| 0 <= j < bs.len() ==> 0 <= #[trigger] bs[j].1,
    ensures
        0 <= total_distance(bs, k) <= total_distance(bs, n),
    decreases n - k,
{
    if k < n {
        lemma_total_monotone(bs, k, n - 1);
        assert(0 <= bs[n - 1].1);
    } else {
        lemma_total_nonneg(bs, k);
    }
}

proof fn lemma_total_nonneg(bs: Seq<(Boundary, i32)>, n: int)
    requires
        0 <= n <= bs.len(),
        forall|j: int| 0 <= j < bs.len() ==> 0 <= #[trigger] bs[j].1,
    ensures
        0 <= total_distance(bs, n),
    decreases n,
{
    if n > 0 {
        lemma_total_nonneg(bs, n - 1);
        assert(0 <= bs[n - 1].1);
    }
}

/// Push a cluster's box towards each boundary in turn; a committed push stands, a reverted one
/// leaves the box as it was. The obstacle test is that of `push_obstacle` for this cluster.
/// Returns the final box and the attempts.
pub fn push_macro_cluster(
    cluster_box: Bbox,
    boundaries: &[(Boundary, i32)],
    cluster_id: i32,
    hard_macros: &[(i32, Bbox)],
    io_blockages: &[Bbox],
) -> (r: (Bbox, Vec<PushAttempt>))
    requires
        push_fits(cluster_box, boundaries@),
    ensures
        (r.0, r.1@) == push_walk(cluster_box, boundaries@, cluster_id, hard_macros@, io_blockages@, boundaries@.len() as int),
{
    let mut cur = cluster_box;
    let mut attempts: Vec<PushAttempt> = Vec::new();
    let mut k: usize = 0;
    while k < boundaries.len()
        invariant
            k <= boundaries@.len(),
            push_fits(cluster_box, boundaries@),
            (cur, attempts@) == push_walk(cluster_box, boundaries@, cluster_id, hard_macros@, io_blockages@, k as int),
            near(cur, cluster_box, total_distance(boundaries@, k as int)),
        decreases boundaries@.len() - k,
    {
        let (boundary, distance) = boundaries[k];
        proof {
            lemma_total_monotone(boundaries@, k + 1, boundaries@.len() as int);
            assert(0 <= distance);
        }
        if distance != 0 {
            let moved = move_towards_boundary(cur, boundary, distance);
            match push_obstacle(moved, cluster_id, hard_macros, io_blockages) {
                Some(obstacle) => {
                    attempts.push(PushAttempt { boundary, distance, committed: false, obstacle: Some(obstacle) });
                },
                None => {
                    cur = moved;
                    attempts.push(PushAttempt { boundary, distance, committed: true, obstacle: None });
                },
            }
        }
        k = k + 1;
    }
    (cur, attempts)
}

/// One macro cluster, as the pusher sees it: its soft macro's box, and its hard macros as
/// indices into the flat macro list, the first setting the push threshold.
#[derive(Debug, PartialEq, Eq)]
pub struct PushCluster {
    pub id: i32,
    pub name: String,
    /// A fixed cluster obstructs other pushes but is never pushed.
    pub is_fixed_macro: bool,
    pub bbox: Bbox,
    pub macros: Vec<usize>,
}

/// One hard macro, as the pusher sees it: its cluster, and its haloed lower-left corner.
#[derive(Debug, PartialEq, Eq)]
pub struct PushMacro {
    pub name: String,
    pub cluster_id: i32,
    pub location: (i32, i32),
    pub width: i32,
    pub height: i32,
}

/// A macro's haloed box.
pub open spec fn macro_box(m: PushMacro) -> Bbox {
    (m.location.0, m.location.1, (m.location.0 + m.width) as i32, (m.location.1 + m.height) as i32)
}

/// The flat obstacle list: each macro's cluster and box.
pub open spec fn flat_of(ms: Seq<PushMacro>) -> Seq<(i32, Bbox)> {
    ms.map_values(|m: PushMacro| (m.cluster_id, macro_box(m)))
}

/// The trace's prefix on this channel.
pub open spec fn push_prefix() -> Seq<char> {
    "[DEBUG MPL-boundary_push] "@
}

/// The distance rows, one `<side> <distance>` line per close boundary.
pub open spec fn distance_lines(ds: Seq<(Boundary, i32)>) -> Seq<Seq<char>> {
    ds.map_values(|e: (Boundary, i32)| edge_letter(e.0) + " "@ + dec_int(e.1 as int))
}

/// Whether `i` is among the first `n` listed indices.
pub open spec fn listed(idxs: Seq<usize>, n: int, i: int) -> bool {
    exists|j: int| 0 <= j < n && #[trigger] idxs[j] as int == i
}

/// The macros after moving each listed one towards a boundary.
pub open spec fn moved_macros(ms: Seq<PushMacro>, idxs: Seq<usize>, boundary: Boundary, d: int) -> Seq<PushMacro> {
    Seq::new(ms.len(), |i: int|
        if listed(idxs, idxs.len() as int, i) {
            PushMacro { location: moved_point(ms[i].location, boundary, d), ..ms[i] }
        } else {
            ms[i]
        })
}

/// The lines and macros after the first `n` attempts of a cluster: every attempt prints that
/// the cluster moved; a reverted one names its obstacle; a committed one moves the cluster's
/// macros.
pub open spec fn attempts_walk(ms: Seq<PushMacro>, c: PushCluster, attempts: Seq<PushAttempt>, io: Seq<Bbox>, n: int) -> (Seq<PushMacro>, Seq<Seq<char>>)
    decreases n,
{
    if n <= 0 {
        (ms, Seq::empty())
    } else {
        let (cur, lines) = attempts_walk(ms, c, attempts, io, n - 1);
        let a = attempts[n - 1];
        let moved_line = push_prefix() + "Moved "@ + c.name@ + " in the direction of "@ + edge_letter(a.boundary) + "."@;
        match a.obstacle {
            Some(PushObstacle::HardMacro(i)) => (cur, lines.push(moved_line).push(push_prefix() + "\tFound overlap with HardMacro "@ + cur[i as int].name@ + ". Push will be reverted."@)),
            Some(PushObstacle::IoBlockage(i)) => (cur, lines.push(moved_line).push(push_prefix() + "\tFound overlap with IO blockage "@ + point_text(io[i as int].0 as int, io[i as int].1 as int) + " "@ + point_text(io[i as int].2 as int, io[i as int].3 as int) + ". Push will be reverted."@)),
            None => (moved_macros(cur, c.macros@, a.boundary, a.distance as int), lines.push(moved_line)),
        }
    }
}

/// The distances one cluster is pushed by, against the current macros.
pub open spec fn cluster_distances(ms: Seq<PushMacro>, c: PushCluster, core: Bbox) -> Seq<(Boundary, i32)> {
    let first = ms[c.macros@[0] as int];
    close_boundaries(c.bbox, core, first.width, first.height)
}

/// One cluster pushed: its header and distance lines, then its attempts.
pub open spec fn cluster_push(ms: Seq<PushMacro>, c: PushCluster, core: Bbox, io: Seq<Bbox>) -> (Seq<PushMacro>, Seq<Seq<char>>) {
    let ds = cluster_distances(ms, c, core);
    let attempts = push_walk(c.bbox, ds, c.id, flat_of(ms), io, ds.len() as int).1;
    let (after, lines) = attempts_walk(ms, c, attempts, io, attempts.len() as int);
    (after, seq![push_prefix() + "Macro Cluster "@ + c.name@, "Distance to Close Boundaries:"@] + distance_lines(ds) + lines)
}

/// The macros and lines after the first `n` clusters; a fixed cluster, or one without macros,
/// is not pushed.
pub open spec fn push_run(ms: Seq<PushMacro>, cs: Seq<PushCluster>, core: Bbox, io: Seq<Bbox>, n: int) -> (Seq<PushMacro>, Seq<Seq<char>>)
    decreases n,
{
    if n <= 0 {
        (ms, Seq::empty())
    } else {
        let (cur, lines) = push_run(ms, cs, core, io, n - 1);
        let c = cs[n - 1];
        if c.is_fixed_macro || c.macros@.len() == 0 {
            (cur, lines)
        } else {
            let (after, more) = cluster_push(cur, c, core, io);
            (after, lines + more)
        }
    }
}

/// Small macros and boxes, macro lists in range, and each macro listed by at most one cluster
/// that is pushed, at most once.
pub open spec fn push_inputs_ok(cs: Seq<PushCluster>, ms: Seq<PushMacro>, core: Bbox) -> bool {
    &&& small_box(core)
    &&& forall|i: int| 0 <= i < ms.len() ==> {
        &&& -0x0400_0000 <= #[trigger] ms[i].location.0 <= 0x0400_0000
        &&& -0x0400_0000 <= ms[i].location.1 <= 0x0400_0000
        &&& 0 <= ms[i].width <= 0x0400_0000
        &&& 0 <= ms[i].height <= 0x0400_0000
    }
    &&& forall|c: int| 0 <= c < cs.len() ==> small_box(#[trigger] cs[c].bbox)
    &&& forall|c: int, k: int| 0 <= c < cs.len() && 0 <= k < cs[c].macros@.len() ==> #[trigger] cs[c].macros@[k] < ms.len()
    &&& forall|c1: int, k1: int, c2: int, k2: int|
        0 <= c1 < cs.len() && 0 <= c2 < cs.len() && 0 <= k1 < cs[c1].macros@.len() && 0 <= k2 < cs[c2].macros@.len()
            && !cs[c1].is_fixed_macro && !cs[c2].is_fixed_macro
            && #[trigger] cs[c1].macros@[k1] == #[trigger] cs[c2].macros@[k2] ==> c1 == c2 && k1 == k2
}

/// The lines as text.
pub open spec fn lines_of(v: Seq<String>) -> Seq<Seq<char>> {
    v.map_values(|s: String| s@)
}

/// A macro's lower-left corner lies within `r` of the origin on both axes.
pub open spec fn loc_within(m: PushMacro, r: int) -> bool {
    -r <= m.location.0 <= r && -r <= m.location.1 <= r
}

/// Two macros alike in everything but their location.
pub open spec fn same_but_location(a: PushMacro, b: PushMacro) -> bool {
    a.name == b.name && a.cluster_id == b.cluster_id && a.width == b.width && a.height == b.height
}

/// No index is listed twice.
pub open spec fn distinct_indices(idxs: Seq<usize>) -> bool {
    forall|j: int, k: int| 0 <= j < idxs.len() && 0 <= k < idxs.len() && #[trigger] idxs[j] == #[trigger] idxs[k] ==> j == k
}

/// Every macro's width and height within range.
pub open spec fn sizes_ok(ms: Seq<PushMacro>) -> bool {
    forall|i: int| 0 <= i < ms.len() ==> 0 <= #[trigger] ms[i].width <= 0x0400_0000 && 0 <= ms[i].height <= 0x0400_0000
}

/// The push does not run: the root is itself a macro cluster, or a lone macro array is
/// already centred.
pub open spec fn push_declined(root_type: ClusterType, children: Seq<(ClusterType, i64)>) -> bool {
    root_type == ClusterType::HardMacro || single_array_walk(children, children.len() as int) is Some
}

proof fn lemma_lines_push(v: Seq<String>, s: String)
    ensures
        lines_of(v.push(s)) == lines_of(v).push(s@),
{
    assert(lines_of(v.push(s)) =~= lines_of(v).push(s@));
}

proof fn lemma_first_macro_hit_range(b: Bbox, cluster_id: i32, hm: Seq<(i32, Bbox)>, n: int)
    ensures
        first_macro_hit(b, cluster_id, hm, n) matches Some(i) ==> 0 <= i < n,
    decreases n,
{
    if n > 0 {
        lemma_first_macro_hit_range(b, cluster_id, hm, n - 1);
    }
}

proof fn lemma_first_io_hit_range(b: Bbox, io: Seq<Bbox>, n: int)
    ensures
        first_io_hit(b, io, n) matches Some(i) ==> 0 <= i < n,
    decreases n,
{
    if n > 0 {
        lemma_first_io_hit_range(b, io, n - 1);
    }
}

/// What the attempts of a walk carry: no more of them than boundaries, distances in range,
/// and obstacle indices that point into the lists.
proof fn lemma_push_walk_facts(b: Bbox, bs: Seq<(Boundary, i32)>, cluster_id: i32, hm: Seq<(i32, Bbox)>, io: Seq<Bbox>, n: int)
    requires
        0 <= n <= bs.len(),
        forall|k: int| 0 <= k < bs.len() ==> 0 <= #[trigger] bs[k].1 < 0x0400_0000,
        hm.len() <= usize::MAX,
        io.len() <= usize::MAX,
    ensures
        push_walk(b, bs, cluster_id, hm, io, n).1.len() <= n,
        forall|j: int| 0 <= j < push_walk(b, bs, cluster_id, hm, io, n).1.len() ==> {
            let a = #[trigger] push_walk(b, bs, cluster_id, hm, io, n).1[j];
            &&& 0 <= a.distance < 0x0400_0000
            &&& (a.obstacle matches Some(PushObstacle::HardMacro(i)) ==> i < hm.len())
            &&& (a.obstacle matches Some(PushObstacle::IoBlockage(i)) ==> i < io.len())
        },
    decreases n,
{
    if n > 0 {
        lemma_push_walk_facts(b, bs, cluster_id, hm, io, n - 1);
        let (cur, attempts) = push_walk(b, bs, cluster_id, hm, io, n - 1);
        let (boundary, d) = bs[n - 1];
        assert(0 <= bs[n - 1].1 < 0x0400_0000);
        if d != 0 {
            let moved = moved_box(cur, boundary, d as int);
            lemma_first_macro_hit_range(moved, cluster_id, hm, hm.len() as int);
            lemma_first_io_hit_range(moved, io, io.len() as int);
            let r = push_walk(b, bs, cluster_id, hm, io, n).1;
            assert forall|j: int| 0 <= j < r.len() implies {
                let a = #[trigger] r[j];
                &&& 0 <= a.distance < 0x0400_0000
                &&& (a.obstacle matches Some(PushObstacle::HardMacro(i)) ==> i < hm.len())
                &&& (a.obstacle matches Some(PushObstacle::IoBlockage(i)) ==> i < io.len())
            } by {
                if j < attempts.len() {
                    assert(r[j] == attempts[j]);
                }
            }
        }
    }
}

/// The close boundaries: at most two, each nearer than the macro's side.
proof fn lemma_close_facts(b: Bbox, core: Bbox, w: i32, h: i32)
    requires
        small_box(b),
        small_box(core),
        w <= 0x0400_0000,
        h <= 0x0400_0000,
    ensures
        close_boundaries(b, core, w, h).len() <= 2,
        forall|k: int| 0 <= k < close_boundaries(b, core, w, h).len() ==> 0 <= #[trigger] close_boundaries(b, core, w, h)[k].1 < 0x0400_0000,
        total_distance(close_boundaries(b, core, w, h), close_boundaries(b, core, w, h).len() as int) <= 0x0800_0000,
{
    let ds = close_boundaries(b, core, w, h);
    reveal_with_fuel(total_distance, 3);
    if ds.len() == 2 {
        assert(total_distance(ds, 2) == ds[0].1 + ds[1].1);
    }
}

/// The haloed boxes of all macros with their clusters, in list order.
fn flat_obstacles(macros: &Vec<PushMacro>) -> (r: Vec<(i32, Bbox)>)
    requires
        sizes_ok(macros@),
        forall|i: int| 0 <= i < macros@.len() ==> loc_within(#[trigger] macros@[i], 0x1000_0000),
    ensures
        r@ == flat_of(macros@),
{
    let mut r: Vec<(i32, Bbox)> = Vec::new();
    let mut i: usize = 0;
    while i < macros.len()
        invariant
            i <= macros@.len(),
            sizes_ok(macros@),
            forall|j: int| 0 <= j < macros@.len() ==> loc_within(#[trigger] macros@[j], 0x1000_0000),
            r@ == flat_of(macros@).take(i as int),
        decreases macros@.len() - i,
    {
        let m = &macros[i];
        proof {
            assert(loc_within(macros@[i as int], 0x1000_0000));
            assert(0 <= macros@[i as int].width <= 0x0400_0000);
        }
        let x = m.location.0;
        let y = m.location.1;
        r.push((m.cluster_id, (x, y, x + m.width, y + m.height)));
        proof {
            assert(r@ =~= flat_of(macros@).take(i + 1));
        }
        i = i + 1;
    }
    proof {
        assert(r@ =~= flat_of(macros@));
    }
    r
}

/// Move every listed macro towards the boundary.
fn move_cluster_macros(macros: &mut Vec<PushMacro>, idxs: &Vec<usize>, boundary: Boundary, distance: i32)
    requires
        0 <= distance <= 0x0400_0000,
        distinct_indices(idxs@),
        forall|k: int| 0 <= k < idxs@.len() ==> #[trigger] idxs@[k] < old(macros)@.len(),
        forall|k: int| 0 <= k < idxs@.len() ==> loc_within(old(macros)@[#[trigger] idxs@[k] as int], 0x2000_0000),
    ensures
        final(macros)@ == moved_macros(old(macros)@, idxs@, boundary, distance as int),
{
    let ghost start = macros@;
    let mut k: usize = 0;
    while k < idxs.len()
        invariant
            k <= idxs@.len(),
            0 <= distance <= 0x0400_0000,
            distinct_indices(idxs@),
            forall|j: int| 0 <= j < idxs@.len() ==> #[trigger] idxs@[j] < start.len(),
            forall|j: int| 0 <= j < idxs@.len() ==> loc_within(start[#[trigger] idxs@[j] as int], 0x2000_0000),
            macros@.len() == start.len(),
            forall|i: int| 0 <= i < start.len() ==> #[trigger] macros@[i] == (if listed(idxs@, k as int, i) {
                PushMacro { location: moved_point(start[i].location, boundary, distance as int), ..start[i] }
            } else {
                start[i]
            }),
        decreases idxs@.len() - k,
    {
        let idx = idxs[k];
        proof {
            if listed(idxs@, k as int, idx as int) {
                let j = choose|j: int| 0 <= j < k && #[trigger] idxs@[j] as int == idx as int;
                assert(idxs@[j] == idxs@[k as int]);
            }
            assert(macros@[idx as int] == start[idx as int]);
            assert(loc_within(start[idxs@[k as int] as int], 0x2000_0000));
        }
        let new_location = move_hard_macro(macros[idx].location, boundary, distance);
        macros[idx].location = new_location;
        proof {
            assert forall|i: int| 0 <= i < start.len() implies #[trigger] macros@[i] == (if listed(idxs@, k + 1, i) {
                PushMacro { location: moved_point(start[i].location, boundary, distance as int), ..start[i] }
            } else {
                start[i]
            }) by {
                if i == idx as int {
                    assert(idxs@[k as int] as int == i);
                } else {
                    if listed(idxs@, k + 1, i) {
                        let j = choose|j: int| 0 <= j < k + 1 && #[trigger] idxs@[j] as int == i;
                        assert(j < k);
                        assert(listed(idxs@, k as int, i));
                    }
                }
            }
        }
        k = k + 1;
    }
    proof {
        assert(macros@ =~= moved_macros(start, idxs@, boundary, distance as int));
    }
}

/// Push one cluster: its header and distance rows, then one line per attempt, a reverted one
/// naming its obstacle and a committed one moving the cluster's macros.
fn push_one_cluster(macros: &mut Vec<PushMacro>, cluster: &PushCluster, core: Bbox, io_blockages: &[Bbox], out: &mut Vec<String>)
    requires
        cluster.macros@.len() > 0,
        small_box(cluster.bbox),
        small_box(core),
        distinct_indices(cluster.macros@),
        forall|k: int| 0 <= k < cluster.macros@.len() ==> #[trigger] cluster.macros@[k] < old(macros)@.len(),
        sizes_ok(old(macros)@),
        forall|i: int| 0 <= i < old(macros)@.len() ==> loc_within(#[trigger] old(macros)@[i], 0x1000_0000),
        forall|k: int| 0 <= k < cluster.macros@.len() ==> loc_within(old(macros)@[#[trigger] cluster.macros@[k] as int], 0x0400_0000),
    ensures
        final(macros)@ == cluster_push(old(macros)@, *cluster, core, io_blockages@).0,
        lines_of(final(out)@) == lines_of(old(out)@) + cluster_push(old(macros)@, *cluster, core, io_blockages@).1,
        final(macros)@.len() == old(macros)@.len(),
        forall|i: int| 0 <= i < old(macros)@.len() ==> same_but_location(#[trigger] final(macros)@[i], old(macros)@[i])
            && loc_within(final(macros)@[i], 0x1000_0000),
        forall|i: int| 0 <= i < old(macros)@.len() && !listed(cluster.macros@, cluster.macros@.len() as int, i)
            ==> #[trigger] final(macros)@[i] == old(macros)@[i],
{
    let ghost start = macros@;
    let ghost base = lines_of(out@);
    let ghost io = io_blockages@;
    let first = cluster.macros[0];
    let mut header = String::from_str("[DEBUG MPL-boundary_push] ");
    header.append("Macro Cluster ");
    header.append(cluster.name.as_str());
    proof {
        lemma_lines_push(out@, header);
    }
    out.push(header);
    proof {
        assert(0 <= start[first as int].width <= 0x0400_0000);
    }
    let distances = distance_to_close_boundaries(cluster.bbox, core, macros[first].width, macros[first].height);
    let ghost ds = distances@;
    proof {
        lemma_close_facts(cluster.bbox, core, start[first as int].width, start[first as int].height);
    }
    let title = String::from_str("Distance to Close Boundaries:");
    proof {
        lemma_lines_push(out@, title);
    }
    out.push(title);
    let ghost head = seq![
        push_prefix() + "Macro Cluster "@ + cluster.name@,
        "Distance to Close Boundaries:"@,
    ];
    proof {
        assert(lines_of(out@) =~= base + head + distance_lines(ds).take(0));
    }
    let mut k: usize = 0;
    while k < distances.len()
        invariant
            k <= ds.len(),
            ds == distances@,
            lines_of(out@) == base + head + distance_lines(ds).take(k as int),
        decreases ds.len() - k,
    {
        let (boundary, distance) = distances[k];
        let mut row = String::from_str(boundary.name());
        row.append(" ");
        push_signed(&mut row, distance as i64);
        proof {
            lemma_lines_push(out@, row);
            assert(distance_lines(ds).take(k + 1) =~= distance_lines(ds).take(k as int).push(row@));
            assert(base + head + distance_lines(ds).take(k + 1) =~= (base + head + distance_lines(ds).take(k as int)).push(row@));
        }
        out.push(row);
        k = k + 1;
    }
    proof {
        assert(distance_lines(ds).take(ds.len() as int) =~= distance_lines(ds));
    }
    let flat = flat_obstacles(macros);
    let (_, attempts) = push_macro_cluster(cluster.bbox, distances.as_slice(), cluster.id, flat.as_slice(), io_blockages);
    let ghost walked = attempts@;
    let io_count = io_blockages.len();
    let flat_count = flat.len();
    proof {
        assert(io.len() == io_count);
        assert(flat@.len() == flat_count);
        lemma_push_walk_facts(cluster.bbox, ds, cluster.id, flat@, io, ds.len() as int);
        assert(walked == push_walk(cluster.bbox, ds, cluster.id, flat_of(start), io, ds.len() as int).1);
    }
    let ghost mid = lines_of(out@);
    let mut j: usize = 0;
    while j < attempts.len()
        invariant
            j <= walked.len(),
            walked.len() <= 2,
            walked == attempts@,
            io == io_blockages@,
            flat@ == flat_of(start),
            forall|a: int| 0 <= a < walked.len() ==> {
                let t = #[trigger] walked[a];
                &&& 0 <= t.distance < 0x0400_0000
                &&& (t.obstacle matches Some(PushObstacle::HardMacro(i)) ==> i < start.len())
                &&& (t.obstacle matches Some(PushObstacle::IoBlockage(i)) ==> i < io.len())
            },
            distinct_indices(cluster.macros@),
            forall|q: int| 0 <= q < cluster.macros@.len() ==> #[trigger] cluster.macros@[q] < start.len(),
            forall|q: int| 0 <= q < cluster.macros@.len() ==> loc_within(start[#[trigger] cluster.macros@[q] as int], 0x0400_0000),
            forall|i: int| 0 <= i < start.len() ==> loc_within(#[trigger] start[i], 0x1000_0000),
            macros@.len() == start.len(),
            macros@ == attempts_walk(start, *cluster, walked, io, j as int).0,
            lines_of(out@) == mid + attempts_walk(start, *cluster, walked, io, j as int).1,
            forall|i: int| 0 <= i < start.len() && listed(cluster.macros@, cluster.macros@.len() as int, i)
                ==> same_but_location(#[trigger] macros@[i], start[i]) && loc_within(macros@[i], 0x0400_0000 + j * 0x0400_0000),
            forall|i: int| 0 <= i < start.len() && !listed(cluster.macros@, cluster.macros@.len() as int, i)
                ==> #[trigger] macros@[i] == start[i],
        decreases walked.len() - j,
    {
        let attempt = attempts[j];
        proof {
            assert(0 <= walked[j as int].distance < 0x0400_0000);
        }
        let ghost before = lines_of(out@);
        let mut moved = String::from_str("[DEBUG MPL-boundary_push] ");
        moved.append("Moved ");
        moved.append(cluster.name.as_str());
        moved.append(" in the direction of ");
        moved.append(attempt.boundary.name());
        moved.append(".");
        proof {
            lemma_lines_push(out@, moved);
        }
        out.push(moved);
        match attempt.obstacle {
            Some(PushObstacle::HardMacro(index)) => {
                let mut line = String::from_str("[DEBUG MPL-boundary_push] ");
                line.append("\tFound overlap with HardMacro ");
                line.append(macros[index].name.as_str());
                line.append(". Push will be reverted.");
                proof {
                    lemma_lines_push(out@, line);
                }
                out.push(line);
            },
            Some(PushObstacle::IoBlockage(index)) => {
                let r = io_blockages[index];
                let mut line = String::from_str("[DEBUG MPL-boundary_push] ");
                line.append("\tFound overlap with IO blockage ");
                push_point(&mut line, r.0 as i64, r.1 as i64);
                line.append(" ");
                push_point(&mut line, r.2 as i64, r.3 as i64);
                line.append(". Push will be reverted.");
                proof {
                    lemma_lines_push(out@, line);
                }
                out.push(line);
            },
            None => {
                proof {
                    assert forall|q: int| 0 <= q < cluster.macros@.len() implies loc_within(
                        macros@[#[trigger] cluster.macros@[q] as int],
                        0x2000_0000,
                    ) by {
                        let i = cluster.macros@[q] as int;
                        assert(listed(cluster.macros@, cluster.macros@.len() as int, i));
                    }
                }
                move_cluster_macros(macros, &cluster.macros, attempt.boundary, attempt.distance);
                proof {
                    assert forall|i: int| 0 <= i < start.len() && listed(cluster.macros@, cluster.macros@.len() as int, i)
                        implies same_but_location(#[trigger] macros@[i], start[i])
                            && loc_within(macros@[i], 0x0400_0000 + (j + 1) * 0x0400_0000) by {
                    }
                }
            },
        }
        proof {
            assert(lines_of(out@) =~= mid + attempts_walk(start, *cluster, walked, io, j + 1).1);
        }
        j = j + 1;
    }
    proof {
        assert(head + distance_lines(ds) + attempts_walk(start, *cluster, walked, io, walked.len() as int).1
            =~= cluster_push(start, *cluster, core, io).1);
        assert(lines_of(out@) =~= base + cluster_push(start, *cluster, core, io).1);
    }
}

/// Some cluster that is not fixed lists the macro.
pub open spec fn pushed_somewhere(cs: Seq<PushCluster>, i: int) -> bool {
    exists|c: int, k: int| 0 <= c < cs.len() && !cs[c].is_fixed_macro && 0 <= k < cs[c].macros@.len() && #[trigger] cs[c].macros@[k] as int == i
}

/// Push every movable macro cluster onto the core boundaries it is close to, in order, and
/// return the trace. Nothing runs when the root is itself a macro cluster or a lone macro
/// array is already centred. A committed push moves the cluster's macros, and later clusters
/// test their pushes against the moved positions.
pub fn run_boundary_push(
    root_type: ClusterType,
    root_children: &[(ClusterType, i64)],
    clusters: &[PushCluster],
    macros: &mut Vec<PushMacro>,
    core: Bbox,
    io_blockages: &[Bbox],
) -> (r: Vec<String>)
    requires
        push_inputs_ok(clusters@, old(macros)@, core),
    ensures
        final(macros)@.len() == old(macros)@.len(),
        forall|i: int| 0 <= i < old(macros)@.len() ==> same_but_location(#[trigger] final(macros)@[i], old(macros)@[i]),
        forall|i: int| 0 <= i < old(macros)@.len() && !pushed_somewhere(clusters@, i) ==> #[trigger] final(macros)@[i] == old(macros)@[i],
        push_declined(root_type, root_children@) ==> final(macros)@ == old(macros)@ && r@.len() == 0,
        !push_declined(root_type, root_children@) ==> (final(macros)@, lines_of(r@)) == push_run(
            old(macros)@,
            clusters@,
            core,
            io_blockages@,
            clusters@.len() as int,
        ),
{
    let mut out: Vec<String> = Vec::new();
    if push_decision(root_type, root_children).is_err() {
        return out;
    }
    let ghost start = macros@;
    proof {
        assert(lines_of(out@) =~= Seq::<Seq<char>>::empty());
    }
    let mut n: usize = 0;
    while n < clusters.len()
        invariant
            n <= clusters@.len(),
            push_inputs_ok(clusters@, start, core),
            macros@.len() == start.len(),
            (macros@, lines_of(out@)) == push_run(start, clusters@, core, io_blockages@, n as int),
            forall|i: int| 0 <= i < start.len() ==> same_but_location(#[trigger] macros@[i], start[i])
                && loc_within(macros@[i], 0x1000_0000),
            forall|i: int| 0 <= i < start.len() && !pushed_somewhere(clusters@, i) ==> #[trigger] macros@[i] == start[i],
            forall|c: int, k: int| n <= c < clusters@.len() && !clusters@[c].is_fixed_macro && 0 <= k < clusters@[c].macros@.len()
                ==> #[trigger] macros@[clusters@[c].macros@[k] as int] == start[clusters@[c].macros@[k] as int],
        decreases clusters@.len() - n,
    {
        let cluster = &clusters[n];
        if !cluster.is_fixed_macro && cluster.macros.len() > 0 {
            proof {
                assert(small_box(clusters@[n as int].bbox));
                assert forall|j: int, k: int| 0 <= j < cluster.macros@.len() && 0 <= k < cluster.macros@.len()
                    && #[trigger] cluster.macros@[j] == #[trigger] cluster.macros@[k] implies j == k by {
                    assert(clusters@[n as int].macros@[j] == clusters@[n as int].macros@[k]);
                }
                assert forall|k: int| 0 <= k < cluster.macros@.len() implies #[trigger] cluster.macros@[k] < macros@.len() by {
                    assert(clusters@[n as int].macros@[k] < start.len());
                }
                assert forall|i: int| 0 <= i < macros@.len() implies 0 <= #[trigger] macros@[i].width <= 0x0400_0000
                    && 0 <= macros@[i].height <= 0x0400_0000 by {
                    assert(same_but_location(macros@[i], start[i]));
                    assert(-0x0400_0000 <= start[i].location.0 <= 0x0400_0000);
                }
                assert forall|k: int| 0 <= k < cluster.macros@.len() implies loc_within(
                    macros@[#[trigger] cluster.macros@[k] as int],
                    0x0400_0000,
                ) by {
                    let i = clusters@[n as int].macros@[k] as int;
                    assert(macros@[i] == start[i]);
                    assert(-0x0400_0000 <= start[i].location.0 <= 0x0400_0000);
                }
            }
            let ghost before = macros@;
            push_one_cluster(macros, cluster, core, io_blockages, &mut out);
            proof {
                assert forall|c: int, k: int| n + 1 <= c < clusters@.len() && !clusters@[c].is_fixed_macro
                    && 0 <= k < clusters@[c].macros@.len() implies #[trigger] macros@[clusters@[c].macros@[k] as int]
                    == start[clusters@[c].macros@[k] as int] by {
                    let i = clusters@[c].macros@[k] as int;
                    if listed(cluster.macros@, cluster.macros@.len() as int, i) {
                        let j = choose|j: int| 0 <= j < cluster.macros@.len() && #[trigger] cluster.macros@[j] as int == i;
                        assert(clusters@[n as int].macros@[j] == clusters@[c].macros@[k]);
                    }
                    assert(before[i] == start[i]);
                }
                assert forall|i: int| 0 <= i < start.len() implies same_but_location(#[trigger] macros@[i], start[i])
                    && loc_within(macros@[i], 0x1000_0000) by {
                    assert(same_but_location(macros@[i], before[i]));
                    assert(same_but_location(before[i], start[i]));
                }
                assert forall|i: int| 0 <= i < start.len() && !pushed_somewhere(clusters@, i) implies #[trigger] macros@[i] == start[i] by {
                    if listed(cluster.macros@, cluster.macros@.len() as int, i) {
                        let j = choose|j: int| 0 <= j < cluster.macros@.len() && #[trigger] cluster.macros@[j] as int == i;
                        assert(clusters@[n as int].macros@[j] as int == i);
                    }
                }
            }
        }
        n = n + 1;
    }
    out
}

} // verus!
