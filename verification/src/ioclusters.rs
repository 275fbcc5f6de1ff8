//! IO clusters: where the design's pins sit in the physical hierarchy. Bundles form a ring
//! round the die, `L, T, R, B`, and the direction reverses halfway round.

use crate::anneal::SoftMacro;
use crate::arith::{div_trunc, quot};
use crate::cluster::{Cluster, ClusterId, ClusterType, Metrics, io_soft_macro};
use crate::design::{Design, Rect};
use crate::halo::Boundary;
use crate::text::{dec_int, push_signed};
use vstd::arithmetic::div_mod::{lemma_fundamental_div_mod, lemma_fundamental_div_mod_converse, lemma_mod_pos_bound};
use vstd::prelude::*;

verus! {

/// Bundles per die edge.
pub const IO_BUNDLES_PER_EDGE: i32 = 5;

/// A coordinate small enough that sums and differences of a few of them stay in 64 bits.
pub open spec fn coord_ok(v: int) -> bool {
    -0x0200_0000_0000_0000 <= v <= 0x0200_0000_0000_0000
}

/// Every corner of the rectangle is a small enough coordinate.
pub open spec fn rect_ok(r: Rect) -> bool {
    coord_ok(r.x_min as int) && coord_ok(r.y_min as int) && coord_ok(r.x_max as int) && coord_ok(
        r.y_max as int,
    )
}

/// How far one bundle spans along its edge.
#[derive(Debug, Clone, Copy, PartialEq, Eq, Structural)]
pub struct BundleSpans {
    pub x: i64,
    pub y: i64,
}

/// The die divided into five per edge, truncating.
pub open spec fn spans_of(die: Rect) -> BundleSpans {
    BundleSpans {
        x: quot(die.x_max - die.x_min, 5) as i64,
        y: quot(die.y_max - die.y_min, 5) as i64,
    }
}

/// The die divided into five per edge.
pub fn bundle_spans(die: &Rect) -> (s: BundleSpans)
    requires
        rect_ok(*die),
    ensures
        s == spans_of(*die),
        s.x == quot(die.x_max - die.x_min, 5),
        s.y == quot(die.y_max - die.y_min, 5),
{
    let x = div_trunc(die.x_max - die.x_min, 5);
    let y = div_trunc(die.y_max - die.y_min, 5);
    proof {
        let w = die.x_max - die.x_min;
        let h = die.y_max - die.y_min;
        assert(-0x0400_0000_0000_0000 <= quot(w, 5) <= 0x0400_0000_0000_0000) by (nonlinear_arith)
            requires -0x0400_0000_0000_0000 <= w <= 0x0400_0000_0000_0000;
        assert(-0x0400_0000_0000_0000 <= quot(h, 5) <= 0x0400_0000_0000_0000) by (nonlinear_arith)
            requires -0x0400_0000_0000_0000 <= h <= 0x0400_0000_0000_0000;
    }
    BundleSpans { x, y }
}

/// The letter of an edge.
pub open spec fn edge_letter(b: Boundary) -> Seq<char> {
    match b {
        Boundary::B => "B"@,
        Boundary::L => "L"@,
        Boundary::T => "T"@,
        Boundary::R => "R"@,
    }
}

/// A bundle's name: its edge letter, an underscore, and its index, as `L_0` or `T_3`.
pub open spec fn bundle_name_of(edge: Boundary, index: int) -> Seq<char> {
    edge_letter(edge) + "_"@ + dec_int(index)
}

/// The bundle name: `L_0`, `T_3`, and so on.
pub fn bundle_name(edge: Boundary, index: i32) -> (s: String)
    ensures
        s@ == bundle_name_of(edge, index as int),
{
    let mut s = String::from_str(edge.name());
    s.append("_");
    push_signed(&mut s, index as i64);
    s
}

/// `floor(a / b)`, and zero when `b` is zero.
pub open spec fn floor_div(a: int, b: int) -> int {
    if b == 0 {
        0
    } else if b > 0 {
        a / b
    } else {
        (-a) / (-b)
    }
}

/// A value brought into the 32-bit range by saturation.
pub open spec fn saturate_i32(v: int) -> int {
    if v > i32::MAX {
        i32::MAX as int
    } else if v < i32::MIN {
        i32::MIN as int
    } else {
        v
    }
}

/// `floor(a / b)` saturated to 32 bits, guarding a zero span.
fn div_floor(a: i64, b: i64) -> (r: i32)
    ensures
        r == saturate_i32(floor_div(a as int, b as int)),
{
    if b == 0 {
        return 0;
    }
    let aa: i128 = if b > 0 { a as i128 } else { -(a as i128) };
    let bb: i128 = if b > 0 { b as i128 } else { -(b as i128) };
    let q: i128 = if aa >= 0 {
        aa / bb
    } else {
        let n: i128 = -aa + bb - 1;
        let q1: i128 = n / bb;
        proof {
            lemma_fundamental_div_mod(n as int, bb as int);
            lemma_mod_pos_bound(n as int, bb as int);
            let r1 = (n as int) % (bb as int);
            assert((-q1) * bb + (bb - 1 - r1) == aa) by (nonlinear_arith)
                requires
                    n == bb * q1 + r1,
                    n == -aa + bb - 1,
            ;
            lemma_fundamental_div_mod_converse(aa as int, bb as int, -q1, bb - 1 - r1);
        }
        -q1
    };
    assert(q == floor_div(a as int, b as int));
    if q > i32::MAX as i128 {
        i32::MAX
    } else if q < i32::MIN as i128 {
        i32::MIN
    } else {
        q as i32
    }
}

/// Which bundle a pin belongs to, as an offset from the first bundle's id. Left and top index
/// forward from the die's minimum; right and bottom backward from its maximum. The edge test is
/// a chain, so a corner pin takes the first match, `L` before `T` before `R` before `B`. `None`
/// when the pin touches no edge.
pub open spec fn offset_of(pin: Rect, die: Rect, spans: BundleSpans) -> Option<int> {
    let x_center = quot(pin.x_min + pin.x_max, 2);
    let y_center = quot(pin.y_min + pin.y_max, 2);
    if pin.x_min <= die.x_min {
        Some(saturate_i32(floor_div(y_center - die.y_min, spans.y as int)))
    } else if pin.y_max >= die.y_max {
        Some(5 + saturate_i32(floor_div(x_center - die.x_min, spans.x as int)))
    } else if pin.x_max >= die.x_max {
        Some(10 + saturate_i32(floor_div(die.y_max - y_center, spans.y as int)))
    } else if pin.y_min <= die.y_min {
        Some(15 + saturate_i32(floor_div(die.x_max - x_center, spans.x as int)))
    } else {
        None
    }
}

/// The offset, when there is one, is a 32-bit value.
pub open spec fn offset_fits(pin: Rect, die: Rect, spans: BundleSpans) -> bool {
    match offset_of(pin, die, spans) {
        Some(o) => i32::MIN <= o <= i32::MAX,
        None => true,
    }
}

/// Which bundle a pin belongs to, as an offset from the first bundle's id.
pub fn bundle_offset(pin: &Rect, die: &Rect, spans: BundleSpans) -> (r: Option<i32>)
    requires
        rect_ok(*pin),
        rect_ok(*die),
        offset_fits(*pin, *die, spans),
    ensures
        match r {
            Some(o) => offset_of(*pin, *die, spans) == Some(o as int),
            None => offset_of(*pin, *die, spans) is None,
        },
{
    let x_center = div_trunc(pin.x_min + pin.x_max, 2);
    let y_center = div_trunc(pin.y_min + pin.y_max, 2);
    proof {
        let sx = pin.x_min + pin.x_max;
        let sy = pin.y_min + pin.y_max;
        assert(-0x0400_0000_0000_0000 <= quot(sx, 2) <= 0x0400_0000_0000_0000) by (nonlinear_arith)
            requires -0x0400_0000_0000_0000 <= sx <= 0x0400_0000_0000_0000;
        assert(-0x0400_0000_0000_0000 <= quot(sy, 2) <= 0x0400_0000_0000_0000) by (nonlinear_arith)
            requires -0x0400_0000_0000_0000 <= sy <= 0x0400_0000_0000_0000;
    }
    if pin.x_min <= die.x_min {
        Some(div_floor(y_center - die.y_min, spans.y))
    } else if pin.y_max >= die.y_max {
        Some(IO_BUNDLES_PER_EDGE + div_floor(x_center - die.x_min, spans.x))
    } else if pin.x_max >= die.x_max {
        Some(IO_BUNDLES_PER_EDGE * 2 + div_floor(die.y_max - y_center, spans.y))
    } else if pin.y_min <= die.y_min {
        Some(IO_BUNDLES_PER_EDGE * 3 + div_floor(die.x_max - x_center, spans.x))
    } else {
        None
    }
}

/// The rectangle bundle `index` of an edge occupies: left and top advance from the die's
/// minimum, right and bottom retreat from its maximum, each a line on its edge.
pub open spec fn bundle_rect_of(edge: Boundary, index: int, die: Rect, spans: BundleSpans) -> Rect {
    let ext: int = if edge == Boundary::L || edge == Boundary::R { spans.y as int } else { spans.x as int };
    match edge {
        Boundary::L => Rect {
            x_min: die.x_min,
            y_min: (die.y_min + ext * index) as i64,
            x_max: die.x_min,
            y_max: (die.y_min + ext * index + ext) as i64,
        },
        Boundary::T => Rect {
            x_min: (die.x_min + ext * index) as i64,
            y_min: die.y_max,
            x_max: (die.x_min + ext * index + ext) as i64,
            y_max: die.y_max,
        },
        Boundary::R => Rect {
            x_min: die.x_max,
            y_min: (die.y_max - ext * (index + 1)) as i64,
            x_max: die.x_max,
            y_max: (die.y_max - ext * (index + 1) + ext) as i64,
        },
        Boundary::B => Rect {
            x_min: (die.x_max - ext * (index + 1)) as i64,
            y_min: die.y_min,
            x_max: (die.x_max - ext * (index + 1) + ext) as i64,
            y_max: die.y_min,
        },
    }
}

/// The spans are at most a fifth of a small enough die.
pub open spec fn spans_ok(spans: BundleSpans) -> bool {
    coord_ok(spans.x as int) && coord_ok(spans.y as int)
}

/// The rectangle a bundle occupies.
pub fn bundle_rect(edge: Boundary, index: i32, die: &Rect, spans: BundleSpans) -> (r: Rect)
    requires
        rect_ok(*die),
        spans_ok(spans),
        0 <= index < IO_BUNDLES_PER_EDGE,
    ensures
        r == bundle_rect_of(edge, index as int, *die, spans),
        -0x2000_0000_0000_0000 <= r.x_min <= 0x2000_0000_0000_0000,
        -0x2000_0000_0000_0000 <= r.y_min <= 0x2000_0000_0000_0000,
        -0x2000_0000_0000_0000 <= r.x_max <= 0x2000_0000_0000_0000,
        -0x2000_0000_0000_0000 <= r.y_max <= 0x2000_0000_0000_0000,
{
    let ext: i64 = if edge.is_vertical() { spans.y } else { spans.x };
    let i = index as i64;
    proof {
        assert(-0x0a00_0000_0000_0000 <= ext * i <= 0x0a00_0000_0000_0000) by (nonlinear_arith)
            requires -0x0200_0000_0000_0000 <= ext <= 0x0200_0000_0000_0000, 0 <= i < 5;
        assert(-0x0c00_0000_0000_0000 <= ext * (i + 1) <= 0x0c00_0000_0000_0000) by (nonlinear_arith)
            requires -0x0200_0000_0000_0000 <= ext <= 0x0200_0000_0000_0000, 0 <= i < 5;
    }
    match edge {
        Boundary::L => Rect {
            x_min: die.x_min,
            y_min: die.y_min + ext * i,
            x_max: die.x_min,
            y_max: die.y_min + ext * i + ext,
        },
        Boundary::T => Rect {
            x_min: die.x_min + ext * i,
            y_min: die.y_max,
            x_max: die.x_min + ext * i + ext,
            y_max: die.y_max,
        },
        Boundary::R => Rect {
            x_min: die.x_max,
            y_min: die.y_max - ext * (i + 1),
            x_max: die.x_max,
            y_max: die.y_max - ext * (i + 1) + ext,
        },
        Boundary::B => Rect {
            x_min: die.x_max - ext * (i + 1),
            y_min: die.y_min,
            x_max: die.x_max - ext * (i + 1) + ext,
            y_max: die.y_min,
        },
    }
}

/// The edge of bundle `k` of the ring, in creation order `L, T, R, B`.
pub open spec fn ring_edge(k: int) -> Boundary {
    if k < 5 {
        Boundary::L
    } else if k < 10 {
        Boundary::T
    } else if k < 15 {
        Boundary::R
    } else {
        Boundary::B
    }
}

fn ring_edge_exec(k: i32) -> (b: Boundary)
    ensures
        b == ring_edge(k as int),
{
    if k < 5 {
        Boundary::L
    } else if k < 10 {
        Boundary::T
    } else if k < 15 {
        Boundary::R
    } else {
        Boundary::B
    }
}

/// The twenty bundle names, in creation order, which is also id order.
pub fn all_bundle_names() -> (names: Vec<String>)
    ensures
        names@.len() == 20,
        forall|k: int| 0 <= k < 20 ==> #[trigger] names@[k]@ == bundle_name_of(ring_edge(k), k % 5),
{
    let mut names: Vec<String> = Vec::new();
    let mut k: i32 = 0;
    while k < 20
        invariant
            0 <= k <= 20,
            names@.len() == k,
            forall|j: int| 0 <= j < k ==> #[trigger] names@[j]@ == bundle_name_of(ring_edge(j), j % 5),
        decreases 20 - k,
    {
        names.push(bundle_name(ring_edge_exec(k), k % IO_BUNDLES_PER_EDGE));
        k = k + 1;
    }
    names
}

/// A block port, as the clustering stage sees it.
#[derive(Debug, Clone, PartialEq, Eq)]
pub struct Pin {
    pub name: String,
    pub bbox: Rect,
    pub is_fixed: bool,
    /// The region the user restricted this pin to, if any.
    pub constraint: Option<Rect>,
}

/// What `create_io_clusters` produced.
#[derive(Debug, PartialEq, Default)]
pub struct IoClusters {
    /// The bundles that some pin landed in.
    pub bundles: Vec<Cluster>,
    /// Clusters created for unplaced pins, or for pads, in creation order.
    pub pin_clusters: Vec<Cluster>,
    /// `(pin index, cluster id)`.
    pub assignment: Vec<(usize, ClusterId)>,
    /// False when the design has no ports at all.
    pub has_io_clusters: bool,
    pub next_id: ClusterId,
}

/// Some pin is fixed.
pub open spec fn any_fixed(pins: Seq<Pin>) -> bool {
    exists|i: int| 0 <= i < pins.len() && #[trigger] pins[i].is_fixed
}

/// The first of the groups made so far whose constraint is `r`.
pub open spec fn group_with(groups: Seq<(Option<Rect>, int)>, r: Rect) -> Option<int>
    decreases groups.len(),
{
    if groups.len() == 0 {
        None
    } else {
        match group_with(groups.drop_last(), r) {
            Some(j) => Some(j),
            None => if groups.last().0 == Some(r) {
                Some(groups.len() - 1)
            } else {
                None
            },
        }
    }
}

/// The state after the first `n` pins: the bundle counts, the pin groups (constraint, pins)
/// in creation order, the index of the unconstrained group, and the assignment.
pub open spec fn io_walk(pins: Seq<Pin>, die: Rect, first_id: int, n: int) -> (
    Seq<int>,
    Seq<(Option<Rect>, int)>,
    Option<int>,
    Seq<(usize, ClusterId)>,
)
    decreases n,
{
    if n <= 0 {
        (Seq::new(20, |k: int| 0), Seq::empty(), None, Seq::empty())
    } else {
        let (counts, groups, unconstrained, assignment) = io_walk(pins, die, first_id, n - 1);
        let pin = pins[n - 1];
        let idx = (n - 1) as usize;
        let fixed_mode = any_fixed(pins);
        let pin_base = first_id + if fixed_mode { 20int } else { 0int };
        if fixed_mode && pin.is_fixed {
            match offset_of(pin.bbox, die, spans_of(die)) {
                None => (counts, groups, unconstrained, assignment),
                Some(o) => (
                    if 0 <= o < 20 { counts.update(o, counts[o] + 1) } else { counts },
                    groups,
                    unconstrained,
                    assignment.push((idx, (first_id + o) as ClusterId)),
                ),
            }
        } else {
            let existing = match pin.constraint {
                None => unconstrained,
                Some(r) => group_with(groups, r),
            };
            match existing {
                Some(j) => (
                    counts,
                    groups.update(j, (groups[j].0, groups[j].1 + 1)),
                    unconstrained,
                    assignment.push((idx, (pin_base + j) as ClusterId)),
                ),
                None => (
                    counts,
                    groups.push((pin.constraint, 1int)),
                    if pin.constraint is None { Some(groups.len() as int) } else { unconstrained },
                    assignment.push((idx, (pin_base + groups.len()) as ClusterId)),
                ),
            }
        }
    }
}

/// The ring positions of the bundles that some pin landed in, in order.
pub open spec fn kept_bundles(counts: Seq<int>) -> Seq<int> {
    Seq::new(20, |k: int| k).filter(|k: int| counts[k] > 0)
}

/// The cluster is fresh apart from what the IO marking sets: no leaves, modules, children,
/// metrics or tilings, and of mixed type.
pub open spec fn fresh_io(c: Cluster) -> bool {
    &&& c.cluster_type == ClusterType::Mixed
    &&& c.db_modules@.len() == 0
    &&& c.leaf_std_cells@.len() == 0
    &&& c.leaf_macros@.len() == 0
    &&& c.children@.len() == 0
    &&& c.metrics == (Metrics { num_std_cell: 0, num_macro: 0, std_cell_area: 0, macro_area: 0 })
    &&& !c.is_fixed_macro
    &&& c.tilings@.len() == 0
}

/// The fixed soft macro standing for a rectangle, its corner and extents taken to 32 bits.
pub open spec fn soft_macro_of(r: Rect) -> SoftMacro {
    io_soft_macro(r.x_min as i32, r.y_min as i32, (r.x_max - r.x_min) as i32, (r.y_max - r.y_min) as i32)
}

/// Bundle `k` of the ring, as created.
pub open spec fn is_bundle(c: Cluster, k: int, first_id: int, die: Rect, count: int) -> bool {
    let rect = bundle_rect_of(ring_edge(k), k % 5, die, spans_of(die));
    &&& fresh_io(c)
    &&& c.id == first_id + k
    &&& c.name@ == bundle_name_of(ring_edge(k), k % 5)
    &&& c.is_io_bundle
    &&& !c.is_cluster_of_unplaced_io_pins
    &&& !c.is_cluster_of_unconstrained_io_pins
    &&& !c.is_io_pad_cluster
    &&& c.soft_macro == Some(soft_macro_of(rect))
    &&& c.io_region == Some(rect)
    &&& c.constraint_region is None
    &&& c.num_io_pins == count
}

/// The cluster of unplaced pins with the given id, constraint and pin count. It is named
/// `ios_<id>`, and stands as the constraint region, or the whole die when there is none.
pub open spec fn is_pin_cluster(c: Cluster, id: int, constraint: Option<Rect>, die: Rect, count: int) -> bool {
    let shape = match constraint {
        Some(r) => r,
        None => die,
    };
    &&& fresh_io(c)
    &&& c.id == id
    &&& c.name@ == "ios_"@ + dec_int(id)
    &&& c.is_cluster_of_unplaced_io_pins
    &&& c.is_cluster_of_unconstrained_io_pins == (constraint is None)
    &&& !c.is_io_bundle
    &&& !c.is_io_pad_cluster
    &&& c.soft_macro == Some(soft_macro_of(shape))
    &&& c.constraint_region == constraint
    &&& c.io_region == constraint
    &&& c.num_io_pins == count
}

/// The inputs stay within the machine's range: small enough coordinates, every fixed pin's
/// offset and bundle id representable, and room for every id that may be handed out.
pub open spec fn io_inputs_ok(pins: Seq<Pin>, die: Rect, first_id: int) -> bool {
    &&& rect_ok(die)
    &&& 0 <= first_id
    &&& first_id + 20 + pins.len() <= i32::MAX
    &&& forall|i: int| 0 <= i < pins.len() ==> #[trigger] rect_ok(pins[i].bbox)
    &&& forall|i: int|
        0 <= i < pins.len() ==> match #[trigger] pins[i].constraint {
            Some(r) => rect_ok(r),
            None => true,
        }
    &&& forall|i: int|
        0 <= i < pins.len() && pins[i].is_fixed ==> match offset_of(
            #[trigger] pins[i].bbox,
            die,
            spans_of(die),
        ) {
            Some(o) => i32::MIN <= o && first_id + o <= i32::MAX,
            None => true,
        }
}

proof fn lemma_group_with_bounds(groups: Seq<(Option<Rect>, int)>, r: Rect)
    ensures
        match group_with(groups, r) {
            Some(j) => 0 <= j < groups.len() && groups[j].0 == Some(r),
            None => forall|j: int| 0 <= j < groups.len() ==> groups[j].0 != Some(r),
        },
    decreases groups.len(),
{
    if groups.len() > 0 {
        lemma_group_with_bounds(groups.drop_last(), r);
        match group_with(groups.drop_last(), r) {
            Some(j) => {},
            None => {
                assert forall|j: int| 0 <= j < groups.len() - 1 implies groups[j].0 != Some(r) by {
                    assert(groups.drop_last()[j] == groups[j]);
                }
            },
        }
    }
}

proof fn lemma_walk_shape(pins: Seq<Pin>, die: Rect, first_id: int, n: int)
    requires
        0 <= n <= pins.len(),
    ensures
        io_walk(pins, die, first_id, n).0.len() == 20,
        io_walk(pins, die, first_id, n).1.len() <= n,
        io_walk(pins, die, first_id, n).3.len() <= n,
        forall|j: int| 0 <= j < io_walk(pins, die, first_id, n).1.len()
            ==> 1 <= #[trigger] io_walk(pins, die, first_id, n).1[j].1 <= n,
        forall|k: int| 0 <= k < 20 ==> 0 <= #[trigger] io_walk(pins, die, first_id, n).0[k] <= n,
        match io_walk(pins, die, first_id, n).2 {
            Some(u) => 0 <= u < io_walk(pins, die, first_id, n).1.len()
                && io_walk(pins, die, first_id, n).1[u].0 is None,
            None => forall|j: int| 0 <= j < io_walk(pins, die, first_id, n).1.len()
                ==> io_walk(pins, die, first_id, n).1[j].0 is Some,
        },
    decreases n,
{
    if n > 0 {
        lemma_walk_shape(pins, die, first_id, n - 1);
        let (counts, groups, u, a) = io_walk(pins, die, first_id, n - 1);
        match pins[n - 1].constraint {
            Some(r) => lemma_group_with_bounds(groups, r),
            None => {},
        }
    }
}

/// The clusters for a design without IO pads. Bundles exist only when some pin is fixed; a
/// fixed pin then joins the bundle its position picks. Every other pin shares a cluster by
/// constraint: unconstrained pins share one, constrained pins share the cluster with the
/// identical region. Bundles no pin landed in are dropped. No pins at all gives no clusters.
pub fn create_io_clusters(pins: &[Pin], die: &Rect, first_id: ClusterId) -> (out: IoClusters)
    requires
        io_inputs_ok(pins@, *die, first_id as int),
    ensures
        pins@.len() == 0 ==> {
            &&& !out.has_io_clusters
            &&& out.bundles@.len() == 0
            &&& out.pin_clusters@.len() == 0
            &&& out.assignment@.len() == 0
            &&& out.next_id == first_id
        },
        pins@.len() > 0 ==> {
            let (counts, groups, unconstrained, assignment) = io_walk(
                pins@,
                *die,
                first_id as int,
                pins@.len() as int,
            );
            let kept = kept_bundles(counts);
            let pin_base = first_id + if any_fixed(pins@) { 20int } else { 0int };
            &&& out.has_io_clusters
            &&& out.assignment@ == assignment
            &&& out.next_id == pin_base + groups.len()
            &&& out.bundles@.len() == kept.len()
            &&& forall|j: int|
                0 <= j < kept.len() ==> is_bundle(
                    #[trigger] out.bundles@[j],
                    kept[j],
                    first_id as int,
                    *die,
                    counts[kept[j]],
                )
            &&& out.pin_clusters@.len() == groups.len()
            &&& forall|j: int|
                0 <= j < groups.len() ==> is_pin_cluster(
                    #[trigger] out.pin_clusters@[j],
                    pin_base + j,
                    groups[j].0,
                    *die,
                    groups[j].1,
                )
        },
{
    if pins.len() == 0 {
        return IoClusters {
            bundles: Vec::new(),
            pin_clusters: Vec::new(),
            assignment: Vec::new(),
            has_io_clusters: false,
            next_id: first_id,
        };
    }
    let spans = bundle_spans(die);
    let mut fixed_mode = false;
    let mut f: usize = 0;
    while f < pins.len()
        invariant
            f <= pins@.len(),
            fixed_mode == exists|i: int| 0 <= i < f && #[trigger] pins@[i].is_fixed,
        decreases pins@.len() - f,
    {
        if pins[f].is_fixed {
            fixed_mode = true;
        }
        f = f + 1;
    }
    let pin_base: i32 = if fixed_mode { first_id + 20 } else { first_id };
    let mut counts: Vec<usize> = Vec::new();
    let mut c: usize = 0;
    while c < 20
        invariant
            c <= 20,
            counts@.len() == c,
            forall|k: int| 0 <= k < c ==> counts@[k] == 0,
        decreases 20 - c,
    {
        counts.push(0);
        c = c + 1;
    }
    proof {
        assert(counts@.map_values(|v: usize| v as int) =~= io_walk(pins@, *die, first_id as int, 0).0);
    }
    let mut groups: Vec<(Option<Rect>, usize)> = Vec::new();
    let mut unconstrained: Option<usize> = None;
    let mut assignment: Vec<(usize, ClusterId)> = Vec::new();
    let mut i: usize = 0;
    while i < pins.len()
        invariant
            i <= pins@.len(),
            io_inputs_ok(pins@, *die, first_id as int),
            spans == spans_of(*die),
            fixed_mode == any_fixed(pins@),
            pin_base == first_id + if fixed_mode { 20int } else { 0int },
            counts@.len() == 20,
            counts@.map_values(|v: usize| v as int) == io_walk(pins@, *die, first_id as int, i as int).0,
            groups@.map_values(|g: (Option<Rect>, usize)| (g.0, g.1 as int)) == io_walk(
                pins@,
                *die,
                first_id as int,
                i as int,
            ).1,
            match unconstrained {
                Some(u) => io_walk(pins@, *die, first_id as int, i as int).2 == Some(u as int),
                None => io_walk(pins@, *die, first_id as int, i as int).2 is None,
            },
            assignment@ == io_walk(pins@, *die, first_id as int, i as int).3,
        decreases pins@.len() - i,
    {
        proof {
            lemma_walk_shape(pins@, *die, first_id as int, i as int);
            lemma_walk_shape(pins@, *die, first_id as int, i + 1);
        }
        let ghost before = io_walk(pins@, *die, first_id as int, i as int);
        let pin = &pins[i];
        assert(rect_ok(pins@[i as int].bbox));
        if fixed_mode && pin.is_fixed {
            proof {
                let o = offset_of(pin.bbox, *die, spans);
                assert(match o { Some(v) => i32::MIN <= v && first_id + v <= i32::MAX, None => true });
            }
            match bundle_offset(&pin.bbox, die, spans) {
                None => {},
                Some(offset) => {
                    if 0 <= offset && offset < 20 {
                        let k = offset as usize;
                        let old_count = counts[k];
                        assert(old_count as int == before.0[k as int]);
                        counts.set(k, old_count + 1);
                        proof {
                            assert(counts@.map_values(|v: usize| v as int) =~= before.0.update(
                                k as int,
                                before.0[k as int] + 1,
                            ));
                        }
                    }
                    assignment.push((i, first_id + offset));
                },
            }
        } else {
            let mut existing: Option<usize> = None;
            match &pin.constraint {
                None => {
                    existing = unconstrained;
                },
                Some(region) => {
                    let mut g: usize = 0;
                    proof {
                        reveal_with_fuel(group_with, 1);
                    }
                    while g < groups.len() && existing.is_none()
                        invariant
                            g <= groups@.len(),
                            groups@.map_values(|g: (Option<Rect>, usize)| (g.0, g.1 as int)) == before.1,
                            match existing {
                                Some(j) => group_with(before.1.take(g as int), *region) == Some(j as int),
                                None => group_with(before.1.take(g as int), *region) is None,
                            },
                        decreases groups@.len() - g,
                    {
                        proof {
                            assert(before.1.take(g + 1).drop_last() =~= before.1.take(g as int));
                            assert(before.1.take(g + 1).last() == before.1[g as int]);
                        }
                        let same = match groups[g].0 {
                            Some(r2) => r2 == *region,
                            None => false,
                        };
                        if same {
                            existing = Some(g);
                        }
                        g = g + 1;
                    }
                    proof {
                        if existing.is_none() {
                            assert(before.1.take(g as int) =~= before.1);
                        } else {
                            lemma_group_with_take(before.1, *region, g as int);
                        }
                    }
                },
            }
            match existing {
                Some(j) => {
                    proof {
                        match pin.constraint {
                            Some(r) => lemma_group_with_bounds(before.1, r),
                            None => {},
                        }
                    }
                    let entry = groups[j];
                    assert(entry.1 as int == before.1[j as int].1);
                    groups.set(j, (entry.0, entry.1 + 1));
                    assignment.push((i, pin_base + j as i32));
                    proof {
                        assert(groups@.map_values(|g: (Option<Rect>, usize)| (g.0, g.1 as int)) =~= before.1.update(
                            j as int,
                            (before.1[j as int].0, before.1[j as int].1 + 1),
                        ));
                    }
                },
                None => {
                    let n = groups.len();
                    groups.push((pin.constraint, 1));
                    if pin.constraint.is_none() {
                        unconstrained = Some(n);
                    }
                    assignment.push((i, pin_base + n as i32));
                    proof {
                        assert(groups@.map_values(|g: (Option<Rect>, usize)| (g.0, g.1 as int)) =~= before.1.push(
                            (pin.constraint, 1int),
                        ));
                    }
                },
            }
        }
        i = i + 1;
    }
    proof {
        lemma_walk_shape(pins@, *die, first_id as int, pins@.len() as int);
    }
    let ghost walk = io_walk(pins@, *die, first_id as int, pins@.len() as int);
    let ghost kept = kept_bundles(walk.0);
    let mut bundles: Vec<Cluster> = Vec::new();
    let mut k: i32 = 0;
    while k < 20
        invariant
            0 <= k <= 20,
            rect_ok(*die),
            0 <= first_id,
            first_id + 20 <= i32::MAX,
            spans == spans_of(*die),
            spans_ok(spans),
            counts@.len() == 20,
            counts@.map_values(|v: usize| v as int) == walk.0,
            kept == kept_bundles(walk.0),
            bundles@.len() == Seq::new(k as nat, |m: int| m).filter(|m: int| walk.0[m] > 0).len(),
            forall|j: int|
                0 <= j < bundles@.len() ==> is_bundle(
                    #[trigger] bundles@[j],
                    Seq::new(k as nat, |m: int| m).filter(|m: int| walk.0[m] > 0)[j],
                    first_id as int,
                    *die,
                    walk.0[Seq::new(k as nat, |m: int| m).filter(|m: int| walk.0[m] > 0)[j]],
                ),
        decreases 20 - k,
    {
        let ghost prev = Seq::new(k as nat, |m: int| m).filter(|m: int| walk.0[m] > 0);
        let ghost next = Seq::new((k + 1) as nat, |m: int| m).filter(|m: int| walk.0[m] > 0);
        proof {
            assert(Seq::new((k + 1) as nat, |m: int| m).drop_last() =~= Seq::new(k as nat, |m: int| m));
            reveal_with_fuel(Seq::<_>::filter, 1);
        }
        let count = counts[k as usize];
        assert(count as int == walk.0[k as int]);
        if count > 0 {
            let edge = ring_edge_exec(k);
            let idx = k % IO_BUNDLES_PER_EDGE;
            let mut c = Cluster::new(first_id + k, "");
            c.name = bundle_name(edge, idx);
            let rect = bundle_rect(edge, idx, die, spans);
            c.set_as_io_bundle(
                (rect.x_min as i32, rect.y_min as i32),
                (rect.x_max - rect.x_min) as i32,
                (rect.y_max - rect.y_min) as i32,
            );
            c.io_region = Some(rect);
            c.num_io_pins = count;
            bundles.push(c);
            proof {
                assert(next =~= prev.push(k as int));
            }
        } else {
            proof {
                assert(next =~= prev);
            }
        }
        k = k + 1;
    }
    proof {
        assert(Seq::new(20, |m: int| m) =~= Seq::new(20 as nat, |m: int| m));
    }
    let mut pin_clusters: Vec<Cluster> = Vec::new();
    let mut j: usize = 0;
    while j < groups.len()
        invariant
            j <= groups@.len(),
            walk == io_walk(pins@, *die, first_id as int, pins@.len() as int),
            groups@.map_values(|g: (Option<Rect>, usize)| (g.0, g.1 as int)) == walk.1,
            walk.1.len() <= pins@.len(),
            io_inputs_ok(pins@, *die, first_id as int),
            pin_base == first_id + if fixed_mode { 20int } else { 0int },
            pin_clusters@.len() == j,
            forall|m: int|
                0 <= m < j ==> is_pin_cluster(
                    #[trigger] pin_clusters@[m],
                    pin_base + m,
                    walk.1[m].0,
                    *die,
                    walk.1[m].1,
                ),
        decreases groups@.len() - j,
    {
        let entry = groups[j];
        let id: i32 = pin_base + j as i32;
        let mut name = String::from_str("ios_");
        push_signed(&mut name, id as i64);
        proof {
            reveal_strlit("ios_");
        }
        let mut c = Cluster::new(id, "");
        c.name = name;
        let shape = match entry.0 {
            Some(region) => region,
            None => *die,
        };
        proof {
            lemma_constraint_ok(pins@, *die, first_id as int, walk.1, j as int);
        }
        c.set_as_cluster_of_unplaced_io_pins(
            (shape.x_min as i32, shape.y_min as i32),
            (shape.x_max - shape.x_min) as i32,
            (shape.y_max - shape.y_min) as i32,
            entry.0.is_none(),
        );
        c.constraint_region = entry.0;
        c.io_region = entry.0;
        c.num_io_pins = entry.1;
        pin_clusters.push(c);
        j = j + 1;
    }
    IoClusters {
        bundles,
        pin_clusters,
        assignment,
        has_io_clusters: true,
        next_id: pin_base + groups.len() as i32,
    }
}

proof fn lemma_group_with_take(groups: Seq<(Option<Rect>, int)>, r: Rect, g: int)
    requires
        0 <= g <= groups.len(),
        group_with(groups.take(g), r) is Some,
    ensures
        group_with(groups, r) == group_with(groups.take(g), r),
    decreases groups.len() - g,
{
    if g < groups.len() {
        assert(groups.take(g + 1).drop_last() =~= groups.take(g));
        lemma_group_with_take(groups, r, g + 1);
    } else {
        assert(groups.take(g) =~= groups);
    }
}

/// Every group's constraint is the constraint of some pin, so it is a small enough rectangle.
proof fn lemma_constraint_ok(pins: Seq<Pin>, die: Rect, first_id: int, groups: Seq<(Option<Rect>, int)>, j: int)
    requires
        io_inputs_ok(pins, die, first_id),
        groups == io_walk(pins, die, first_id, pins.len() as int).1,
        0 <= j < groups.len(),
    ensures
        match groups[j].0 {
            Some(r) => rect_ok(r),
            None => true,
        },
{
    lemma_walk_constraints(pins, die, first_id, pins.len() as int);
}

proof fn lemma_walk_constraints(pins: Seq<Pin>, die: Rect, first_id: int, n: int)
    requires
        io_inputs_ok(pins, die, first_id),
        0 <= n <= pins.len(),
    ensures
        forall|j: int| 0 <= j < io_walk(pins, die, first_id, n).1.len() ==> match #[trigger] io_walk(pins, die, first_id, n).1[j].0 {
            Some(r) => rect_ok(r),
            None => true,
        },
    decreases n,
{
    if n > 0 {
        lemma_walk_constraints(pins, die, first_id, n - 1);
        lemma_walk_shape(pins, die, first_id, n - 1);
        let (counts, groups, u, a) = io_walk(pins, die, first_id, n - 1);
        assert(match pins[n - 1].constraint { Some(r) => rect_ok(r), None => true });
        match pins[n - 1].constraint {
            Some(r) => lemma_group_with_bounds(groups, r),
            None => {},
        }
    }
}

/// One cluster per IO pad, named after the pad instance and standing as its unhaloed box. It
/// replaces the bundle and pin-cluster path entirely; the assignment is left empty.
pub fn create_io_pad_clusters(pads: &[usize], design: &Design, first_id: ClusterId) -> (out: IoClusters)
    requires
        forall|k: int| 0 <= k < pads@.len() ==> #[trigger] pads@[k] < design.instances@.len(),
        forall|k: int| 0 <= k < pads@.len() ==> rect_ok(#[trigger] design.instances@[pads@[k] as int].bbox),
        0 <= first_id,
        first_id + pads@.len() <= i32::MAX,
    ensures
        out.bundles@.len() == 0,
        out.assignment@.len() == 0,
        out.has_io_clusters,
        out.next_id == first_id + pads@.len(),
        out.pin_clusters@.len() == pads@.len(),
        forall|k: int| 0 <= k < pads@.len() ==> {
            let c = #[trigger] out.pin_clusters@[k];
            let inst = design.instances@[pads@[k] as int];
            &&& fresh_io(c)
            &&& c.id == first_id + k
            &&& c.name@ == inst.name@
            &&& c.is_io_pad_cluster
            &&& !c.is_io_bundle
            &&& !c.is_cluster_of_unplaced_io_pins
            &&& !c.is_cluster_of_unconstrained_io_pins
            &&& c.soft_macro == Some(soft_macro_of(inst.bbox))
            &&& c.io_region is None
            &&& c.constraint_region is None
            &&& c.num_io_pins == 0
        },
{
    let mut pin_clusters: Vec<Cluster> = Vec::new();
    let mut next_id = first_id;
    let mut k: usize = 0;
    while k < pads.len()
        invariant
            k <= pads@.len(),
            forall|m: int| 0 <= m < pads@.len() ==> #[trigger] pads@[m] < design.instances@.len(),
            forall|m: int| 0 <= m < pads@.len() ==> rect_ok(#[trigger] design.instances@[pads@[m] as int].bbox),
            0 <= first_id,
            first_id + pads@.len() <= i32::MAX,
            next_id == first_id + k,
            pin_clusters@.len() == k,
            forall|m: int| 0 <= m < k ==> {
                let c = #[trigger] pin_clusters@[m];
                let inst = design.instances@[pads@[m] as int];
                &&& fresh_io(c)
                &&& c.id == first_id + m
                &&& c.name@ == inst.name@
                &&& c.is_io_pad_cluster
                &&& !c.is_io_bundle
                &&& !c.is_cluster_of_unplaced_io_pins
                &&& !c.is_cluster_of_unconstrained_io_pins
                &&& c.soft_macro == Some(soft_macro_of(inst.bbox))
                &&& c.io_region is None
                &&& c.constraint_region is None
                &&& c.num_io_pins == 0
            },
        decreases pads@.len() - k,
    {
        let p = pads[k];
        assert(p < design.instances@.len());
        let inst = &design.instances[p];
        let mut c = Cluster::new(next_id, inst.name.as_str());
        let b = inst.bbox;
        assert(rect_ok(design.instances@[pads@[k as int] as int].bbox));
        c.set_as_io_pad_cluster(
            (b.x_min as i32, b.y_min as i32),
            (b.x_max - b.x_min) as i32,
            (b.y_max - b.y_min) as i32,
        );
        pin_clusters.push(c);
        next_id = next_id + 1;
        k = k + 1;
    }
    IoClusters {
        bundles: Vec::new(),
        pin_clusters,
        assignment: Vec::new(),
        has_io_clusters: true,
        next_id,
    }
}

/// The group a lookup finds carries the constraint looked for, and a lookup that finds none
/// means no group carries it.
proof fn lemma_group_with(groups: Seq<(Option<Rect>, int)>, r: Rect)
    ensures
        match group_with(groups, r) {
            Some(j) => 0 <= j < groups.len() && groups[j].0 == Some(r),
            None => forall|j: int| 0 <= j < groups.len() ==> #[trigger] groups[j].0 != Some(r),
        },
    decreases groups.len(),
{
    if groups.len() > 0 {
        lemma_group_with(groups.drop_last(), r);
        if group_with(groups.drop_last(), r) is None {
            assert forall|j: int| 0 <= j < groups.len() - 1 implies #[trigger] groups[j].0 != Some(r) by {
                assert(groups.drop_last()[j] == groups[j]);
            }
        }
    }
}

/// What the walk keeps after `n` pins: the assignment names pins in increasing order, every
/// unfixed pin among them once; the groups carry distinct constraints; the unconstrained
/// group is the one without a constraint; and every unfixed pin's id is its group's.
pub open spec fn walk_groups_ok(pins: Seq<Pin>, first_id: int, n: int, walk: (
    Seq<int>,
    Seq<(Option<Rect>, int)>,
    Option<int>,
    Seq<(usize, ClusterId)>,
)) -> bool {
    let (counts, groups, unconstrained, assignment) = walk;
    let pin_base = first_id + if any_fixed(pins) { 20int } else { 0int };
    &&& groups.len() <= n
    &&& forall|p: int, q: int| 0 <= p < q < assignment.len() ==> #[trigger] assignment[p].0 < #[trigger] assignment[q].0
    &&& forall|p: int| 0 <= p < assignment.len() ==> #[trigger] assignment[p].0 < n
    &&& forall|i: int| 0 <= i < n && !#[trigger] pins[i].is_fixed ==> exists|p: int| 0 <= p < assignment.len() && #[trigger] assignment[p].0 == i
    &&& forall|a: int, b: int| 0 <= a < b < groups.len() ==> #[trigger] groups[a].0 != #[trigger] groups[b].0
    &&& match unconstrained {
        Some(u) => 0 <= u < groups.len() && groups[u].0 is None,
        None => forall|j: int| 0 <= j < groups.len() ==> #[trigger] groups[j].0 is Some,
    }
    &&& forall|p: int|
        0 <= p < assignment.len() && !pins[#[trigger] assignment[p].0 as int].is_fixed ==> exists|g: int|
            0 <= g < groups.len() && #[trigger] groups[g].0 == pins[assignment[p].0 as int].constraint && assignment[p].1 == pin_base + g
}

proof fn lemma_walk_groups(pins: Seq<Pin>, die: Rect, first_id: int, n: int)
    requires
        0 <= n <= pins.len(),
        0 <= first_id,
        first_id + 20 + pins.len() <= i32::MAX,
    ensures
        walk_groups_ok(pins, first_id, n, io_walk(pins, die, first_id, n)),
    decreases n,
{
    if n > 0 {
        lemma_walk_groups(pins, die, first_id, n - 1);
        let (counts, groups, unconstrained, assignment) = io_walk(pins, die, first_id, n - 1);
        let pin = pins[n - 1];
        let fixed_mode = any_fixed(pins);
        let pin_base = first_id + if fixed_mode { 20int } else { 0int };
        let w = io_walk(pins, die, first_id, n);
        if fixed_mode && pin.is_fixed {
            assert(walk_groups_ok(pins, first_id, n, w)) by {
                let a2 = w.3;
                assert forall|i: int| 0 <= i < n && !#[trigger] pins[i].is_fixed implies exists|p: int|
                    0 <= p < a2.len() && #[trigger] a2[p].0 == i by {
                    let p = choose|p: int| 0 <= p < assignment.len() && #[trigger] assignment[p].0 == i;
                    assert(a2[p] == assignment[p]);
                }
                assert forall|p: int|
                    0 <= p < a2.len() && !pins[#[trigger] a2[p].0 as int].is_fixed implies exists|g: int|
                        0 <= g < w.1.len() && #[trigger] w.1[g].0 == pins[a2[p].0 as int].constraint && a2[p].1 == pin_base + g by {
                    assert(a2[p] == assignment[p]);
                }
            }
        } else {
            if !fixed_mode {
                assert(!pin.is_fixed);
            }
            let existing = match pin.constraint {
                None => unconstrained,
                Some(r) => group_with(groups, r),
            };
            match pin.constraint {
                None => {},
                Some(r) => lemma_group_with(groups, r),
            }
            let idx = (n - 1) as usize;
            match existing {
                Some(j) => {
                    assert(groups[j].0 == pin.constraint);
                    let g2 = groups.update(j, (groups[j].0, groups[j].1 + 1));
                    let a2 = assignment.push((idx, (pin_base + j) as ClusterId));
                    assert(w == (counts, g2, unconstrained, a2));
                    assert forall|i: int| 0 <= i < n && !#[trigger] pins[i].is_fixed implies exists|p: int|
                        0 <= p < a2.len() && #[trigger] a2[p].0 == i by {
                        if i < n - 1 {
                            let p = choose|p: int| 0 <= p < assignment.len() && #[trigger] assignment[p].0 == i;
                            assert(a2[p] == assignment[p]);
                        } else {
                            assert(a2[assignment.len() as int].0 == i);
                        }
                    }
                    assert forall|p: int|
                        0 <= p < a2.len() && !pins[#[trigger] a2[p].0 as int].is_fixed implies exists|g: int|
                            0 <= g < g2.len() && #[trigger] g2[g].0 == pins[a2[p].0 as int].constraint && a2[p].1 == pin_base + g by {
                        if p < assignment.len() {
                            assert(a2[p] == assignment[p]);
                            let g = choose|g: int|
                                0 <= g < groups.len() && #[trigger] groups[g].0 == pins[assignment[p].0 as int].constraint
                                    && assignment[p].1 == pin_base + g;
                            assert(g2[g].0 == groups[g].0);
                        } else {
                            assert(g2[j].0 == pin.constraint);
                        }
                    }
                    assert forall|a: int, b: int| 0 <= a < b < g2.len() implies #[trigger] g2[a].0 != #[trigger] g2[b].0 by {
                        assert(groups[a].0 != groups[b].0);
                    }
                    assert(walk_groups_ok(pins, first_id, n, w));
                },
                None => {
                    let g2 = groups.push((pin.constraint, 1int));
                    let u2 = if pin.constraint is None { Some(groups.len() as int) } else { unconstrained };
                    let a2 = assignment.push((idx, (pin_base + groups.len()) as ClusterId));
                    assert(w == (counts, g2, u2, a2));
                    assert forall|j: int| 0 <= j < groups.len() implies #[trigger] groups[j].0 != pin.constraint by {
                        match pin.constraint {
                            None => {
                                assert(groups[j].0 is Some);
                            },
                            Some(r) => {},
                        }
                    }
                    assert forall|i: int| 0 <= i < n && !#[trigger] pins[i].is_fixed implies exists|p: int|
                        0 <= p < a2.len() && #[trigger] a2[p].0 == i by {
                        if i < n - 1 {
                            let p = choose|p: int| 0 <= p < assignment.len() && #[trigger] assignment[p].0 == i;
                            assert(a2[p] == assignment[p]);
                        } else {
                            assert(a2[assignment.len() as int].0 == i);
                        }
                    }
                    assert forall|p: int|
                        0 <= p < a2.len() && !pins[#[trigger] a2[p].0 as int].is_fixed implies exists|g: int|
                            0 <= g < g2.len() && #[trigger] g2[g].0 == pins[a2[p].0 as int].constraint && a2[p].1 == pin_base + g by {
                        if p < assignment.len() {
                            assert(a2[p] == assignment[p]);
                            let g = choose|g: int|
                                0 <= g < groups.len() && #[trigger] groups[g].0 == pins[assignment[p].0 as int].constraint
                                    && assignment[p].1 == pin_base + g;
                            assert(g2[g].0 == groups[g].0);
                        } else {
                            assert(g2[groups.len() as int].0 == pin.constraint);
                        }
                    }
                    assert forall|a: int, b: int| 0 <= a < b < g2.len() implies #[trigger] g2[a].0 != #[trigger] g2[b].0 by {
                        if b < groups.len() {
                            assert(groups[a].0 != groups[b].0);
                        } else {
                            assert(groups[a].0 != pin.constraint);
                        }
                    }
                    assert(walk_groups_ok(pins, first_id, n, w));
                },
            }
        }
    }
}

/// Every unfixed pin is assigned exactly once, and two unfixed pins share a cluster exactly
/// when their constraints are equal.
pub proof fn lemma_io_grouping(pins: Seq<Pin>, die: Rect, first_id: int)
    requires
        0 <= first_id,
        first_id + 20 + pins.len() <= i32::MAX,
    ensures
        ({
            let assignment = io_walk(pins, die, first_id, pins.len() as int).3;
            &&& forall|i: int|
                0 <= i < pins.len() && !#[trigger] pins[i].is_fixed ==> exists|p: int|
                    0 <= p < assignment.len() && #[trigger] assignment[p].0 == i
            &&& forall|p: int, q: int|
                0 <= p < assignment.len() && 0 <= q < assignment.len() && #[trigger] assignment[p].0 == #[trigger] assignment[q].0
                    ==> p == q
            &&& forall|p: int, q: int|
                0 <= p < assignment.len() && 0 <= q < assignment.len() && !pins[#[trigger] assignment[p].0 as int].is_fixed
                    && !pins[#[trigger] assignment[q].0 as int].is_fixed ==> (assignment[p].1 == assignment[q].1
                    <==> pins[assignment[p].0 as int].constraint == pins[assignment[q].0 as int].constraint)
        }),
{
    let n = pins.len() as int;
    lemma_walk_groups(pins, die, first_id, n);
    let w = io_walk(pins, die, first_id, n);
    let (counts, groups, unconstrained, assignment) = w;
    let pin_base = first_id + if any_fixed(pins) { 20int } else { 0int };
    assert forall|p: int, q: int|
        0 <= p < assignment.len() && 0 <= q < assignment.len() && #[trigger] assignment[p].0 == #[trigger] assignment[q].0
            implies p == q by {
        if p < q {
            assert(assignment[p].0 < assignment[q].0);
        } else if q < p {
            assert(assignment[q].0 < assignment[p].0);
        }
    }
    assert forall|p: int, q: int|
        0 <= p < assignment.len() && 0 <= q < assignment.len() && !pins[#[trigger] assignment[p].0 as int].is_fixed
            && !pins[#[trigger] assignment[q].0 as int].is_fixed implies (assignment[p].1 == assignment[q].1
            <==> pins[assignment[p].0 as int].constraint == pins[assignment[q].0 as int].constraint) by {
        let gp = choose|g: int|
            0 <= g < groups.len() && #[trigger] groups[g].0 == pins[assignment[p].0 as int].constraint && assignment[p].1 == pin_base + g;
        let gq = choose|g: int|
            0 <= g < groups.len() && #[trigger] groups[g].0 == pins[assignment[q].0 as int].constraint && assignment[q].1 == pin_base + g;
        if gp < gq {
            assert(groups[gp].0 != groups[gq].0);
        } else if gq < gp {
            assert(groups[gq].0 != groups[gp].0);
        }
    }
}

} // verus!
