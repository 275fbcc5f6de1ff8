//! Halo resolution: how much keep-out each side of a macro gets.

use crate::options::Halo;
use vstd::prelude::*;

verus! {

/// Which side of the macro a pin is closest to. Among equidistant sides the declaration order
/// `B, L, T, R` breaks the tie.
#[derive(Debug, Clone, Copy, PartialEq, Eq, PartialOrd, Ord, Structural)]
pub enum Boundary {
    B,
    L,
    T,
    R,
}

/// The tie-break rank of a side: its place in `B, L, T, R`.
pub open spec fn boundary_rank(b: Boundary) -> int {
    match b {
        Boundary::B => 0,
        Boundary::L => 1,
        Boundary::T => 2,
        Boundary::R => 3,
    }
}

/// Left and right are the vertical edges.
pub open spec fn boundary_is_vertical(b: Boundary) -> bool {
    b == Boundary::L || b == Boundary::R
}

impl Boundary {
    /// Whether the edge runs vertically (left and right).
    pub fn is_vertical(self) -> (r: bool)
        ensures
            r == boundary_is_vertical(self),
    {
        match self {
            Boundary::L | Boundary::R => true,
            _ => false,
        }
    }

    /// The single letter the trace prints for the side.
    pub fn name(self) -> (r: &'static str)
        ensures
            r@ == (match self {
                Boundary::B => "B"@,
                Boundary::L => "L"@,
                Boundary::T => "T"@,
                Boundary::R => "R"@,
            }),
    {
        match self {
            Boundary::B => "B",
            Boundary::L => "L",
            Boundary::T => "T",
            Boundary::R => "R",
        }
    }
}

/// Routing direction of the layer a pin sits on.
#[derive(Debug, Clone, Copy, PartialEq, Eq, Structural)]
pub enum LayerDir {
    Horizontal,
    Vertical,
}

/// A pin shape on a macro master, in master coordinates, with the direction of the pin's
/// first geometry layer.
#[derive(Debug, Clone, Copy, PartialEq, Eq, Structural)]
pub struct PinBox {
    pub x_min: i64,
    pub y_min: i64,
    pub x_max: i64,
    pub y_max: i64,
    pub layer_dir: LayerDir,
}

/// Orientation, to the extent halo resolution cares.
#[derive(Debug, Clone, Copy, PartialEq, Eq, Structural)]
pub enum Orient {
    R0,
    R180,
    Mx,
    My,
    Other,
}

/// The distance from a pin box to one side of its master.
pub open spec fn side_distance(pin: PinBox, w: i64, h: i64, b: Boundary) -> int {
    match b {
        Boundary::L => pin.x_min as int,
        Boundary::B => pin.y_min as int,
        Boundary::R => w - pin.x_max,
        Boundary::T => h - pin.y_max,
    }
}

/// Side `a` comes before side `b` when sorted by distance, then by tie-break rank.
pub open spec fn side_before(pin: PinBox, w: i64, h: i64, a: Boundary, b: Boundary) -> bool {
    side_distance(pin, w, h, a) < side_distance(pin, w, h, b) || (side_distance(pin, w, h, a)
        == side_distance(pin, w, h, b) && boundary_rank(a) < boundary_rank(b))
}

/// How many sides come before side `b`.
pub open spec fn side_position(pin: PinBox, w: i64, h: i64, b: Boundary) -> int {
    (if side_before(pin, w, h, Boundary::B, b) { 1int } else { 0int }) + (if side_before(
        pin,
        w,
        h,
        Boundary::L,
        b,
    ) { 1int } else { 0int }) + (if side_before(pin, w, h, Boundary::T, b) { 1int } else { 0int })
        + (if side_before(pin, w, h, Boundary::R, b) { 1int } else { 0int })
}

/// The side at place `k` of the sorted order.
pub open spec fn side_at(pin: PinBox, w: i64, h: i64, k: int) -> Boundary {
    if side_position(pin, w, h, Boundary::B) == k {
        Boundary::B
    } else if side_position(pin, w, h, Boundary::L) == k {
        Boundary::L
    } else if side_position(pin, w, h, Boundary::T) == k {
        Boundary::T
    } else {
        Boundary::R
    }
}

/// The side a pin is closest to: the first in (distance, rank) order, unless the first two are
/// equidistant and run in different directions, when a vertically-routed pin takes the
/// horizontal edge and a horizontally-routed pin the vertical one.
pub open spec fn closest_side(pin: PinBox, w: i64, h: i64) -> Boundary {
    let first = side_at(pin, w, h, 0);
    let second = side_at(pin, w, h, 1);
    if side_distance(pin, w, h, first) == side_distance(pin, w, h, second)
        && boundary_is_vertical(first) != boundary_is_vertical(second) {
        match pin.layer_dir {
            LayerDir::Vertical => if boundary_is_vertical(first) {
                second
            } else {
                first
            },
            LayerDir::Horizontal => if boundary_is_vertical(first) {
                first
            } else {
                second
            },
        }
    } else {
        first
    }
}

/// The distances to the right and top sides are representable.
pub open spec fn pin_in_range(pin: PinBox, w: i64, h: i64) -> bool {
    i64::MIN <= w - pin.x_max <= i64::MAX && i64::MIN <= h - pin.y_max <= i64::MAX
}

fn before(da: i64, ra: u8, db: i64, rb: u8) -> (r: bool)
    ensures
        r == (da < db || (da == db && ra < rb)),
{
    da < db || (da == db && ra < rb)
}

fn rank_of(b: Boundary) -> (r: u8)
    ensures
        r == boundary_rank(b),
{
    match b {
        Boundary::B => 0,
        Boundary::L => 1,
        Boundary::T => 2,
        Boundary::R => 3,
    }
}

fn distance_to(pin: PinBox, w: i64, h: i64, b: Boundary) -> (d: i64)
    requires
        pin_in_range(pin, w, h),
    ensures
        d == side_distance(pin, w, h, b),
{
    match b {
        Boundary::L => pin.x_min,
        Boundary::B => pin.y_min,
        Boundary::R => w - pin.x_max,
        Boundary::T => h - pin.y_max,
    }
}

fn position_of(pin: PinBox, w: i64, h: i64, b: Boundary) -> (p: u8)
    requires
        pin_in_range(pin, w, h),
    ensures
        p == side_position(pin, w, h, b),
{
    let d = distance_to(pin, w, h, b);
    let r = rank_of(b);
    let mut p: u8 = 0;
    if before(distance_to(pin, w, h, Boundary::B), 0, d, r) {
        p = p + 1;
    }
    if before(distance_to(pin, w, h, Boundary::L), 1, d, r) {
        p = p + 1;
    }
    if before(distance_to(pin, w, h, Boundary::T), 2, d, r) {
        p = p + 1;
    }
    if before(distance_to(pin, w, h, Boundary::R), 3, d, r) {
        p = p + 1;
    }
    p
}

fn boundary_at(pin: PinBox, w: i64, h: i64, k: u8) -> (b: Boundary)
    requires
        pin_in_range(pin, w, h),
    ensures
        b == side_at(pin, w, h, k as int),
{
    if position_of(pin, w, h, Boundary::B) == k {
        Boundary::B
    } else if position_of(pin, w, h, Boundary::L) == k {
        Boundary::L
    } else if position_of(pin, w, h, Boundary::T) == k {
        Boundary::T
    } else {
        Boundary::R
    }
}

/// Which boundary a pin box is closest to, with the tie-breaks of `closest_side`.
pub fn closest_boundary(pin: PinBox, master_width: i64, master_height: i64) -> (b: Boundary)
    requires
        pin_in_range(pin, master_width, master_height),
    ensures
        b == closest_side(pin, master_width, master_height),
{
    let first = boundary_at(pin, master_width, master_height, 0);
    let second = boundary_at(pin, master_width, master_height, 1);
    let equidistant_different_directions = distance_to(pin, master_width, master_height, first)
        == distance_to(pin, master_width, master_height, second) && (first.is_vertical()
        != second.is_vertical());
    if !equidistant_different_directions {
        return first;
    }
    match pin.layer_dir {
        LayerDir::Vertical => if first.is_vertical() {
            second
        } else {
            first
        },
        LayerDir::Horizontal => if first.is_vertical() {
            first
        } else {
            second
        },
    }
}

/// The componentwise larger of two halos.
pub open spec fn halo_max(a: Halo, b: Halo) -> Halo {
    Halo {
        left: if a.left >= b.left { a.left } else { b.left },
        bottom: if a.bottom >= b.bottom { a.bottom } else { b.bottom },
        right: if a.right >= b.right { a.right } else { b.right },
        top: if a.top >= b.top { a.top } else { b.top },
    }
}

/// The declared halo: an explicit one wins; a soft instance halo is taken as is; a hard one is
/// raised componentwise to the base halo; none at all means the base halo.
pub open spec fn full_halo_of(explicit: Option<Halo>, inst_halo: Option<(Halo, bool)>, base: Halo) -> Halo {
    match explicit {
        Some(h) => h,
        None => match inst_halo {
            Some((h, true)) => h,
            Some((h, false)) => halo_max(h, base),
            None => base,
        },
    }
}

/// The macro's declared halo, before pin-awareness narrows it. `inst_halo` carries the
/// instance's halo and whether it is soft.
pub fn full_halo(explicit: Option<Halo>, inst_halo: Option<(Halo, bool)>, base: Halo) -> (r: Halo)
    ensures
        r == full_halo_of(explicit, inst_halo, base),
{
    if let Some(h) = explicit {
        return h;
    }
    match inst_halo {
        Some((h, true)) => h,
        Some((h, false)) => Halo {
            left: if h.left >= base.left { h.left } else { base.left },
            bottom: if h.bottom >= base.bottom { h.bottom } else { base.bottom },
            right: if h.right >= base.right { h.right } else { base.right },
            top: if h.top >= base.top { h.top } else { base.top },
        },
        None => base,
    }
}

/// A fixed macro's halo in its placed orientation: `MX` and `R180` swap bottom and top, `MY`
/// and `R180` swap left and right.
pub open spec fn reoriented(h: Halo, orient: Orient) -> Halo {
    let flip_y = orient == Orient::Mx || orient == Orient::R180;
    let flip_x = orient == Orient::My || orient == Orient::R180;
    Halo {
        left: if flip_x { h.right } else { h.left },
        right: if flip_x { h.left } else { h.right },
        bottom: if flip_y { h.top } else { h.bottom },
        top: if flip_y { h.bottom } else { h.top },
    }
}

/// Reorient a halo for a fixed macro.
pub fn reorient_for_fixed(halo: Halo, orient: Orient) -> (r: Halo)
    ensures
        r == reoriented(halo, orient),
{
    let mut h = halo;
    match orient {
        Orient::Mx | Orient::R180 => {
            let t = h.bottom;
            h.bottom = h.top;
            h.top = t;
        },
        _ => {},
    }
    match orient {
        Orient::My | Orient::R180 => {
            let t = h.left;
            h.left = h.right;
            h.right = t;
        },
        _ => {},
    }
    h
}

/// Some pin among the first `n` is closest to side `b`.
pub open spec fn some_pin_faces(pins: Seq<PinBox>, n: int, w: i64, h: i64, b: Boundary) -> bool {
    exists|i: int| 0 <= i < n && #[trigger] closest_side(pins[i], w, h) == b
}

/// The pin-aware halo of the first `n` pins: a side is the full halo's when a pin faces it, and
/// the minimum spacing otherwise.
pub open spec fn pin_aware_of(pins: Seq<PinBox>, n: int, w: i64, h: i64, full: Halo, spacing: i64) -> Halo {
    Halo {
        left: if some_pin_faces(pins, n, w, h, Boundary::L) { full.left } else { spacing },
        bottom: if some_pin_faces(pins, n, w, h, Boundary::B) { full.bottom } else { spacing },
        right: if some_pin_faces(pins, n, w, h, Boundary::R) { full.right } else { spacing },
        top: if some_pin_faces(pins, n, w, h, Boundary::T) { full.top } else { spacing },
    }
}

/// Every pin's distances to its master's sides are representable.
pub open spec fn pins_in_range(pins: Seq<PinBox>, w: i64, h: i64) -> bool {
    forall|i: int| 0 <= i < pins.len() ==> #[trigger] pin_in_range(pins[i], w, h)
}

/// The pin-aware halo: the minimum spacing on every side, widened to the full halo on each side
/// that some signal pin is closest to.
pub fn pin_aware_halo(
    pins: &[PinBox],
    master_width: i64,
    master_height: i64,
    full: Halo,
    minimum_spacing: i64,
) -> (r: Halo)
    requires
        pins_in_range(pins@, master_width, master_height),
    ensures
        r == pin_aware_of(pins@, pins@.len() as int, master_width, master_height, full, minimum_spacing),
{
    let mut halo = Halo {
        left: minimum_spacing,
        bottom: minimum_spacing,
        right: minimum_spacing,
        top: minimum_spacing,
    };
    let mut i: usize = 0;
    while i < pins.len()
        invariant
            i <= pins@.len(),
            pins_in_range(pins@, master_width, master_height),
            halo == pin_aware_of(pins@, i as int, master_width, master_height, full, minimum_spacing),
        decreases pins@.len() - i,
    {
        let pin = pins[i];
        assert(pin_in_range(pins@[i as int], master_width, master_height));
        let side = closest_boundary(pin, master_width, master_height);
        match side {
            Boundary::B => halo.bottom = full.bottom,
            Boundary::L => halo.left = full.left,
            Boundary::T => halo.top = full.top,
            Boundary::R => halo.right = full.right,
        }
        proof {
            let w = master_width;
            let h = master_height;
            let n = i as int;
            assert forall|b: Boundary| #[trigger]
                some_pin_faces(pins@, n + 1, w, h, b) == (some_pin_faces(pins@, n, w, h, b)
                    || b == side) by {
                if some_pin_faces(pins@, n, w, h, b) {
                    let j = choose|j: int| 0 <= j < n && #[trigger] closest_side(pins@[j], w, h) == b;
                    assert(0 <= j < n + 1 && closest_side(pins@[j], w, h) == b);
                }
                if b == side {
                    assert(closest_side(pins@[n], w, h) == b);
                }
                if some_pin_faces(pins@, n + 1, w, h, b) && b != side {
                    let j = choose|j: int| 0 <= j < n + 1 && #[trigger] closest_side(pins@[j], w, h) == b;
                    assert(j != n);
                    assert(0 <= j < n && closest_side(pins@[j], w, h) == b);
                }
            }
            assert(some_pin_faces(pins@, n + 1, w, h, Boundary::B) == (some_pin_faces(pins@, n, w, h, Boundary::B) || Boundary::B == side));
            assert(some_pin_faces(pins@, n + 1, w, h, Boundary::L) == (some_pin_faces(pins@, n, w, h, Boundary::L) || Boundary::L == side));
            assert(some_pin_faces(pins@, n + 1, w, h, Boundary::T) == (some_pin_faces(pins@, n, w, h, Boundary::T) || Boundary::T == side));
            assert(some_pin_faces(pins@, n + 1, w, h, Boundary::R) == (some_pin_faces(pins@, n, w, h, Boundary::R) || Boundary::R == side));
        }
        i = i + 1;
    }
    halo
}

/// The whole rule: an explicit halo is taken as written; otherwise the full halo when asked
/// for, else the pin-aware halo, reoriented when the macro is fixed.
pub open spec fn macro_halo_of(
    explicit: Option<Halo>,
    inst_halo: Option<(Halo, bool)>,
    base: Halo,
    use_full_halo: bool,
    pins: Seq<PinBox>,
    w: i64,
    h: i64,
    spacing: i64,
    is_fixed: bool,
    orient: Orient,
) -> Halo {
    match explicit {
        Some(e) => e,
        None => {
            let full = full_halo_of(None, inst_halo, base);
            if use_full_halo {
                full
            } else {
                let p = pin_aware_of(pins, pins.len() as int, w, h, full, spacing);
                if is_fixed {
                    reoriented(p, orient)
                } else {
                    p
                }
            }
        },
    }
}

/// The macro's halo, by the whole rule in order.
#[allow(clippy::too_many_arguments)]
pub fn build_macro_halo(
    explicit: Option<Halo>,
    inst_halo: Option<(Halo, bool)>,
    base: Halo,
    use_full_halo: bool,
    pins: &[PinBox],
    master_width: i64,
    master_height: i64,
    minimum_spacing: i64,
    is_fixed: bool,
    orient: Orient,
) -> (r: Halo)
    requires
        pins_in_range(pins@, master_width, master_height),
    ensures
        r == macro_halo_of(
            explicit,
            inst_halo,
            base,
            use_full_halo,
            pins@,
            master_width,
            master_height,
            minimum_spacing,
            is_fixed,
            orient,
        ),
{
    if let Some(h) = explicit {
        return h;
    }
    let full = full_halo(None, inst_halo, base);
    if use_full_halo {
        return full;
    }
    let halo = pin_aware_halo(pins, master_width, master_height, full, minimum_spacing);
    if is_fixed {
        return reorient_for_fixed(halo, orient);
    }
    halo
}

/// Reorienting twice by the same orientation gives back the halo.
pub proof fn lemma_reorient_is_involution(h: Halo, orient: Orient)
    ensures
        reoriented(reoriented(h, orient), orient) == h,
{
}

/// Only a fixed macro's orientation matters to its halo. An explicit halo is taken as
/// written; a movable macro's halo is the same in every orientation and, without a full-halo
/// request, is exactly the pin-aware narrowing of its declared halo; a fixed macro's is that
/// narrowing with its sides swapped as its orientation mirrors them, so at R0 it is the
/// movable macro's.
pub proof fn lemma_only_fixed_macros_reorient(
    explicit: Option<Halo>,
    inst_halo: Option<(Halo, bool)>,
    base: Halo,
    use_full_halo: bool,
    pins: Seq<PinBox>,
    w: i64,
    h: i64,
    spacing: i64,
    o1: Orient,
    o2: Orient,
)
    ensures
        explicit matches Some(e) ==> macro_halo_of(explicit, inst_halo, base, use_full_halo, pins, w, h, spacing, true, o1) == e
            && macro_halo_of(explicit, inst_halo, base, use_full_halo, pins, w, h, spacing, false, o1) == e,
        macro_halo_of(explicit, inst_halo, base, use_full_halo, pins, w, h, spacing, false, o1) == macro_halo_of(
            explicit,
            inst_halo,
            base,
            use_full_halo,
            pins,
            w,
            h,
            spacing,
            false,
            o2,
        ),
        macro_halo_of(None, inst_halo, base, false, pins, w, h, spacing, false, o1) == pin_aware_of(
            pins,
            pins.len() as int,
            w,
            h,
            full_halo_of(None, inst_halo, base),
            spacing,
        ),
        macro_halo_of(None, inst_halo, base, false, pins, w, h, spacing, true, Orient::R0) == macro_halo_of(
            None,
            inst_halo,
            base,
            false,
            pins,
            w,
            h,
            spacing,
            false,
            o1,
        ),
        ({
            let p = pin_aware_of(pins, pins.len() as int, w, h, full_halo_of(None, inst_halo, base), spacing);
            let f = macro_halo_of(None, inst_halo, base, false, pins, w, h, spacing, true, Orient::R180);
            f.left == p.right && f.right == p.left && f.bottom == p.top && f.top == p.bottom
        }),
{
}

/// With no signal pins, every side of the pin-aware halo is the minimum spacing.
pub proof fn lemma_no_pins_gives_minimum_spacing(w: i64, h: i64, full: Halo, spacing: i64)
    ensures
        pin_aware_of(Seq::<PinBox>::empty(), 0, w, h, full, spacing) == (Halo {
            left: spacing,
            bottom: spacing,
            right: spacing,
            top: spacing,
        }),
{
}

} // verus!
