//! The geometry the wirelength model measures: pins, the outline, and the die-edge regions
//! that unplaced IO pins may sit on.

use crate::arith::quot;
use crate::halo::Boundary;
use crate::ioclusters::saturate_i32;
use vstd::prelude::*;

verus! {

/// A stretch of a die edge, as the placement stage sees it; always a line.
#[derive(Debug, Clone, Copy, PartialEq, Eq, Structural)]
pub struct Region {
    pub x0: i32,
    pub y0: i32,
    pub x1: i32,
    pub y1: i32,
    pub boundary: Boundary,
}

/// The point of a region nearest a target: a vertical edge clamps in y and keeps the line's x,
/// a horizontal one clamps in x; a target level with an endpoint snaps to that endpoint.
pub open spec fn nearest_point(region: Region, target: (i32, i32)) -> (i32, i32) {
    let (tx, ty) = target;
    if region.boundary == Boundary::L || region.boundary == Boundary::R {
        if ty >= region.y1 {
            (region.x1, region.y1)
        } else if ty <= region.y0 {
            (region.x0, region.y0)
        } else {
            (region.x0, ty)
        }
    } else {
        if tx >= region.x1 {
            (region.x1, region.y1)
        } else if tx <= region.x0 {
            (region.x0, region.y0)
        } else {
            (tx, region.y0)
        }
    }
}

/// The closest point of a boundary line to a target.
pub fn nearest_point_in_region(region: &Region, target: (i32, i32)) -> (r: (i32, i32))
    ensures
        r == nearest_point(*region, target),
{
    let (tx, ty) = target;
    if region.boundary.is_vertical() {
        if ty >= region.y1 {
            return (region.x1, region.y1);
        }
        if ty <= region.y0 {
            return (region.x0, region.y0);
        }
        return (region.x0, ty);
    }
    if tx >= region.x1 {
        return (region.x1, region.y1);
    }
    if tx <= region.x0 {
        return (region.x0, region.y0);
    }
    (tx, region.y0)
}

/// The squared distance from a point to a region's nearest point.
pub open spec fn squared_distance(source: (i32, i32), region: Region) -> int {
    let (nx, ny) = nearest_point(region, source);
    (nx - source.0) * (nx - source.0) + (ny - source.1) * (ny - source.1)
}

/// The smallest squared distance to any of the first `n` regions, or `i64::MAX` when `n` is 0.
pub open spec fn smallest_squared(source: (i32, i32), regions: Seq<Region>, n: int) -> int
    decreases n,
{
    if n <= 0 {
        i64::MAX as int
    } else {
        let prev = smallest_squared(source, regions, n - 1);
        let d = squared_distance(source, regions[n - 1]);
        if d < prev { d } else { prev }
    }
}

/// Every region's offsets from the source fit 32 bits and its squared distance 64 bits.
pub open spec fn distances_fit(source: (i32, i32), regions: Seq<Region>) -> bool {
    forall|k: int|
        0 <= k < regions.len() ==> {
            let (nx, ny) = #[trigger] nearest_point(regions[k], source);
            &&& i32::MIN <= nx - source.0 <= i32::MAX
            &&& i32::MIN <= ny - source.1 <= i32::MAX
            &&& squared_distance(source, regions[k]) <= i64::MAX
        }
}

/// The squared distance to the nearest region, minimised on the squared value; `None` for an
/// empty list. The distance itself is its square root, truncated.
pub fn nearest_region_squared_distance(source: (i32, i32), regions: &[Region]) -> (r: Option<i64>)
    requires
        distances_fit(source, regions@),
    ensures
        regions@.len() == 0 ==> r is None,
        regions@.len() > 0 ==> r == Some(smallest_squared(source, regions@, regions@.len() as int) as i64),
{
    let mut smallest: i64 = i64::MAX;
    let mut k: usize = 0;
    while k < regions.len()
        invariant
            k <= regions@.len(),
            distances_fit(source, regions@),
            smallest == smallest_squared(source, regions@, k as int),
        decreases regions@.len() - k,
    {
        let (nx, ny) = nearest_point_in_region(&regions[k], source);
        assert(nearest_point(regions@[k as int], source) == (nx, ny));
        let dx = (nx - source.0) as i64;
        let dy = (ny - source.1) as i64;
        proof {
            assert(dx * dx >= 0) by (nonlinear_arith);
            assert(dy * dy >= 0) by (nonlinear_arith);
        }
        let squared = dx * dx + dy * dy;
        if squared < smallest {
            smallest = squared;
        }
        k = k + 1;
    }
    if regions.len() == 0 {
        return None;
    }
    Some(smallest)
}

/// A macro's pin at its centre, `origin + extent / 2` truncated toward zero and saturated to
/// 32 bits, as the floating-point form computes it exactly.
pub open spec fn centre(origin: int, extent: int) -> int {
    saturate_i32(quot(2 * origin + extent, 2))
}

/// The macro's centre on one axis.
pub fn pin_center(origin: i32, extent: i32) -> (r: i32)
    ensures
        r == centre(origin as int, extent as int),
{
    let twice: i64 = 2 * (origin as i64) + extent as i64;
    let half: i64 = if twice >= 0 { twice / 2 } else { -((-twice) / 2) };
    if half > i32::MAX as i64 {
        i32::MAX
    } else if half < i32::MIN as i64 {
        i32::MIN
    } else {
        half as i32
    }
}

/// A macro, as the wirelength model needs to see it.
#[derive(Debug, Clone, Copy, PartialEq, Eq)]
pub struct WirelengthMacro {
    pub x: i32,
    pub y: i32,
    pub width: i32,
    pub height: i32,
    /// Only the net's target is ever tested for this.
    pub is_cluster_of_unplaced_io_pins: bool,
    pub is_unconstrained_io_cluster: bool,
    /// A hard macro's pin offset, master-relative and halo-adjusted.
    pub pin_offset: Option<(i32, i32)>,
}

/// Where a macro's pin is: its origin plus the hard macro's pin offset, or its centre.
pub open spec fn pin_of(m: WirelengthMacro) -> (int, int) {
    match m.pin_offset {
        Some((dx, dy)) => (m.x + dx, m.y + dy),
        None => (centre(m.x as int, m.width as int), centre(m.y as int, m.height as int)),
    }
}

/// The pin fits 32 bits.
pub open spec fn pin_fits(m: WirelengthMacro) -> bool {
    match m.pin_offset {
        Some((dx, dy)) => i32::MIN <= m.x + dx <= i32::MAX && i32::MIN <= m.y + dy <= i32::MAX,
        None => true,
    }
}

impl WirelengthMacro {
    /// The macro's pin.
    pub fn pin(&self) -> (r: (i32, i32))
        requires
            pin_fits(*self),
        ensures
            r.0 == pin_of(*self).0,
            r.1 == pin_of(*self).1,
    {
        match self.pin_offset {
            Some((dx, dy)) => (self.x + dx, self.y + dy),
            None => (pin_center(self.x, self.width), pin_center(self.y, self.height)),
        }
    }
}

/// The pin lies beyond the outline's dimensions on either axis; a pin exactly on the boundary
/// is inside.
pub fn is_outside_the_outline(macro_: &WirelengthMacro, outline: (i32, i32)) -> (r: bool)
    requires
        pin_fits(*macro_),
    ensures
        r == (pin_of(*macro_).0 > outline.0 || pin_of(*macro_).1 > outline.1),
{
    let (px, py) = macro_.pin();
    px > outline.0 || py > outline.1
}

} // verus!
