//! Snapping a placed macro so its pins land on the routing tracks.

use crate::arith::{div_trunc32, quot};
use crate::halo::Orient;
use crate::placement::orient::in_i32;
use vstd::prelude::*;

verus! {

/// Which axis a snap pass constrains: vertical layers have vertical tracks, whose positions
/// are x coordinates.
#[derive(Debug, Clone, Copy, PartialEq, Eq, Structural)]
pub enum SnapAxis {
    /// Vertical layers, vertical tracks, x positions.
    Vertical,
    /// Horizontal layers, horizontal tracks, y positions.
    Horizontal,
}

/// Whether a pass negates the offset for this orientation: `MY` and `R180` on the vertical
/// pass, `MX` and `R180` on the horizontal one; no rotation is handled.
pub open spec fn negates(orient: Orient, axis: SnapAxis) -> bool {
    match axis {
        SnapAxis::Vertical => orient == Orient::My || orient == Orient::R180,
        SnapAxis::Horizontal => orient == Orient::Mx || orient == Orient::R180,
    }
}

/// The pin's offset before any negation: the master terminal's low edge plus half the placed
/// pin's width, the half truncated.
pub open spec fn raw_pin_offset(pin_width: i32, mterm_min: i32) -> int {
    mterm_min + quot(pin_width as int, 2)
}

/// Where a pin's centre sits relative to the macro's origin, along the pass's axis.
pub fn pin_offset(pin_width: i32, mterm_min: i32, orient: Orient, axis: SnapAxis) -> (r: i32)
    requires
        i32::MIN < raw_pin_offset(pin_width, mterm_min) <= i32::MAX,
    ensures
        r == if negates(orient, axis) { -raw_pin_offset(pin_width, mterm_min) } else { raw_pin_offset(pin_width, mterm_min) },
{
    let offset = mterm_min + div_trunc32(pin_width, 2);
    let negate = match axis {
        SnapAxis::Vertical => match orient {
            Orient::My | Orient::R180 => true,
            _ => false,
        },
        SnapAxis::Horizontal => match orient {
            Orient::Mx | Orient::R180 => true,
            _ => false,
        },
    };
    if negate {
        -offset
    } else {
        offset
    }
}

/// The absolute value.
pub open spec fn magnitude(v: int) -> int {
    if v < 0 { -v } else { v }
}

/// `a / b` rounded to the nearest integer, a half rounding away from zero.
pub open spec fn round_quot(a: int, b: int) -> int {
    let r = (2 * magnitude(a) + magnitude(b)) / (2 * magnitude(b));
    if (a < 0) != (b < 0) && a != 0 { -r } else { r }
}

/// A value clamped into 32 bits, as a float converted to an integer is.
pub open spec fn saturate(v: int) -> int {
    if v < i32::MIN { i32::MIN as int } else if v > i32::MAX { i32::MAX as int } else { v }
}

/// The origin rounded to the nearest multiple of the manufacturing grid, a half rounding away
/// from zero; a grid of zero gives zero.
pub open spec fn grid_aligned(origin: i32, grid: i32) -> int {
    if grid == 0 { 0 } else { saturate(round_quot(origin as int, grid as int) * grid) }
}

/// Align an origin with the manufacturing grid. The quotient and the product are exact
/// integers here; the rounding is half away from zero and the result saturates, and a zero
/// grid, whose quotient is not a number, gives zero.
pub fn align_with_manufacturing_grid(origin: i32, manufacturing_grid: i32) -> (r: i32)
    ensures
        r == grid_aligned(origin, manufacturing_grid),
{
    if manufacturing_grid == 0 {
        return 0;
    }
    let a = origin as i64;
    let b = manufacturing_grid as i64;
    let n: i64 = if a < 0 { -a } else { a };
    let d: i64 = if b < 0 { -b } else { b };
    let r: i64 = (2 * n + d) / (2 * d);
    proof {
        assert(r <= (2 * n + d) / 2) by (nonlinear_arith)
            requires
                r == (2 * n + d) / (2 * d),
                d >= 1,
                n >= 0,
        ;
        assert(r >= 0) by (nonlinear_arith)
            requires
                r == (2 * n + d) / (2 * d),
                d >= 1,
                n >= 0,
        ;
        assert(r * d <= n + d) by (nonlinear_arith)
            requires
                r == (2 * n + d) / (2 * d),
                d >= 1,
                n >= 0,
        ;
    }
    let q: i64 = if (a < 0) != (b < 0) && a != 0 { -r } else { r };
    proof {
        assert(-(n + d) <= q * b <= n + d) by (nonlinear_arith)
            requires
                r * d <= n + d,
                r >= 0,
                q == r || q == -r,
                b == d || b == -d,
                d >= 1,
        ;
    }
    let v = q * b;
    if v < i32::MIN as i64 {
        i32::MIN
    } else if v > i32::MAX as i64 {
        i32::MAX
    } else {
        v as i32
    }
}

/// The origin that puts the pin on a position, then aligned with the manufacturing grid,
/// which has the last word and may move the pin off the track again.
pub fn snap_origin_to_position(position: i32, pin_offset: i32, manufacturing_grid: i32) -> (r: i32)
    requires
        in_i32(position - pin_offset),
    ensures
        r == grid_aligned((position - pin_offset) as i32, manufacturing_grid),
{
    align_with_manufacturing_grid(position - pin_offset, manufacturing_grid)
}

/// Ascending.
pub open spec fn ascending(s: Seq<i32>) -> bool {
    forall|a: int, b: int| 0 <= a <= b < s.len() ==> s[a] <= s[b]
}

/// The track a snap starts from: the first at or after the pin's centre, or the last when
/// the pin is past every track; None without tracks.
pub fn starting_position_index(positions: &[i32], pin_center: i32) -> (r: Option<usize>)
    requires
        ascending(positions@),
    ensures
        positions@.len() == 0 <==> r is None,
        r matches Some(i) ==> i < positions@.len() && {
            let first = if positions@[i as int] >= pin_center { i as int } else { positions@.len() as int };
            &&& forall|j: int| 0 <= j < first ==> positions@[j] < pin_center
            &&& (positions@[i as int] >= pin_center || i + 1 == positions@.len())
        },
{
    if positions.len() == 0 {
        return None;
    }
    let mut k: usize = 0;
    while k < positions.len()
        invariant
            k <= positions@.len(),
            forall|j: int| 0 <= j < k ==> positions@[j] < pin_center,
        decreases positions@.len() - k,
    {
        if positions[k] >= pin_center {
            return Some(k);
        }
        k = k + 1;
    }
    Some(k - 1)
}

/// The spiral's `i`-th step: `0, +1, -1, +2, -2, ...`, positive first.
pub open spec fn spiral(i: int) -> int {
    if i >= 0 && i % 2 == 1 { (i + 1) / 2 } else { -quot(i, 2) }
}

/// One step of the outward spiral around the starting track.
pub fn spiral_step(i: i32) -> (r: i32)
    requires
        i < i32::MAX,
    ensures
        r == spiral(i as int),
{
    if i >= 0 {
        let u = i as u32;
        if u % 2 == 1 {
            ((u + 1) / 2) as i32
        } else {
            -((u / 2) as i32)
        }
    } else {
        let h = div_trunc32(i, 2);
        proof {
            assert(quot(i as int, 2) >= i / 2 - 1);
        }
        -h
    }
}

/// The pins aligned by a merge of two ascending lists from pin `i` and track `j`: an equal
/// pair counts and moves the pin on, a pin short of the track is dropped, a track short of
/// the pin is skipped; pins past the last track are never examined.
pub open spec fn aligned_from(pins: Seq<i32>, positions: Seq<i32>, i: int, j: int) -> int
    decreases pins.len() - i + positions.len() - j,
{
    if i < 0 || j < 0 || i >= pins.len() || j >= positions.len() {
        0
    } else if pins[i] == positions[j] {
        1 + aligned_from(pins, positions, i + 1, j)
    } else if pins[i] < positions[j] {
        aligned_from(pins, positions, i + 1, j)
    } else {
        aligned_from(pins, positions, i, j + 1)
    }
}

proof fn lemma_aligned_bounded(pins: Seq<i32>, positions: Seq<i32>, i: int, j: int)
    requires
        0 <= i <= pins.len(),
        0 <= j <= positions.len(),
    ensures
        0 <= aligned_from(pins, positions, i, j) <= pins.len() - i,
    decreases pins.len() - i + positions.len() - j,
{
    if i < pins.len() && j < positions.len() {
        if pins[i] == positions[j] {
            lemma_aligned_bounded(pins, positions, i + 1, j);
        } else if pins[i] < positions[j] {
            lemma_aligned_bounded(pins, positions, i + 1, j);
        } else {
            lemma_aligned_bounded(pins, positions, i, j + 1);
        }
    }
}

/// How many of a layer's pins sit exactly on a track.
pub fn aligned_pins_on_layer(pin_centers: &[i32], positions: &[i32]) -> (r: usize)
    ensures
        r == aligned_from(pin_centers@, positions@, 0, 0),
        r <= pin_centers@.len(),
{
    let mut aligned: usize = 0;
    let mut i: usize = 0;
    let mut j: usize = 0;
    proof {
        lemma_aligned_bounded(pin_centers@, positions@, 0, 0);
    }
    while i < pin_centers.len() && j < positions.len()
        invariant
            i <= pin_centers@.len(),
            j <= positions@.len(),
            aligned + aligned_from(pin_centers@, positions@, i as int, j as int) == aligned_from(pin_centers@, positions@, 0, 0),
            aligned <= i,
        decreases pin_centers@.len() - i + positions@.len() - j,
    {
        proof {
            lemma_aligned_bounded(pin_centers@, positions@, i as int, j as int);
        }
        if pin_centers[i] == positions[j] {
            aligned = aligned + 1;
            i = i + 1;
        } else if pin_centers[i] < positions[j] {
            i = i + 1;
        } else {
            j = j + 1;
        }
    }
    aligned
}

/// The result of the extra-pattern search.
#[derive(Debug, Clone, Copy, PartialEq, Eq, Structural)]
pub struct SnapSearch {
    pub best_index: usize,
    pub best_aligned: usize,
    /// False when not every pin could be aligned.
    pub all_aligned: bool,
}

/// The best track and its count after the first `n` steps of the spiral, and whether the
/// search stopped: a step off either end is skipped, a candidate must strictly beat the best
/// so far, which starts at zero on the starting track, and the search stops once every pin
/// is aligned.
pub open spec fn search_walk(start: int, counts: Seq<usize>, total: int, n: int) -> (int, int, bool)
    decreases n,
{
    if n <= 0 {
        (start, 0, false)
    } else {
        let (best_index, best, done) = search_walk(start, counts, total, n - 1);
        let current = start + spiral(n - 1);
        if done || current < 0 || current >= counts.len() {
            (best_index, best, done)
        } else if counts[current] > best {
            (current, counts[current] as int, counts[current] == total)
        } else {
            (best_index, best, done)
        }
    }
}

/// The extra-pattern search: the alternating spiral of 101 steps about the starting track,
/// over the aligned count each track would give.
pub fn search_extra_patterns(start_index: usize, total_pins: usize, aligned_counts: &[usize]) -> (r: SnapSearch)
    requires
        start_index < 0x4000_0000,
        aligned_counts@.len() < 0x4000_0000,
    ensures
        r.best_index == search_walk(start_index as int, aligned_counts@, total_pins as int, 101).0,
        r.best_aligned == search_walk(start_index as int, aligned_counts@, total_pins as int, 101).1,
        r.all_aligned == (r.best_aligned == total_pins),
{
    let mut best_index: usize = start_index;
    let mut best_aligned: usize = 0;
    let mut done = false;
    let mut i: i32 = 0;
    while i <= 100
        invariant
            0 <= i <= 101,
            start_index < 0x4000_0000,
            aligned_counts@.len() < 0x4000_0000,
            (best_index as int, best_aligned as int, done) == search_walk(start_index as int, aligned_counts@, total_pins as int, i as int),
        decreases 101 - i,
    {
        let step = spiral_step(i);
        proof {
            assert(-51 <= spiral(i as int) <= 51);
        }
        let current: i64 = start_index as i64 + step as i64;
        if !done && 0 <= current && current < aligned_counts.len() as i64 {
            let aligned = aligned_counts[current as usize];
            if aligned > best_aligned {
                best_aligned = aligned;
                best_index = current as usize;
                done = best_aligned == total_pins;
            }
        }
        i = i + 1;
    }
    SnapSearch { best_index, best_aligned, all_aligned: best_aligned == total_pins }
}

/// One pairing of a terminal with one of its master pins, before filtering; a terminal with
/// several master pins on matching layers appears once for each.
#[derive(Debug, Clone, Copy, PartialEq, Eq, Structural)]
pub struct SnapPinCandidate {
    pub iterm: usize,
    /// Only signal terminals are considered.
    pub is_signal: bool,
    /// The layer of the pin's first geometry.
    pub layer: usize,
    pub layer_number: i32,
    pub layer_is_vertical: bool,
    pub has_track_grid: bool,
    pub center: i32,
}

/// One layer's worth of snapping data: its terminals sorted by centre.
#[derive(Debug, Clone, PartialEq, Eq)]
pub struct SnapLayerData {
    pub layer: usize,
    pub layer_number: i32,
    pub pins: Vec<usize>,
}

/// A layer with no track grid.
#[derive(Debug, Clone, Copy, PartialEq, Eq, Structural)]
pub struct MissingTrackGrid(pub usize);

/// A candidate the pass looks at: a signal pin on a layer running in the pass's direction.
pub open spec fn kept(c: SnapPinCandidate, axis: SnapAxis) -> bool {
    c.is_signal && c.layer_is_vertical == (axis == SnapAxis::Vertical)
}

/// The layer of the first of the first `n` kept candidates whose layer has no track grid.
pub open spec fn first_missing(cs: Seq<SnapPinCandidate>, axis: SnapAxis, n: int) -> Option<usize>
    decreases n,
{
    if n <= 0 {
        None
    } else {
        match first_missing(cs, axis, n - 1) {
            Some(l) => Some(l),
            None => if kept(cs[n - 1], axis) && !cs[n - 1].has_track_grid { Some(cs[n - 1].layer) } else { None },
        }
    }
}

/// Layer `a` comes before layer `b`: by layer number, then by the layer itself.
pub open spec fn layer_before(a: (usize, i32), b: (usize, i32)) -> bool {
    a.1 < b.1 || (a.1 == b.1 && a.0 < b.0)
}

/// The number of leading layers that come before `x`.
pub open spec fn layers_before(order: Seq<(usize, i32)>, x: (usize, i32), n: int) -> int
    decreases n,
{
    if n <= 0 {
        0
    } else if layers_before(order, x, n - 1) == n - 1 && layer_before(order[n - 1], x) {
        n
    } else {
        layers_before(order, x, n - 1)
    }
}

/// Whether the layer is already listed.
pub open spec fn has_layer(order: Seq<(usize, i32)>, layer: usize) -> bool {
    exists|k: int| 0 <= k < order.len() && #[trigger] order[k].0 == layer
}

/// The layers of the first `n` kept candidates, each with the layer number of its first
/// candidate, in order of layer number and then layer.
pub open spec fn layer_order(cs: Seq<SnapPinCandidate>, axis: SnapAxis, n: int) -> Seq<(usize, i32)>
    decreases n,
{
    if n <= 0 {
        Seq::empty()
    } else {
        let prev = layer_order(cs, axis, n - 1);
        let c = cs[n - 1];
        if !kept(c, axis) || has_layer(prev, c.layer) {
            prev
        } else {
            let x = (c.layer, c.layer_number);
            prev.insert(layers_before(prev, x, prev.len() as int), x)
        }
    }
}

/// The number of leading pins whose centre is at most `center`.
pub open spec fn pins_not_after(pins: Seq<(i32, usize)>, center: i32, n: int) -> int
    decreases n,
{
    if n <= 0 {
        0
    } else if pins_not_after(pins, center, n - 1) == n - 1 && pins[n - 1].0 <= center {
        n
    } else {
        pins_not_after(pins, center, n - 1)
    }
}

/// The pins of the first `n` kept candidates on this layer, as `(centre, terminal)`, sorted
/// by centre with equal centres kept in candidate order.
pub open spec fn layer_pins(cs: Seq<SnapPinCandidate>, axis: SnapAxis, layer: usize, n: int) -> Seq<(i32, usize)>
    decreases n,
{
    if n <= 0 {
        Seq::empty()
    } else {
        let prev = layer_pins(cs, axis, layer, n - 1);
        let c = cs[n - 1];
        if kept(c, axis) && c.layer == layer {
            prev.insert(pins_not_after(prev, c.center, prev.len() as int), (c.center, c.iterm))
        } else {
            prev
        }
    }
}

/// The terminals of a sorted pin list.
pub open spec fn terminals_of(pins: Seq<(i32, usize)>) -> Seq<usize> {
    pins.map_values(|p: (i32, usize)| p.1)
}

/// The snapping data for one pass.
pub open spec fn layer_data_ok(data: Seq<SnapLayerData>, cs: Seq<SnapPinCandidate>, axis: SnapAxis) -> bool {
    let order = layer_order(cs, axis, cs.len() as int);
    &&& data.len() == order.len()
    &&& forall|k: int| 0 <= k < order.len() ==> {
        &&& (#[trigger] data[k]).layer == order[k].0
        &&& data[k].layer_number == order[k].1
        &&& data[k].pins@ == terminals_of(layer_pins(cs, axis, order[k].0, cs.len() as int))
    }
}

/// The count of leading layers before `x`, by a scan.
fn count_layers_before(order: &Vec<(usize, i32)>, x: (usize, i32)) -> (r: usize)
    ensures
        r == layers_before(order@, x, order@.len() as int),
{
    let mut k: usize = 0;
    let mut still = true;
    let mut count: usize = 0;
    while k < order.len()
        invariant
            k <= order@.len(),
            count <= k,
            count == layers_before(order@, x, k as int),
            still == (count == k),
        decreases order@.len() - k,
    {
        let (l, num) = order[k];
        if still && (num < x.1 || (num == x.1 && l < x.0)) {
            count = k + 1;
        } else {
            still = false;
        }
        k = k + 1;
    }
    count
}

/// The count of leading pins not after `center`, by a scan.
fn count_pins_not_after(pins: &Vec<(i32, usize)>, center: i32) -> (r: usize)
    ensures
        r == pins_not_after(pins@, center, pins@.len() as int),
{
    let mut k: usize = 0;
    let mut still = true;
    let mut count: usize = 0;
    while k < pins.len()
        invariant
            k <= pins@.len(),
            count <= k,
            count == pins_not_after(pins@, center, k as int),
            still == (count == k),
        decreases pins@.len() - k,
    {
        if still && pins[k].0 <= center {
            count = k + 1;
        } else {
            still = false;
        }
        k = k + 1;
    }
    count
}

proof fn lemma_layers_before_bounded(order: Seq<(usize, i32)>, x: (usize, i32), n: int)
    requires
        0 <= n,
    ensures
        0 <= layers_before(order, x, n) <= n,
    decreases n,
{
    if n > 0 {
        lemma_layers_before_bounded(order, x, n - 1);
    }
}

proof fn lemma_pins_not_after_bounded(pins: Seq<(i32, usize)>, center: i32, n: int)
    requires
        0 <= n,
    ensures
        0 <= pins_not_after(pins, center, n) <= n,
    decreases n,
{
    if n > 0 {
        lemma_pins_not_after_bounded(pins, center, n - 1);
    }
}

/// The snapping data of one pass: the kept candidates grouped by layer, the layers in order
/// of layer number, each layer's terminals sorted by centre; a terminal appears once per
/// matching master pin. The first kept candidate on a layer without a track grid refuses the
/// pass.
pub fn snap_layer_data(candidates: &[SnapPinCandidate], axis: SnapAxis) -> (r: Result<Vec<SnapLayerData>, MissingTrackGrid>)
    ensures
        first_missing(candidates@, axis, candidates@.len() as int) matches Some(l) ==> r == Err::<Vec<SnapLayerData>, MissingTrackGrid>(MissingTrackGrid(l)),
        first_missing(candidates@, axis, candidates@.len() as int) is None ==> (r matches Ok(data) && layer_data_ok(data@, candidates@, axis)),
{
    let want_vertical = match axis {
        SnapAxis::Vertical => true,
        SnapAxis::Horizontal => false,
    };
    let mut k: usize = 0;
    while k < candidates.len()
        invariant
            k <= candidates@.len(),
            want_vertical == (axis == SnapAxis::Vertical),
            first_missing(candidates@, axis, k as int) is None,
        decreases candidates@.len() - k,
    {
        let c = candidates[k];
        if c.is_signal && c.layer_is_vertical == want_vertical && !c.has_track_grid {
            proof {
                lemma_first_missing_stays(candidates@, axis, k + 1, candidates@.len() as int);
            }
            return Err(MissingTrackGrid(c.layer));
        }
        k = k + 1;
    }
    let mut order: Vec<(usize, i32)> = Vec::new();
    let mut k: usize = 0;
    while k < candidates.len()
        invariant
            k <= candidates@.len(),
            want_vertical == (axis == SnapAxis::Vertical),
            order@ == layer_order(candidates@, axis, k as int),
        decreases candidates@.len() - k,
    {
        let c = candidates[k];
        if c.is_signal && c.layer_is_vertical == want_vertical {
            let mut present = false;
            let mut j: usize = 0;
            while j < order.len()
                invariant
                    j <= order@.len(),
                    present == has_layer(order@.take(j as int), c.layer),
                decreases order@.len() - j,
            {
                proof {
                    if has_layer(order@.take(j + 1), c.layer) && !has_layer(order@.take(j as int), c.layer) {
                        let w = choose|w: int| 0 <= w < j + 1 && #[trigger] order@.take(j + 1)[w].0 == c.layer;
                        assert(w == j);
                    }
                    if has_layer(order@.take(j as int), c.layer) {
                        let w = choose|w: int| 0 <= w < j && #[trigger] order@.take(j as int)[w].0 == c.layer;
                        assert(order@.take(j + 1)[w].0 == c.layer);
                    }
                    if order@[j as int].0 == c.layer {
                        assert(order@.take(j + 1)[j as int].0 == c.layer);
                    }
                }
                if order[j].0 == c.layer {
                    present = true;
                }
                j = j + 1;
            }
            proof {
                assert(order@.take(order@.len() as int) =~= order@);
            }
            if !present {
                let x = (c.layer, c.layer_number);
                let pos = count_layers_before(&order, x);
                proof {
                    lemma_layers_before_bounded(order@, x, order@.len() as int);
                }
                order.insert(pos, x);
            }
        }
        k = k + 1;
    }
    let mut data: Vec<SnapLayerData> = Vec::new();
    let mut q: usize = 0;
    while q < order.len()
        invariant
            q <= order@.len(),
            want_vertical == (axis == SnapAxis::Vertical),
            order@ == layer_order(candidates@, axis, candidates@.len() as int),
            data@.len() == q,
            forall|p: int| 0 <= p < q ==> {
                &&& (#[trigger] data@[p]).layer == order@[p].0
                &&& data@[p].layer_number == order@[p].1
                &&& data@[p].pins@ == terminals_of(layer_pins(candidates@, axis, order@[p].0, candidates@.len() as int))
            },
        decreases order@.len() - q,
    {
        let (layer, layer_number) = order[q];
        let mut pins: Vec<(i32, usize)> = Vec::new();
        let mut k: usize = 0;
        while k < candidates.len()
            invariant
                k <= candidates@.len(),
                want_vertical == (axis == SnapAxis::Vertical),
                pins@ == layer_pins(candidates@, axis, layer, k as int),
            decreases candidates@.len() - k,
        {
            let c = candidates[k];
            if c.is_signal && c.layer_is_vertical == want_vertical && c.layer == layer {
                let pos = count_pins_not_after(&pins, c.center);
                proof {
                    lemma_pins_not_after_bounded(pins@, c.center, pins@.len() as int);
                }
                pins.insert(pos, (c.center, c.iterm));
            }
            k = k + 1;
        }
        let mut terms: Vec<usize> = Vec::new();
        let mut t: usize = 0;
        while t < pins.len()
            invariant
                t <= pins@.len(),
                terms@ == terminals_of(pins@).take(t as int),
            decreases pins@.len() - t,
        {
            terms.push(pins[t].1);
            proof {
                assert(terms@ =~= terminals_of(pins@).take(t + 1));
            }
            t = t + 1;
        }
        proof {
            assert(terms@ =~= terminals_of(pins@));
        }
        data.push(SnapLayerData { layer, layer_number, pins: terms });
        q = q + 1;
    }
    Ok(data)
}

proof fn lemma_first_missing_stays(cs: Seq<SnapPinCandidate>, axis: SnapAxis, k: int, n: int)
    requires
        0 <= k <= n,
        first_missing(cs, axis, k) is Some,
    ensures
        first_missing(cs, axis, n) == first_missing(cs, axis, k),
    decreases n - k,
{
    if k < n {
        lemma_first_missing_stays(cs, axis, k, n - 1);
    }
}

/// Aligning to the manufacturing grid moves the origin by at most half a grid step, unless
/// the result saturated.
pub proof fn lemma_grid_alignment_is_nearest(origin: i32, grid: i32)
    requires
        grid != 0,
        in_i32(round_quot(origin as int, grid as int) * grid),
    ensures
        grid_aligned(origin, grid) == round_quot(origin as int, grid as int) * grid,
        2 * magnitude(grid_aligned(origin, grid) - origin) <= magnitude(grid as int),
{
    let a = origin as int;
    let g = grid as int;
    let n = magnitude(a);
    let d = magnitude(g);
    let rr = (2 * n + d) / (2 * d);
    assert(2 * (rr * d) <= 2 * n + d < 2 * (rr * d) + 2 * d) by (nonlinear_arith)
        requires
            d >= 1,
            n >= 0,
            rr == (2 * n + d) / (2 * d),
    ;
    if a == 0 {
        assert(rr == 0) by (nonlinear_arith)
            requires
                d >= 1,
                n == 0,
                rr == (2 * n + d) / (2 * d),
        ;
    }
    let q = round_quot(a, g);
    assert(q * g == (if a < 0 { -(rr * d) } else { rr * d })) by (nonlinear_arith)
        requires
            q == (if (a < 0) != (g < 0) && a != 0 { -rr } else { rr }),
            d == (if g < 0 { -g } else { g }),
            a == 0 ==> rr == 0,
    ;
    assert(2 * magnitude(q * g - a) <= d);
}

} // verus!
