//! Coarse shaping: the set of legal outlines each cluster may take.

use crate::cluster::ClusterId;
use crate::design::{Rect, area_fits, rect_area};
use vstd::prelude::*;

verus! {

/// One legal outline, ordered by width first, then height.
#[derive(Debug, Clone, Copy, PartialEq, Eq, PartialOrd, Ord, Default, Structural)]
pub struct Tiling {
    pub width: i64,
    pub height: i64,
}

impl Tiling {
    /// The outline's area.
    pub fn area(self) -> (r: i64)
        requires
            i64::MIN <= self.width * self.height <= i64::MAX,
        ensures
            r == self.width * self.height,
    {
        self.width * self.height
    }
}

/// A range of legal widths; degenerate for every macro cluster.
#[derive(Debug, Clone, Copy, PartialEq, Eq, Default, Structural)]
pub struct Interval {
    pub min: i64,
    pub max: i64,
}

/// The macro dimensions and count are small enough that every grid they make is
/// representable.
pub open spec fn grid_inputs_ok(w: int, h: int, n: int) -> bool {
    -0x8000_0000 < w < 0x8000_0000 && -0x8000_0000 < h < 0x8000_0000 && n < 0x8000_0000
}

/// The `cols x rows` grids of `n` macros, `cols` running from 1 to `c`, kept when the grid fits
/// the outline in both dimensions, in order of `cols`.
pub open spec fn grids_upto(w: int, h: int, n: int, outline: Rect, c: int) -> Seq<Tiling>
    decreases c,
{
    if c <= 0 {
        Seq::empty()
    } else {
        let prev = grids_upto(w, h, n, outline, c - 1);
        if n % c == 0 && c * w <= outline.x_max - outline.x_min && (n / c) * h <= outline.y_max
            - outline.y_min {
            prev.push(Tiling { width: (c * w) as i64, height: ((n / c) * h) as i64 })
        } else {
            prev
        }
    }
}

/// Every factorisation `cols * rows = n` of the macro count, kept when the grid fits the
/// outline, in order of `cols`.
pub fn generate_tilings_for_macro_cluster(
    macro_width: i64,
    macro_height: i64,
    number_of_macros: i64,
    outline: &Rect,
) -> (r: Vec<Tiling>)
    requires
        grid_inputs_ok(macro_width as int, macro_height as int, number_of_macros as int),
    ensures
        r@ == grids_upto(
            macro_width as int,
            macro_height as int,
            number_of_macros as int,
            *outline,
            number_of_macros as int,
        ),
{
    let mut out: Vec<Tiling> = Vec::new();
    let mut cols: i64 = 1;
    while cols <= number_of_macros
        invariant
            1 <= cols,
            cols <= number_of_macros + 1 || cols == 1,
            grid_inputs_ok(macro_width as int, macro_height as int, number_of_macros as int),
            out@ == grids_upto(
                macro_width as int,
                macro_height as int,
                number_of_macros as int,
                *outline,
                cols - 1,
            ),
        decreases number_of_macros + 1 - cols,
    {
        if number_of_macros % cols == 0 {
            let rows = number_of_macros / cols;
            proof {
                assert(-0x4000_0000_0000_0000 < cols * macro_width < 0x4000_0000_0000_0000) by (nonlinear_arith)
                    requires 1 <= cols < 0x8000_0000, -0x8000_0000 < macro_width < 0x8000_0000;
                assert(0 <= rows <= number_of_macros) by (nonlinear_arith)
                    requires rows == number_of_macros / cols, 1 <= cols, 0 <= number_of_macros;
                assert(-0x4000_0000_0000_0000 < rows * macro_height < 0x4000_0000_0000_0000) by (nonlinear_arith)
                    requires 0 <= rows < 0x8000_0000, -0x8000_0000 < macro_height < 0x8000_0000;
            }
            let w = cols * macro_width;
            let h = rows * macro_height;
            let ow = outline.x_max as i128 - outline.x_min as i128;
            let oh = outline.y_max as i128 - outline.y_min as i128;
            if w as i128 <= ow && h as i128 <= oh {
                out.push(Tiling { width: w, height: h });
            }
        }
        cols = cols + 1;
    }
    out
}

/// The tiling is a `cols x rows` grid of `n` macros of `w x h` that fits inside the outline.
pub open spec fn fitting_grid(t: Tiling, w: int, h: int, n: int, outline: Rect) -> bool {
    &&& t.width <= outline.x_max - outline.x_min
    &&& t.height <= outline.y_max - outline.y_min
    &&& exists|cols: int, rows: int| #[trigger] grid_of(t, cols, rows, w, h, n)
}

/// The `cols`-column grid of `n` macros of `w x h`.
pub open spec fn grid_tiling(cols: int, w: int, h: int, n: int) -> Tiling {
    Tiling { width: (cols * w) as i64, height: ((n / cols) * h) as i64 }
}

/// The tiling is `cols` macros of width `w` across and `rows` of height `h` up, `n` in all.
pub open spec fn grid_of(t: Tiling, cols: int, rows: int, w: int, h: int, n: int) -> bool {
    1 <= cols && cols * rows == n && cols * w == t.width && rows * h == t.height
}

/// Every grid of `cols` columns, `cols` from 1 to `c`, is kept exactly when it fits the
/// outline in width and in height, and only fitting grids are kept.
pub proof fn lemma_grids_fit_the_outline(w: int, h: int, n: int, outline: Rect, c: int)
    requires
        grid_inputs_ok(w, h, n),
        0 <= n,
        c <= n,
    ensures
        forall|k: int| 0 <= k < grids_upto(w, h, n, outline, c).len() ==> fitting_grid(
            #[trigger] grids_upto(w, h, n, outline, c)[k],
            w,
            h,
            n,
            outline,
        ),
        forall|cols: int|
            1 <= cols <= c && n % cols == 0 && cols * w <= outline.x_max - outline.x_min && (n / cols) * h <= outline.y_max
                - outline.y_min ==> grids_upto(w, h, n, outline, c).contains(
                #[trigger] grid_tiling(cols, w, h, n),
            ),
    decreases c,
{
    if c > 0 {
        lemma_grids_fit_the_outline(w, h, n, outline, c - 1);
        let prev = grids_upto(w, h, n, outline, c - 1);
        let g = grids_upto(w, h, n, outline, c);
        assert(-0x4000_0000_0000_0000 < c * w < 0x4000_0000_0000_0000) by (nonlinear_arith)
            requires 1 <= c < 0x8000_0000, -0x8000_0000 < w < 0x8000_0000;
        assert(0 <= n / c <= n) by (nonlinear_arith)
            requires 1 <= c, 0 <= n;
        assert(-0x4000_0000_0000_0000 < (n / c) * h < 0x4000_0000_0000_0000) by (nonlinear_arith)
            requires 0 <= n / c < 0x8000_0000, -0x8000_0000 < h < 0x8000_0000;
        if n % c == 0 && c * w <= outline.x_max - outline.x_min && (n / c) * h <= outline.y_max - outline.y_min {
            let t = Tiling { width: (c * w) as i64, height: ((n / c) * h) as i64 };
            assert(g == prev.push(t));
            assert(c * (n / c) == n) by (nonlinear_arith)
                requires n % c == 0, c >= 1;
            assert(fitting_grid(t, w, h, n, outline)) by {
                assert(grid_of(t, c, n / c, w, h, n));
            }
            assert forall|k: int| 0 <= k < g.len() implies fitting_grid(#[trigger] g[k], w, h, n, outline) by {
                if k < prev.len() {
                    assert(g[k] == prev[k]);
                }
            }
            assert(g[g.len() - 1] == t);
            assert forall|cols: int|
                1 <= cols <= c && n % cols == 0 && cols * w <= outline.x_max - outline.x_min && (n / cols) * h
                    <= outline.y_max - outline.y_min implies g.contains(
                    #[trigger] grid_tiling(cols, w, h, n),
                ) by {
                if cols < c {
                    let t2 = grid_tiling(cols, w, h, n);
                    let k = choose|k: int| 0 <= k < prev.len() && prev[k] == t2;
                    assert(g[k] == prev[k]);
                } else {
                    assert(g[g.len() - 1] == t);
                }
            }
        } else {
            assert(g == prev);
        }
    }
}

/// The `cols`-column grid of `m` macros of `w x h` exists and fits the outline.
pub open spec fn grid_fits(cols: int, w: int, h: int, m: int, outline: Rect) -> bool {
    1 <= cols <= m && m % cols == 0 && cols * w <= outline.x_max - outline.x_min && (m / cols) * h <= outline.y_max
        - outline.y_min
}

/// The cluster's tilings include the tiling.
pub open spec fn tilings_include(w: i64, h: i64, n: i64, outline: Rect, t: Tiling) -> bool {
    match macro_tilings_of(w, h, n, outline) {
        Ok(ts) => ts.contains(t),
        Err(_) => false,
    }
}

/// A macro cluster's tilings all fit the outline, each a grid of the cluster's macros or of
/// one macro more; every fitting grid of the cluster's own count is among them, none
/// dropped; and the cluster is refused only when neither its count nor one more gives a
/// fitting grid.
pub proof fn lemma_macro_tilings_fit(w: i64, h: i64, n: i64, outline: Rect)
    requires
        grid_inputs_ok(w as int, h as int, n + 1),
        0 <= n,
    ensures
        match macro_tilings_of(w, h, n, outline) {
            Ok(ts) => forall|k: int|
                0 <= k < ts.len() ==> fitting_grid(#[trigger] ts[k], w as int, h as int, n as int, outline) || fitting_grid(
                    ts[k],
                    w as int,
                    h as int,
                    n + 1,
                    outline,
                ),
            Err(_) => true,
        },
        forall|cols: int|
            #[trigger] grid_fits(cols, w as int, h as int, n as int, outline) ==> tilings_include(
                w,
                h,
                n,
                outline,
                grid_tiling(cols, w as int, h as int, n as int),
            ),
        forall|cols: int| #[trigger] grid_fits(cols, w as int, h as int, n + 1, outline) ==> macro_tilings_of(w, h, n, outline) is Ok,
{
    lemma_grids_fit_the_outline(w as int, h as int, n as int, outline, n as int);
    lemma_grids_fit_the_outline(w as int, h as int, n + 1, outline, n + 1);
    let first = grids_upto(w as int, h as int, n as int, outline, n as int);
    let second = grids_upto(w as int, h as int, n + 1, outline, n + 1);
    assert forall|cols: int| #[trigger] grid_fits(cols, w as int, h as int, n as int, outline) implies tilings_include(
        w,
        h,
        n,
        outline,
        grid_tiling(cols, w as int, h as int, n as int),
    ) by {
        let t = grid_tiling(cols, w as int, h as int, n as int);
        assert(first.contains(t));
        assert(first.len() > 0);
    }
    assert forall|cols: int| #[trigger] grid_fits(cols, w as int, h as int, n + 1, outline) implies macro_tilings_of(
        w,
        h,
        n,
        outline,
    ) is Ok by {
        let t = grid_tiling(cols, w as int, h as int, n + 1);
        assert(second.contains(t));
        assert(second.len() > 0);
    }
}

/// Why a cluster could not be shaped.
#[derive(Debug, Clone, PartialEq, Eq, Structural)]
pub struct Unshapeable {
    pub macro_width: i64,
    pub macro_height: i64,
    pub number_of_macros: i64,
}

/// The grids of `n` macros that fit; when none does, those of `n + 1`; an error when neither
/// gives any.
pub open spec fn macro_tilings_of(w: i64, h: i64, n: i64, outline: Rect) -> Result<Seq<Tiling>, Unshapeable> {
    let first = grids_upto(w as int, h as int, n as int, outline, n as int);
    let second = grids_upto(w as int, h as int, n + 1, outline, n + 1);
    if first.len() > 0 {
        Ok(first)
    } else if second.len() > 0 {
        Ok(second)
    } else {
        Err(Unshapeable { macro_width: w, macro_height: h, number_of_macros: n })
    }
}

/// A macro cluster's tilings: when nothing fits, the search is retried with one macro more,
/// which may factor into a squarer grid.
pub fn macro_tilings(macro_width: i64, macro_height: i64, number_of_macros: i64, outline: &Rect) -> (r: Result<Vec<Tiling>, Unshapeable>)
    requires
        grid_inputs_ok(macro_width as int, macro_height as int, number_of_macros + 1),
    ensures
        match r {
            Ok(t) => macro_tilings_of(macro_width, macro_height, number_of_macros, *outline) == Ok::<Seq<Tiling>, Unshapeable>(t@),
            Err(e) => macro_tilings_of(macro_width, macro_height, number_of_macros, *outline) == Err::<Seq<Tiling>, Unshapeable>(e),
        },
{
    let mut tilings = generate_tilings_for_macro_cluster(macro_width, macro_height, number_of_macros, outline);
    if tilings.len() == 0 {
        tilings = generate_tilings_for_macro_cluster(macro_width, macro_height, number_of_macros + 1, outline);
    }
    if tilings.len() == 0 {
        return Err(Unshapeable { macro_width, macro_height, number_of_macros });
    }
    Ok(tilings)
}

/// Intervals ordered by their minimum.
pub open spec fn sorted_by_min(s: Seq<Interval>) -> bool {
    forall|i: int, j: int| 0 <= i < j < s.len() ==> s[i].min <= s[j].min
}

/// The degenerate interval of a tiling's width.
pub open spec fn width_interval(t: Tiling) -> Interval {
    Interval { min: t.width, max: t.width }
}

/// One degenerate interval per tiling, sorted by minimum width.
pub fn compute_width_intervals(tilings: &[Tiling]) -> (r: Vec<Interval>)
    ensures
        r@.to_multiset() == tilings@.map_values(|t: Tiling| width_interval(t)).to_multiset(),
        sorted_by_min(r@),
{
    let mut out: Vec<Interval> = Vec::new();
    let mut k: usize = 0;
    proof {
        assert(tilings@.take(0).map_values(|t: Tiling| width_interval(t)) =~= Seq::<Interval>::empty());
        assert(out@ =~= Seq::<Interval>::empty());
    }
    while k < tilings.len()
        invariant
            k <= tilings@.len(),
            out@.to_multiset() == tilings@.take(k as int).map_values(|t: Tiling| width_interval(t)).to_multiset(),
            sorted_by_min(out@),
        decreases tilings@.len() - k,
    {
        let iv = Interval { min: tilings[k].width, max: tilings[k].width };
        let mut pos: usize = out.len();
        while pos > 0 && out[pos - 1].min > iv.min
            invariant
                pos <= out@.len(),
                forall|m: int| pos <= m < out@.len() ==> out@[m].min > iv.min,
            decreases pos,
        {
            pos = pos - 1;
        }
        let ghost before = out@;
        out.insert(pos, iv);
        proof {
            assert(out@ == before.insert(pos as int, iv));
            vstd::seq_lib::to_multiset_insert(before, pos as int, iv);
            vstd::seq_lib::to_multiset_build(tilings@.take(k as int).map_values(|t: Tiling| width_interval(t)), iv);
            assert(tilings@.take(k + 1).map_values(|t: Tiling| width_interval(t)) =~= tilings@.take(k as int).map_values(|t: Tiling| width_interval(t)).push(iv));
            assert(out@.to_multiset() =~= before.to_multiset().insert(iv));
            assert forall|i: int, j: int| 0 <= i < j < out@.len() implies out@[i].min <= out@[j].min by {
                if j < pos {
                } else if i < pos && j == pos {
                    if pos > 0 {
                        assert(before[pos - 1].min <= iv.min);
                        assert(before[i].min <= before[pos - 1].min);
                    }
                } else if i < pos && j > pos {
                    assert(out@[j] == before[j - 1]);
                } else if i == pos {
                    assert(out@[j] == before[j - 1]);
                } else {
                    assert(out@[i] == before[i - 1]);
                    assert(out@[j] == before[j - 1]);
                }
            }
        }
        k = k + 1;
    }
    proof {
        assert(tilings@.take(tilings@.len() as int) =~= tilings@);
    }
    out
}

/// The root takes the floorplan shape exactly: its width as a degenerate interval, and its area.
pub fn root_shape(floorplan: &Rect) -> (r: (Interval, i64))
    requires
        area_fits(*floorplan),
    ensures
        r.0 == (Interval {
            min: (floorplan.x_max - floorplan.x_min) as i64,
            max: (floorplan.x_max - floorplan.x_min) as i64,
        }),
        r.1 == rect_area(*floorplan),
{
    let width = floorplan.x_max - floorplan.x_min;
    (Interval { min: width, max: width }, floorplan.area())
}

/// Why shaping stopped.
#[derive(Debug, Clone, PartialEq, Eq)]
pub enum ShapingRefusal {
    /// A cluster whose tilings only the annealing search can give.
    NeedsAnnealing(ClusterId),
    /// The search produced no tiling that fits the outline.
    NoValidTilings(ClusterId),
    /// No arrangement of the cluster's macros fits the outline.
    Unshapeable(ClusterId, Unshapeable),
}

/// How deep a pin-access blockage may reach, per axis.
#[derive(Debug, Clone, Copy, PartialEq, Eq, Default, Structural)]
pub struct DepthLimits {
    pub x_min: i64,
    pub x_max: i64,
    pub y_min: i64,
    pub y_max: i64,
}

/// The base depth cannot be computed for a root without area.
#[derive(Debug, Clone, Copy, PartialEq, Eq, Structural)]
pub struct RootAreaIsZero;

/// Every blockage the block holds, as it stands: no filtering, clipping or union.
pub fn placement_blockages(blockages: &[Rect]) -> (r: Vec<Rect>)
    ensures
        r@ == blockages@,
{
    let mut out: Vec<Rect> = Vec::new();
    let mut k: usize = 0;
    while k < blockages.len()
        invariant
            k <= blockages@.len(),
            out@ == blockages@.take(k as int),
        decreases blockages@.len() - k,
    {
        out.push(blockages[k]);
        proof {
            assert(out@ =~= blockages@.take(k + 1));
        }
        k = k + 1;
    }
    proof {
        assert(blockages@.take(blockages@.len() as int) =~= blockages@);
    }
    out
}

} // verus!
