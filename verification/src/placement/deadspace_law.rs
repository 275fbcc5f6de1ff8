//! What dead-space filling keeps: every grown cluster still holds its old box, stays inside the
//! outline with its area its width times its height, and no two boxes with area come to
//! overlap.

use crate::placement::deadspace::{
    ascending, col_free, count_below, dead_space_ok, down_stop, filled, fill_pass, grid_axis, grown,
    initial_grid, lemma_ascending_sorted, lemma_count_below_split, lemma_dedup_props, left_stop, painted,
    raw_edges, regrown, right_stop, row_free, span_of, spread_fits, strictly_ascending, up_stop, wanted,
    DeadSpaceMacro, Grid, Span,
};
use crate::sort::ascending_i32;
use vstd::prelude::*;

verus! {

/// The box lies inside the outline, its extents not negative.
pub open spec fn inside(m: DeadSpaceMacro, outline: (i32, i32)) -> bool {
    &&& 0 <= m.x <= m.x + m.width <= outline.0
    &&& 0 <= m.y <= m.y + m.height <= outline.1
}

/// The area is the width times the height.
pub open spec fn shaped(m: DeadSpaceMacro) -> bool {
    m.area == m.width * m.height
}

/// The two boxes share no interior: one lies entirely to a side of the other.
pub open spec fn apart(a: DeadSpaceMacro, b: DeadSpaceMacro) -> bool {
    ||| a.x + a.width <= b.x
    ||| b.x + b.width <= a.x
    ||| a.y + a.height <= b.y
    ||| b.y + b.height <= a.y
}

/// The new box holds the old one.
pub open spec fn encloses(new: DeadSpaceMacro, old: DeadSpaceMacro) -> bool {
    &&& new.x <= old.x
    &&& new.y <= old.y
    &&& old.x + old.width <= new.x + new.width
    &&& old.y + old.height <= new.y + new.height
}

/// The cell lies in the span.
pub open spec fn in_span(sp: Span, r: int, c: int) -> bool {
    sp.2 <= r < sp.3 && sp.0 <= c < sp.1
}

/// A macro with area sits on the grid with positive extents and its area its extents' product.
pub open spec fn gridded(m: DeadSpaceMacro, xg: Seq<i32>, yg: Seq<i32>) -> bool {
    &&& m.width > 0
    &&& m.height > 0
    &&& shaped(m)
    &&& i32::MIN <= m.x + m.width <= i32::MAX
    &&& i32::MIN <= m.y + m.height <= i32::MAX
    &&& xg.contains(m.x)
    &&& xg.contains((m.x + m.width) as i32)
    &&& yg.contains(m.y)
    &&& yg.contains((m.y + m.height) as i32)
}

/// Every macro with area is gridded and owns every cell of its span.
pub open spec fn owns_spans(g: Grid, ms: Seq<DeadSpaceMacro>, xg: Seq<i32>, yg: Seq<i32>) -> bool {
    forall|k: int|
        0 <= k < ms.len() && #[trigger] ms[k].area != 0 ==> {
            &&& gridded(ms[k], xg, yg)
            &&& forall|r: int, c: int| #[trigger] in_span(span_of(ms[k], xg, yg), r, c) ==> g(r, c) == k
        }
}

/// The grids are strictly ascending with at least one cell, and any two lines of an axis are
/// within 32 bits of each other.
pub open spec fn grids_ok(xg: Seq<i32>, yg: Seq<i32>) -> bool {
    &&& xg.len() >= 2
    &&& yg.len() >= 2
    &&& strictly_ascending(xg)
    &&& strictly_ascending(yg)
    &&& spread_fits(xg)
    &&& spread_fits(yg)
}

proof fn lemma_index_of(g: Seq<i32>, i: int)
    requires
        strictly_ascending(g),
        0 <= i < g.len(),
    ensures
        count_below(g[i], g, g.len() as int) == i,
{
    assert forall|j: int| i <= j < g.len() implies g[j] >= g[i] by {
        if j > i {
            assert(g[i] < g[j]);
        }
    }
    lemma_count_below_split(g[i], g, i, g.len() as int);
}

proof fn lemma_member_index(g: Seq<i32>, v: i32)
    requires
        strictly_ascending(g),
        g.contains(v),
    ensures
        0 <= count_below(v, g, g.len() as int) < g.len(),
        g[count_below(v, g, g.len() as int)] == v,
{
    let k = choose|k: int| 0 <= k < g.len() && g[k] == v;
    lemma_index_of(g, k);
}

proof fn lemma_count_below_monotone(g: Seq<i32>, v: i32, w: i32, n: int)
    requires
        v <= w,
        0 <= n <= g.len(),
    ensures
        count_below(v, g, n) <= count_below(w, g, n),
    decreases n,
{
    if n > 0 {
        lemma_count_below_monotone(g, v, w, n - 1);
    }
}

proof fn lemma_left_stop(g: Grid, i: int, y0: int, y1: int)
    requires
        0 <= i,
    ensures
        0 <= left_stop(g, i, y0, y1) <= i,
        forall|c: int| left_stop(g, i, y0, y1) <= c < i ==> col_free(g, c, y0, y1),
    decreases i,
{
    if i > 0 && col_free(g, i - 1, y0, y1) {
        lemma_left_stop(g, i - 1, y0, y1);
    }
}

proof fn lemma_down_stop(g: Grid, j: int, x0: int, x1: int)
    requires
        0 <= j,
    ensures
        0 <= down_stop(g, j, x0, x1) <= j,
        forall|r: int| down_stop(g, j, x0, x1) <= r < j ==> row_free(g, r, x0, x1),
    decreases j,
{
    if j > 0 && row_free(g, j - 1, x0, x1) {
        lemma_down_stop(g, j - 1, x0, x1);
    }
}

proof fn lemma_right_stop(g: Grid, i: int, y0: int, y1: int, nx: int)
    requires
        i <= nx,
    ensures
        i <= right_stop(g, i, y0, y1, nx) <= nx,
        forall|c: int| i <= c < right_stop(g, i, y0, y1, nx) ==> col_free(g, c, y0, y1),
    decreases nx - i,
{
    if i < nx && col_free(g, i, y0, y1) {
        lemma_right_stop(g, i + 1, y0, y1, nx);
    }
}

proof fn lemma_up_stop(g: Grid, j: int, x0: int, x1: int, ny: int)
    requires
        j <= ny,
    ensures
        j <= up_stop(g, j, x0, x1, ny) <= ny,
        forall|r: int| j <= r < up_stop(g, j, x0, x1, ny) ==> row_free(g, r, x0, x1),
    decreases ny - j,
{
    if j < ny && row_free(g, j, x0, x1) {
        lemma_up_stop(g, j + 1, x0, x1, ny);
    }
}

/// Growing a span that the cluster owns widens it within the grid, the cluster owns all of the
/// new span, and every cell someone had claimed keeps its owner.
proof fn lemma_grown(g: Grid, sp: Span, id: i64, nx: int, ny: int)
    requires
        0 <= sp.0 <= sp.1 <= nx,
        0 <= sp.2 <= sp.3 <= ny,
        id >= 0,
        forall|r: int, c: int| #[trigger] in_span(sp, r, c) ==> g(r, c) == id,
    ensures
        ({
            let (g4, sp2) = grown(g, sp, id, nx, ny);
            &&& 0 <= sp2.0 <= sp.0
            &&& sp.1 <= sp2.1 <= nx
            &&& 0 <= sp2.2 <= sp.2
            &&& sp.3 <= sp2.3 <= ny
            &&& forall|r: int, c: int| #[trigger] in_span(sp2, r, c) ==> g4(r, c) == id
            &&& forall|r: int, c: int| #[trigger] g(r, c) != -1 ==> g4(r, c) == g(r, c)
        }),
{
    let (xs, xe, ys, ye) = sp;
    let xs2 = left_stop(g, xs, ys, ye);
    lemma_left_stop(g, xs, ys, ye);
    let g1 = painted(g, xs2, xs, ys, ye, id);
    let ye2 = up_stop(g1, ye, xs2, xe, ny);
    lemma_up_stop(g1, ye, xs2, xe, ny);
    let g2 = painted(g1, xs2, xe, ye, ye2, id);
    let xe2 = right_stop(g2, xe, ys, ye2, nx);
    lemma_right_stop(g2, xe, ys, ye2, nx);
    let g3 = painted(g2, xe, xe2, ys, ye2, id);
    let ys2 = down_stop(g3, ys, xs2, xe2);
    lemma_down_stop(g3, ys, xs2, xe2);
    let g4 = painted(g3, xs2, xe2, ys2, ys, id);
    assert(grown(g, sp, id, nx, ny) == (g4, (xs2, xe2, ys2, ye2)));
    let sp2 = (xs2, xe2, ys2, ye2);
    assert forall|r: int, c: int| #[trigger] in_span(sp2, r, c) implies g4(r, c) == id by {
        if r >= ys && !(c >= xe) && !(r >= ye) && c >= xs {
            assert(in_span(sp, r, c));
        }
    }
    assert forall|r: int, c: int| #[trigger] g(r, c) != -1 implies g4(r, c) == g(r, c) by {
        if ys <= r < ye && xs2 <= c < xs {
            assert(col_free(g, c, ys, ye));
        }
        assert(g1(r, c) == g(r, c));
        if ye <= r < ye2 && xs2 <= c < xe {
            assert(row_free(g1, r, xs2, xe));
        }
        assert(g2(r, c) == g(r, c));
        if ys <= r < ye2 && xe <= c < xe2 {
            assert(col_free(g2, c, ys, ye2));
        }
        assert(g3(r, c) == g(r, c));
        if ys2 <= r < ys && xs2 <= c < xe2 {
            assert(row_free(g3, r, xs2, xe2));
        }
    }
}

/// The flags that pick the passes are the same.
pub open spec fn same_flags(a: DeadSpaceMacro, b: DeadSpaceMacro) -> bool {
    a.is_mixed_cluster == b.is_mixed_cluster && a.is_std_cell_cluster == b.is_std_cell_cluster
}

/// The span of a gridded macro: each edge's own grid index, the near ones before the far ones.
proof fn lemma_span_of_gridded(m: DeadSpaceMacro, xg: Seq<i32>, yg: Seq<i32>)
    requires
        grids_ok(xg, yg),
        gridded(m, xg, yg),
    ensures
        ({
            let sp = span_of(m, xg, yg);
            &&& 0 <= sp.0 < sp.1 < xg.len()
            &&& 0 <= sp.2 < sp.3 < yg.len()
            &&& xg[sp.0] == m.x
            &&& xg[sp.1] == m.x + m.width
            &&& yg[sp.2] == m.y
            &&& yg[sp.3] == m.y + m.height
        }),
{
    let sp = span_of(m, xg, yg);
    lemma_member_index(xg, m.x);
    lemma_member_index(xg, (m.x + m.width) as i32);
    lemma_member_index(yg, m.y);
    lemma_member_index(yg, (m.y + m.height) as i32);
    if sp.1 <= sp.0 {
        if sp.1 < sp.0 {
            assert(xg[sp.1] < xg[sp.0]);
        }
    }
    if sp.3 <= sp.2 {
        if sp.3 < sp.2 {
            assert(yg[sp.3] < yg[sp.2]);
        }
    }
}

/// A grown span's box, regrown from a gridded macro, is gridded, spans exactly the grown span
/// and holds the macro's box.
proof fn lemma_regrown(m: DeadSpaceMacro, sp2: Span, xg: Seq<i32>, yg: Seq<i32>)
    requires
        grids_ok(xg, yg),
        gridded(m, xg, yg),
        0 <= sp2.0 <= span_of(m, xg, yg).0,
        span_of(m, xg, yg).1 <= sp2.1 < xg.len(),
        0 <= sp2.2 <= span_of(m, xg, yg).2,
        span_of(m, xg, yg).3 <= sp2.3 < yg.len(),
    ensures
        gridded(regrown(m, sp2, xg, yg), xg, yg),
        span_of(regrown(m, sp2, xg, yg), xg, yg) == sp2,
        encloses(regrown(m, sp2, xg, yg), m),
        same_flags(regrown(m, sp2, xg, yg), m),
        regrown(m, sp2, xg, yg).area != 0,
{
    let sp = span_of(m, xg, yg);
    lemma_span_of_gridded(m, xg, yg);
    let w = xg[sp2.1] - xg[sp2.0];
    let h = yg[sp2.3] - yg[sp2.2];
    assert(xg[sp2.0] <= xg[sp.0]) by {
        if sp2.0 < sp.0 {
            assert(xg[sp2.0] < xg[sp.0]);
        }
    }
    assert(xg[sp.1] <= xg[sp2.1]) by {
        if sp.1 < sp2.1 {
            assert(xg[sp.1] < xg[sp2.1]);
        }
    }
    assert(yg[sp2.2] <= yg[sp.2]) by {
        if sp2.2 < sp.2 {
            assert(yg[sp2.2] < yg[sp.2]);
        }
    }
    assert(yg[sp.3] <= yg[sp2.3]) by {
        if sp.3 < sp2.3 {
            assert(yg[sp.3] < yg[sp2.3]);
        }
    }
    assert(xg[sp.0] < xg[sp.1]);
    assert(yg[sp.2] < yg[sp.3]);
    assert(w <= i32::MAX);
    assert(h <= i32::MAX);
    assert(0 < w * h <= 0x4000_0000_0000_0000) by (nonlinear_arith)
        requires 0 < w <= 0x7fff_ffff, 0 < h <= 0x7fff_ffff;
    let r = regrown(m, sp2, xg, yg);
    assert(r.width == w);
    assert(r.height == h);
    assert(r.x + r.width == xg[sp2.1]);
    assert(r.y + r.height == yg[sp2.3]);
    lemma_index_of(xg, sp2.0);
    lemma_index_of(xg, sp2.1);
    lemma_index_of(yg, sp2.2);
    lemma_index_of(yg, sp2.3);
}

/// One pass over the first `n` macros keeps every macro with area gridded and owning its span,
/// grows each only outward, leaves the ones without area alone, and keeps the flags.
proof fn lemma_pass(g: Grid, ms: Seq<DeadSpaceMacro>, xg: Seq<i32>, yg: Seq<i32>, order: int, n: int)
    requires
        grids_ok(xg, yg),
        owns_spans(g, ms, xg, yg),
        0 <= n <= ms.len(),
        ms.len() < 0x8000_0000,
    ensures
        ({
            let (g2, ms2) = fill_pass(g, ms, xg, yg, order, n);
            &&& ms2.len() == ms.len()
            &&& owns_spans(g2, ms2, xg, yg)
            &&& forall|k: int| 0 <= k < ms.len() && #[trigger] ms[k].area == 0 ==> ms2[k] == ms[k]
            &&& forall|k: int|
                0 <= k < ms.len() && #[trigger] ms[k].area != 0 ==> ms2[k].area != 0 && encloses(ms2[k], ms[k])
                    && same_flags(ms2[k], ms[k])
        }),
    decreases n,
{
    if n > 0 {
        lemma_pass(g, ms, xg, yg, order, n - 1);
        let (g1, ms1) = fill_pass(g, ms, xg, yg, order, n - 1);
        let id = n - 1;
        let m = ms1[id];
        if !(m.area == 0 || !wanted(m, order)) {
            let nx = xg.len() - 1;
            let ny = yg.len() - 1;
            let sp = span_of(m, xg, yg);
            assert(ms[id].area != 0);
            assert(gridded(m, xg, yg));
            lemma_span_of_gridded(m, xg, yg);
            lemma_grown(g1, sp, id as i64, nx, ny);
            let (g2, sp2) = grown(g1, sp, id as i64, nx, ny);
            lemma_regrown(m, sp2, xg, yg);
            let newm = regrown(m, sp2, xg, yg);
            let ms2 = ms1.update(id, newm);
            assert(fill_pass(g, ms, xg, yg, order, n) == (g2, ms2));
            assert forall|k: int| 0 <= k < ms2.len() && #[trigger] ms2[k].area != 0 implies {
                &&& gridded(ms2[k], xg, yg)
                &&& forall|r: int, c: int| #[trigger] in_span(span_of(ms2[k], xg, yg), r, c) ==> g2(r, c) == k
            } by {
                if k == id {
                    assert(ms2[k] == newm);
                } else {
                    assert(ms2[k] == ms1[k]);
                    assert(ms1[k].area != 0);
                    assert forall|r: int, c: int| #[trigger] in_span(span_of(ms2[k], xg, yg), r, c) implies g2(r, c) == k by {
                        assert(g1(r, c) == k);
                    }
                }
            }
            assert forall|k: int| 0 <= k < ms.len() && #[trigger] ms[k].area != 0 implies ms2[k].area != 0 && encloses(
                ms2[k],
                ms[k],
            ) && same_flags(ms2[k], ms[k]) by {
                if k == id {
                    assert(encloses(ms1[k], ms[k]));
                }
            }
        }
    }
}

/// Two gridded boxes that share no interior share no grid cell either.
proof fn lemma_spans_apart(a: DeadSpaceMacro, b: DeadSpaceMacro, xg: Seq<i32>, yg: Seq<i32>, r: int, c: int)
    requires
        grids_ok(xg, yg),
        gridded(a, xg, yg),
        gridded(b, xg, yg),
        apart(a, b),
    ensures
        !(in_span(span_of(a, xg, yg), r, c) && in_span(span_of(b, xg, yg), r, c)),
{
    let sa = span_of(a, xg, yg);
    let sb = span_of(b, xg, yg);
    let nxl = xg.len() as int;
    let nyl = yg.len() as int;
    if a.x + a.width <= b.x {
        lemma_count_below_monotone(xg, (a.x + a.width) as i32, b.x, nxl);
    } else if b.x + b.width <= a.x {
        lemma_count_below_monotone(xg, (b.x + b.width) as i32, a.x, nxl);
    } else if a.y + a.height <= b.y {
        lemma_count_below_monotone(yg, (a.y + a.height) as i32, b.y, nyl);
    } else {
        lemma_count_below_monotone(yg, (b.y + b.height) as i32, a.y, nyl);
    }
}

/// Painting the macros with area in order, none overlapping, leaves each owning its span.
proof fn lemma_initial(ms: Seq<DeadSpaceMacro>, xg: Seq<i32>, yg: Seq<i32>, n: int)
    requires
        grids_ok(xg, yg),
        0 <= n <= ms.len(),
        ms.len() < 0x8000_0000,
        forall|k: int| 0 <= k < ms.len() && #[trigger] ms[k].area != 0 ==> gridded(ms[k], xg, yg),
        forall|a: int, b: int|
            0 <= a < ms.len() && 0 <= b < ms.len() && a != b && #[trigger] ms[a].area != 0 && #[trigger] ms[b].area != 0
                ==> apart(ms[a], ms[b]),
    ensures
        forall|k: int|
            0 <= k < n && #[trigger] ms[k].area != 0 ==> forall|r: int, c: int| #[trigger] in_span(span_of(ms[k], xg, yg), r, c)
                ==> initial_grid(ms, xg, yg, n)(r, c) == k,
    decreases n,
{
    if n > 0 {
        lemma_initial(ms, xg, yg, n - 1);
        let g = initial_grid(ms, xg, yg, n - 1);
        let last = ms[n - 1];
        assert forall|k: int| 0 <= k < n && #[trigger] ms[k].area != 0 implies forall|r: int, c: int| #[trigger] in_span(
            span_of(ms[k], xg, yg),
            r,
            c,
        ) ==> initial_grid(ms, xg, yg, n)(r, c) == k by {
            assert forall|r: int, c: int| #[trigger] in_span(span_of(ms[k], xg, yg), r, c) implies initial_grid(ms, xg, yg, n)(r, c)
                == k by {
                if k < n - 1 && last.area != 0 {
                    assert(apart(ms[k], ms[n - 1]));
                    lemma_spans_apart(ms[k], ms[n - 1], xg, yg, r, c);
                }
            }
        }
    }
}

/// Every raw grid line of an axis lies within `[0, extent]` when every macro with area does.
proof fn lemma_raw_within(ms: Seq<DeadSpaceMacro>, extent: i32, vertical: bool, n: int)
    requires
        0 <= extent,
        0 <= n <= ms.len(),
        forall|k: int|
            0 <= k < ms.len() && #[trigger] ms[k].area != 0 ==> if vertical {
                0 <= ms[k].y <= ms[k].y + ms[k].height <= extent
            } else {
                0 <= ms[k].x <= ms[k].x + ms[k].width <= extent
            },
    ensures
        forall|v: i32| #[trigger] raw_edges(ms, extent, vertical, n).contains(v) ==> 0 <= v <= extent,
    decreases n,
{
    if n > 0 {
        lemma_raw_within(ms, extent, vertical, n - 1);
        let prev = raw_edges(ms, extent, vertical, n - 1);
        let e = raw_edges(ms, extent, vertical, n);
        assert forall|v: i32| e.contains(v) implies 0 <= v <= extent by {
            let i = choose|i: int| 0 <= i < e.len() && e[i] == v;
            if i < prev.len() {
                assert(prev[i] == v);
                assert(prev.contains(v));
            } else {
                assert(ms[n - 1].area != 0);
            }
        }
    } else {
        let e = raw_edges(ms, extent, vertical, 0);
        assert forall|v: i32| e.contains(v) implies 0 <= v <= extent by {
            let i = choose|i: int| 0 <= i < e.len() && e[i] == v;
        }
    }
}

/// The grid of an axis: strictly ascending, holding exactly the raw lines.
proof fn lemma_grid_axis(ms: Seq<DeadSpaceMacro>, extent: i32, vertical: bool)
    ensures
        strictly_ascending(grid_axis(ms, extent, vertical)),
        forall|v: i32|
            grid_axis(ms, extent, vertical).contains(v) <==> raw_edges(ms, extent, vertical, ms.len() as int).contains(v),
{
    let raw = raw_edges(ms, extent, vertical, ms.len() as int);
    lemma_ascending_sorted(raw);
    lemma_dedup_props(ascending_i32(raw));
}

/// The law's premises: the macros with area are shaped, inside the outline, and apart.
pub open spec fn legal_boxes(ms: Seq<DeadSpaceMacro>, outline: (i32, i32)) -> bool {
    &&& forall|k: int| 0 <= k < ms.len() && #[trigger] ms[k].area != 0 ==> shaped(ms[k]) && inside(ms[k], outline)
    &&& forall|a: int, b: int|
        0 <= a < ms.len() && 0 <= b < ms.len() && a != b && #[trigger] ms[a].area != 0 && #[trigger] ms[b].area != 0
            ==> apart(ms[a], ms[b])
}

proof fn lemma_setup(ms: Seq<DeadSpaceMacro>, outline: (i32, i32))
    requires
        dead_space_ok(ms, outline),
        legal_boxes(ms, outline),
        grid_axis(ms, outline.0, false).len() > 1,
        grid_axis(ms, outline.1, true).len() > 1,
    ensures
        ms.len() < 0x8000_0000,
        grids_ok(grid_axis(ms, outline.0, false), grid_axis(ms, outline.1, true)),
        forall|k: int|
            0 <= k < ms.len() && #[trigger] ms[k].area != 0 ==> gridded(
                ms[k],
                grid_axis(ms, outline.0, false),
                grid_axis(ms, outline.1, true),
            ),
{
    let n = ms.len() as int;
    let xg = grid_axis(ms, outline.0, false);
    let yg = grid_axis(ms, outline.1, true);
    assert(n < 0x8000_0000) by (nonlinear_arith)
        requires (2 * n + 2) * (2 * n + 2) <= usize::MAX, usize::MAX <= 0xffff_ffff_ffff_ffff, n >= 0;
    lemma_grid_axis(ms, outline.0, false);
    lemma_grid_axis(ms, outline.1, true);
    let ex = raw_edges(ms, outline.0, false, n);
    let ey = raw_edges(ms, outline.1, true, n);
    assert forall|i: int, j: int| 0 <= i < xg.len() && 0 <= j < xg.len() implies #[trigger] xg[i] - #[trigger] xg[j]
        <= i32::MAX by {
        assert(xg.contains(xg[i]));
        assert(xg.contains(xg[j]));
        let a = choose|a: int| 0 <= a < ex.len() && ex[a] == xg[i];
        let b = choose|b: int| 0 <= b < ex.len() && ex[b] == xg[j];
        assert(ex[a] - ex[b] <= i32::MAX);
    }
    assert forall|i: int, j: int| 0 <= i < yg.len() && 0 <= j < yg.len() implies #[trigger] yg[i] - #[trigger] yg[j]
        <= i32::MAX by {
        assert(yg.contains(yg[i]));
        assert(yg.contains(yg[j]));
        let a = choose|a: int| 0 <= a < ey.len() && ey[a] == yg[i];
        let b = choose|b: int| 0 <= b < ey.len() && ey[b] == yg[j];
        assert(ey[a] - ey[b] <= i32::MAX);
    }
    crate::placement::deadspace::lemma_raw_edges(ms, outline, outline.0, false, n);
    crate::placement::deadspace::lemma_raw_edges(ms, outline, outline.1, true, n);
    assert forall|k: int| 0 <= k < ms.len() && #[trigger] ms[k].area != 0 implies gridded(ms[k], xg, yg) by {
        let m = ms[k];
        assert(shaped(m) && inside(m, outline));
        assert(m.width > 0 && m.height > 0) by (nonlinear_arith)
            requires m.area == m.width * m.height, m.area != 0, m.width >= 0, m.height >= 0;
        assert(ex.contains(m.x));
        assert(ey.contains(m.y));
    }
}

/// A gridded box on grids drawn from macros inside the outline lies inside it.
proof fn lemma_gridded_inside(ms: Seq<DeadSpaceMacro>, outline: (i32, i32), f: DeadSpaceMacro, k: int)
    requires
        legal_boxes(ms, outline),
        0 <= k < ms.len(),
        ms[k].area != 0,
        gridded(f, grid_axis(ms, outline.0, false), grid_axis(ms, outline.1, true)),
    ensures
        inside(f, outline),
{
    let n = ms.len() as int;
    assert(inside(ms[k], outline));
    lemma_grid_axis(ms, outline.0, false);
    lemma_grid_axis(ms, outline.1, true);
    lemma_raw_within(ms, outline.0, false, n);
    lemma_raw_within(ms, outline.1, true, n);
    let ex = raw_edges(ms, outline.0, false, n);
    let ey = raw_edges(ms, outline.1, true, n);
    assert(ex.contains(f.x));
    assert(ex.contains((f.x + f.width) as i32));
    assert(ey.contains(f.y));
    assert(ey.contains((f.y + f.height) as i32));
}

/// Two gridded macros that own their spans in one grid are apart.
proof fn lemma_owners_apart(g: Grid, fs: Seq<DeadSpaceMacro>, xg: Seq<i32>, yg: Seq<i32>, a: int, b: int)
    requires
        grids_ok(xg, yg),
        owns_spans(g, fs, xg, yg),
        0 <= a < fs.len(),
        0 <= b < fs.len(),
        a != b,
        fs[a].area != 0,
        fs[b].area != 0,
    ensures
        apart(fs[a], fs[b]),
{
    let fa = fs[a];
    let fb = fs[b];
    if !apart(fa, fb) {
        lemma_span_of_gridded(fa, xg, yg);
        lemma_span_of_gridded(fb, xg, yg);
        let sa = span_of(fa, xg, yg);
        let sb = span_of(fb, xg, yg);
        assert(sa.1 > sb.0) by {
            if sa.1 < sb.0 {
                assert(xg[sa.1] < xg[sb.0]);
            }
        }
        assert(sb.1 > sa.0) by {
            if sb.1 < sa.0 {
                assert(xg[sb.1] < xg[sa.0]);
            }
        }
        assert(sa.3 > sb.2) by {
            if sa.3 < sb.2 {
                assert(yg[sa.3] < yg[sb.2]);
            }
        }
        assert(sb.3 > sa.2) by {
            if sb.3 < sa.2 {
                assert(yg[sb.3] < yg[sa.2]);
            }
        }
        let c = if sa.0 >= sb.0 { sa.0 } else { sb.0 };
        let r = if sa.2 >= sb.2 { sa.2 } else { sb.2 };
        assert(in_span(sa, r, c));
        assert(in_span(sb, r, c));
        assert(g(r, c) == a);
        assert(g(r, c) == b);
    }
}

/// Filling dead space keeps the placement legal. Given the macros with area have their area
/// as width times height, lie inside the outline and overlap nowhere, then afterwards: the
/// macro count is unchanged; a macro without area comes out as it went in; every macro with
/// area still has area, its area is still its width times its height, its new box holds its
/// old one and lies inside the outline, and its flags are unchanged; and no two macros with
/// area overlap.
pub proof fn lemma_filling_keeps_boxes_legal(ms: Seq<DeadSpaceMacro>, outline: (i32, i32))
    requires
        dead_space_ok(ms, outline),
        legal_boxes(ms, outline),
    ensures
        filled(ms, outline).len() == ms.len(),
        forall|k: int| 0 <= k < ms.len() && #[trigger] ms[k].area == 0 ==> filled(ms, outline)[k] == ms[k],
        forall|k: int|
            0 <= k < ms.len() && #[trigger] ms[k].area != 0 ==> {
                let f = filled(ms, outline)[k];
                &&& f.area != 0
                &&& shaped(f)
                &&& inside(f, outline)
                &&& encloses(f, ms[k])
                &&& same_flags(f, ms[k])
            },
        forall|a: int, b: int|
            0 <= a < ms.len() && 0 <= b < ms.len() && a != b && #[trigger] ms[a].area != 0 && #[trigger] ms[b].area != 0
                ==> apart(filled(ms, outline)[a], filled(ms, outline)[b]),
{
    let n = ms.len() as int;
    let xg = grid_axis(ms, outline.0, false);
    let yg = grid_axis(ms, outline.1, true);
    if xg.len() <= 1 || yg.len() <= 1 {
        assert(filled(ms, outline) == ms);
        return;
    }
    lemma_setup(ms, outline);
    lemma_initial(ms, xg, yg, n);
    let g0 = initial_grid(ms, xg, yg, n);
    assert(owns_spans(g0, ms, xg, yg));
    lemma_pass(g0, ms, xg, yg, 0, n);
    let (g1, ms1) = fill_pass(g0, ms, xg, yg, 0, n);
    lemma_pass(g1, ms1, xg, yg, 1, n);
    let (g2, ms2) = fill_pass(g1, ms1, xg, yg, 1, n);
    assert(filled(ms, outline) == ms2);
    assert forall|k: int| 0 <= k < ms.len() && #[trigger] ms[k].area != 0 implies {
        let f = ms2[k];
        &&& f.area != 0
        &&& shaped(f)
        &&& inside(f, outline)
        &&& encloses(f, ms[k])
        &&& same_flags(f, ms[k])
    } by {
        assert(ms1[k].area != 0);
        lemma_gridded_inside(ms, outline, ms2[k], k);
    }
    assert forall|a: int, b: int|
        0 <= a < ms.len() && 0 <= b < ms.len() && a != b && #[trigger] ms[a].area != 0 && #[trigger] ms[b].area != 0
            implies apart(ms2[a], ms2[b]) by {
        assert(ms1[a].area != 0);
        assert(ms1[b].area != 0);
        lemma_owners_apart(g2, ms2, xg, yg, a, b);
    }
}

} // verus!
