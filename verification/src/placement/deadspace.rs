//! Dead space: growing the soft clusters into whatever room nobody claimed. The outline is cut
//! into a grid along every macro edge; each cluster to grow claims free cells left, then up,
//! then right, then down, each direction starting from the bounds the previous one left.

use crate::anneal::SoftMacro;
use crate::placement::blockages::AreaKind;
use crate::sort::{ascending_i32, sort_i32};
use vstd::prelude::*;

verus! {

/// How many of the first `n` edges lie strictly below `coordinate`.
pub open spec fn count_below(coordinate: i32, coords: Seq<i32>, n: int) -> int
    decreases n,
{
    if n <= 0 {
        0
    } else {
        count_below(coordinate, coords, n - 1) + if coords[n - 1] < coordinate { 1int } else { 0int }
    }
}

/// The edges are in ascending order.
pub open spec fn ascending(coords: Seq<i32>) -> bool {
    forall|i: int, j: int| 0 <= i < j < coords.len() ==> coords[i] <= coords[j]
}

/// The edges are in strictly ascending order.
pub open spec fn strictly_ascending(coords: Seq<i32>) -> bool {
    forall|i: int, j: int| 0 <= i < j < coords.len() ==> coords[i] < coords[j]
}

pub(crate) proof fn lemma_count_below_split(coordinate: i32, coords: Seq<i32>, r: int, n: int)
    requires
        0 <= r <= n <= coords.len(),
        forall|i: int| 0 <= i < r ==> coords[i] < coordinate,
        forall|i: int| r <= i < coords.len() ==> coords[i] >= coordinate,
    ensures
        count_below(coordinate, coords, n) == r,
    decreases n,
{
    if n > r {
        lemma_count_below_split(coordinate, coords, r, n - 1);
    } else if n > 0 {
        lemma_count_below_all(coordinate, coords, n);
    }
}

proof fn lemma_count_below_all(coordinate: i32, coords: Seq<i32>, n: int)
    requires
        0 <= n <= coords.len(),
        forall|i: int| 0 <= i < n ==> coords[i] < coordinate,
    ensures
        count_below(coordinate, coords, n) == n,
    decreases n,
{
    if n > 0 {
        lemma_count_below_all(coordinate, coords, n - 1);
    }
}

/// Where a coordinate falls in an ascending edge list: the index of the first edge not below
/// it, so a coordinate that is an edge returns that edge's own index.
pub fn segment_index(coordinate: i32, coords: &[i32]) -> (r: usize)
    requires
        ascending(coords@),
    ensures
        r == count_below(coordinate, coords@, coords@.len() as int),
        r <= coords@.len(),
        forall|i: int| 0 <= i < r ==> coords@[i] < coordinate,
        forall|i: int| r <= i < coords@.len() ==> coords@[i] >= coordinate,
{
    let mut lo: usize = 0;
    let mut hi: usize = coords.len();
    while lo < hi
        invariant
            0 <= lo <= hi <= coords@.len(),
            ascending(coords@),
            forall|i: int| 0 <= i < lo ==> coords@[i] < coordinate,
            forall|i: int| hi <= i < coords@.len() ==> coords@[i] >= coordinate,
        decreases hi - lo,
    {
        let mid = lo + (hi - lo) / 2;
        if coords[mid] < coordinate {
            lo = mid + 1;
        } else {
            hi = mid;
        }
    }
    proof {
        lemma_count_below_split(coordinate, coords@, lo as int, coords@.len() as int);
    }
    lo
}

/// A macro as the dead-space filler sees it.
#[derive(Debug, Clone, Copy, PartialEq, Eq, Structural)]
pub struct DeadSpaceMacro {
    pub x: i32,
    pub y: i32,
    pub width: i32,
    pub height: i32,
    pub area: i64,
    pub is_mixed_cluster: bool,
    pub is_std_cell_cluster: bool,
}

/// The edges one axis of the grid is cut along: both edges of every macro with area, then the
/// outline's two, before sorting.
pub open spec fn raw_edges(ms: Seq<DeadSpaceMacro>, extent: i32, vertical: bool, n: int) -> Seq<i32>
    decreases n,
{
    if n <= 0 {
        seq![0i32, extent]
    } else {
        let prev = raw_edges(ms, extent, vertical, n - 1);
        let m = ms[n - 1];
        if m.area == 0 {
            prev
        } else if vertical {
            prev.push(m.y).push((m.y + m.height) as i32)
        } else {
            prev.push(m.x).push((m.x + m.width) as i32)
        }
    }
}

/// A sorted list with repeated values kept once.
pub open spec fn dedup_sorted(s: Seq<i32>) -> Seq<i32>
    decreases s.len(),
{
    if s.len() == 0 {
        Seq::empty()
    } else {
        let prev = dedup_sorted(s.drop_last());
        if prev.len() > 0 && prev.last() == s.last() { prev } else { prev.push(s.last()) }
    }
}

/// The grid lines of one axis: every distinct edge, ascending.
pub open spec fn grid_axis(ms: Seq<DeadSpaceMacro>, extent: i32, vertical: bool) -> Seq<i32> {
    dedup_sorted(ascending_i32(raw_edges(ms, extent, vertical, ms.len() as int)))
}

/// Every macro's far edges fit 32 bits.
pub open spec fn dead_space_fits(ms: Seq<DeadSpaceMacro>) -> bool {
    forall|k: int|
        0 <= k < ms.len() ==> i32::MIN <= #[trigger] ms[k].x + ms[k].width <= i32::MAX && i32::MIN
            <= ms[k].y + ms[k].height <= i32::MAX
}

fn axis_edges(macros: &Vec<DeadSpaceMacro>, extent: i32, vertical: bool) -> (r: Vec<i32>)
    requires
        dead_space_fits(macros@),
    ensures
        r@ == raw_edges(macros@, extent, vertical, macros@.len() as int),
{
    let mut out: Vec<i32> = Vec::new();
    out.push(0);
    out.push(extent);
    proof {
        assert(out@ =~= seq![0i32, extent]);
    }
    let mut k: usize = 0;
    while k < macros.len()
        invariant
            k <= macros@.len(),
            dead_space_fits(macros@),
            out@ == raw_edges(macros@, extent, vertical, k as int),
        decreases macros@.len() - k,
    {
        let m = macros[k];
        assert(i32::MIN <= m.x + m.width <= i32::MAX && i32::MIN <= m.y + m.height <= i32::MAX);
        if m.area != 0 {
            if vertical {
                out.push(m.y);
                out.push(m.y + m.height);
            } else {
                out.push(m.x);
                out.push(m.x + m.width);
            }
        }
        k = k + 1;
    }
    out
}

pub(crate) proof fn lemma_dedup_props(s: Seq<i32>)
    requires
        ascending(s),
    ensures
        strictly_ascending(dedup_sorted(s)),
        forall|v: i32| dedup_sorted(s).contains(v) <==> s.contains(v),
        s.len() > 0 ==> dedup_sorted(s).len() > 0 && dedup_sorted(s).last() == s.last(),
    decreases s.len(),
{
    if s.len() > 0 {
        let init = s.drop_last();
        assert(ascending(init));
        lemma_dedup_props(init);
        let prev = dedup_sorted(init);
        let d = dedup_sorted(s);
        let same = prev.len() > 0 && prev.last() == s.last();
        if same {
            assert(d == prev);
        } else {
            assert(d == prev.push(s.last()));
        }
        assert forall|v: i32| d.contains(v) implies s.contains(v) by {
            if prev.contains(v) {
                assert(init.contains(v));
                let i = choose|i: int| 0 <= i < init.len() && init[i] == v;
                assert(s[i] == v);
            } else {
                assert(!same);
                assert(d.last() == v || prev.contains(v)) by {
                    let k = choose|k: int| 0 <= k < d.len() && d[k] == v;
                    if k < prev.len() {
                        assert(prev[k] == v);
                    }
                }
                assert(s[s.len() - 1] == v);
            }
        }
        assert forall|v: i32| s.contains(v) implies d.contains(v) by {
            let i = choose|i: int| 0 <= i < s.len() && s[i] == v;
            if i < s.len() - 1 {
                assert(init[i] == v);
                assert(init.contains(v));
                assert(prev.contains(v));
                let k = choose|k: int| 0 <= k < prev.len() && prev[k] == v;
                if !same {
                    assert(d[k] == v);
                }
            } else {
                if same {
                    assert(prev[prev.len() - 1] == v);
                } else {
                    assert(d[d.len() - 1] == v);
                }
            }
        }
        if prev.len() > 0 {
            assert(prev.contains(prev.last()));
            assert(init.contains(prev.last()));
            let i = choose|i: int| 0 <= i < init.len() && init[i] == prev.last();
            assert(init[i] <= s.last());
        }
        assert forall|i: int, j: int| 0 <= i < j < d.len() implies d[i] < d[j] by {
            if !same && j == d.len() - 1 {
                if prev.len() > 0 {
                    assert(prev[i] <= prev.last());
                }
            }
        }
    }
}

fn dedup(sorted: &Vec<i32>) -> (r: Vec<i32>)
    ensures
        r@ == dedup_sorted(sorted@),
{
    let mut out: Vec<i32> = Vec::new();
    let mut k: usize = 0;
    while k < sorted.len()
        invariant
            k <= sorted@.len(),
            out@ == dedup_sorted(sorted@.take(k as int)),
        decreases sorted@.len() - k,
    {
        let v = sorted[k];
        proof {
            assert(sorted@.take(k + 1).drop_last() =~= sorted@.take(k as int));
            assert(sorted@.take(k + 1).last() == v);
        }
        if out.len() > 0 && out[out.len() - 1] == v {
        } else {
            out.push(v);
        }
        k = k + 1;
    }
    proof {
        assert(sorted@.take(sorted@.len() as int) =~= sorted@);
    }
    out
}

pub(crate) proof fn lemma_ascending_sorted(s: Seq<i32>)
    ensures
        ascending(ascending_i32(s)),
        forall|v: i32| ascending_i32(s).contains(v) <==> s.contains(v),
        ascending_i32(s).len() == s.len(),
{
    broadcast use vstd::seq_lib::group_to_multiset_ensures;
    s.lemma_sort_by_ensures(|a: i32, b: i32| crate::sort::le_i32(a, b));
    let t = ascending_i32(s);
    let leq = |a: i32, b: i32| crate::sort::le_i32(a, b);
    assert(vstd::relations::sorted_by(t, leq));
    assert forall|i: int, j: int| 0 <= i < j < t.len() implies t[i] <= t[j] by {
        assert(leq(t[i], t[j]));
    }
    vstd::seq_lib::to_multiset_len(s);
    vstd::seq_lib::to_multiset_len(t);
    assert forall|v: i32| t.contains(v) <==> s.contains(v) by {
        vstd::seq_lib::to_multiset_contains(s, v);
        vstd::seq_lib::to_multiset_contains(t, v);
    }
}

/// The grid edges the filler cuts the outline along: every edge of every macro with area, and
/// the outline's own two, each once, ascending. A zero-area macro cuts nothing.
pub fn dead_space_grid(macros: &Vec<DeadSpaceMacro>, outline: (i32, i32)) -> (r: (Vec<i32>, Vec<i32>))
    requires
        dead_space_fits(macros@),
    ensures
        r.0@ == grid_axis(macros@, outline.0, false),
        r.1@ == grid_axis(macros@, outline.1, true),
        strictly_ascending(r.0@),
        strictly_ascending(r.1@),
        forall|v: i32| r.0@.contains(v) <==> raw_edges(macros@, outline.0, false, macros@.len() as int).contains(v),
        forall|v: i32| r.1@.contains(v) <==> raw_edges(macros@, outline.1, true, macros@.len() as int).contains(v),
{
    let xs = sort_i32(axis_edges(macros, outline.0, false));
    let ys = sort_i32(axis_edges(macros, outline.1, true));
    let gx = dedup(&xs);
    let gy = dedup(&ys);
    proof {
        lemma_ascending_sorted(raw_edges(macros@, outline.0, false, macros@.len() as int));
        lemma_ascending_sorted(raw_edges(macros@, outline.1, true, macros@.len() as int));
        lemma_dedup_props(xs@);
        lemma_dedup_props(ys@);
    }
    (gx, gy)
}

/// The grid's cells: who claimed each, `-1` for nobody.
pub type Grid = spec_fn(int, int) -> i64;

/// The cells of `(x_start, x_end, y_start, y_end)`, half open.
pub type Span = (int, int, int, int);

/// `g` with the rectangle of columns `[x0, x1)` and rows `[y0, y1)` claimed by `id`.
pub open spec fn painted(g: Grid, x0: int, x1: int, y0: int, y1: int, id: i64) -> Grid {
    |r: int, c: int| if y0 <= r < y1 && x0 <= c < x1 { id } else { g(r, c) }
}

/// Column `c` is unclaimed in rows `[y0, y1)`.
pub open spec fn col_free(g: Grid, c: int, y0: int, y1: int) -> bool {
    forall|r: int| y0 <= r < y1 ==> #[trigger] g(r, c) == -1
}

/// Row `r` is unclaimed in columns `[x0, x1)`.
pub open spec fn row_free(g: Grid, r: int, x0: int, x1: int) -> bool {
    forall|c: int| x0 <= c < x1 ==> #[trigger] g(r, c) == -1
}

/// How far left from column `i` the free columns run, over rows `[y0, y1)`.
pub open spec fn left_stop(g: Grid, i: int, y0: int, y1: int) -> int
    decreases i,
{
    if i <= 0 {
        i
    } else if col_free(g, i - 1, y0, y1) {
        left_stop(g, i - 1, y0, y1)
    } else {
        i
    }
}

/// How far up from row `j` the free rows run, over columns `[x0, x1)`, below row `ny`.
pub open spec fn up_stop(g: Grid, j: int, x0: int, x1: int, ny: int) -> int
    decreases ny - j,
{
    if j >= ny {
        j
    } else if row_free(g, j, x0, x1) {
        up_stop(g, j + 1, x0, x1, ny)
    } else {
        j
    }
}

/// How far right from column `i` the free columns run, over rows `[y0, y1)`, before `nx`.
pub open spec fn right_stop(g: Grid, i: int, y0: int, y1: int, nx: int) -> int
    decreases nx - i,
{
    if i >= nx {
        i
    } else if col_free(g, i, y0, y1) {
        right_stop(g, i + 1, y0, y1, nx)
    } else {
        i
    }
}

/// How far down from row `j` the free rows run, over columns `[x0, x1)`.
pub open spec fn down_stop(g: Grid, j: int, x0: int, x1: int) -> int
    decreases j,
{
    if j <= 0 {
        j
    } else if row_free(g, j - 1, x0, x1) {
        down_stop(g, j - 1, x0, x1)
    } else {
        j
    }
}

/// One cluster grown from its span: left, then up, then right, then down, each claiming the
/// free cells it sweeps and starting from the bounds the previous direction left.
pub open spec fn grown(g: Grid, sp: Span, id: i64, nx: int, ny: int) -> (Grid, Span) {
    let (xs, xe, ys, ye) = sp;
    let xs2 = left_stop(g, xs, ys, ye);
    let g1 = painted(g, xs2, xs, ys, ye, id);
    let ye2 = up_stop(g1, ye, xs2, xe, ny);
    let g2 = painted(g1, xs2, xe, ye, ye2, id);
    let xe2 = right_stop(g2, xe, ys, ye2, nx);
    let g3 = painted(g2, xe, xe2, ys, ye2, id);
    let ys2 = down_stop(g3, ys, xs2, xe2);
    let g4 = painted(g3, xs2, xe2, ys2, ys, id);
    (g4, (xs2, xe2, ys2, ye2))
}

/// The grid cells a macro covers.
pub open spec fn span_of(m: DeadSpaceMacro, xg: Seq<i32>, yg: Seq<i32>) -> Span {
    (
        count_below(m.x, xg, xg.len() as int),
        count_below((m.x + m.width) as i32, xg, xg.len() as int),
        count_below(m.y, yg, yg.len() as int),
        count_below((m.y + m.height) as i32, yg, yg.len() as int),
    )
}

/// The grid with every macro that has area painted on it in order, later ones over earlier.
pub open spec fn initial_grid(ms: Seq<DeadSpaceMacro>, xg: Seq<i32>, yg: Seq<i32>, n: int) -> Grid
    decreases n,
{
    if n <= 0 {
        |r: int, c: int| -1i64
    } else {
        let g = initial_grid(ms, xg, yg, n - 1);
        let m = ms[n - 1];
        if m.area == 0 {
            g
        } else {
            let sp = span_of(m, xg, yg);
            painted(g, sp.0, sp.1, sp.2, sp.3, (n - 1) as i64)
        }
    }
}

/// Mixed clusters grow in the first pass, standard-cell clusters in the second.
pub open spec fn wanted(m: DeadSpaceMacro, order: int) -> bool {
    if order == 0 { m.is_mixed_cluster } else { m.is_std_cell_cluster }
}

/// A macro reset to the box of a grown span, its area recomputed.
pub open spec fn regrown(m: DeadSpaceMacro, sp: Span, xg: Seq<i32>, yg: Seq<i32>) -> DeadSpaceMacro {
    let w = xg[sp.1] - xg[sp.0];
    let h = yg[sp.3] - yg[sp.2];
    DeadSpaceMacro { x: xg[sp.0], y: yg[sp.2], width: w as i32, height: h as i32, area: (w * h) as i64, ..m }
}

/// The grid and macros after one pass over the first `n` macros.
pub open spec fn fill_pass(g: Grid, ms: Seq<DeadSpaceMacro>, xg: Seq<i32>, yg: Seq<i32>, order: int, n: int) -> (Grid, Seq<DeadSpaceMacro>)
    decreases n,
{
    if n <= 0 {
        (g, ms)
    } else {
        let (g1, ms1) = fill_pass(g, ms, xg, yg, order, n - 1);
        let id = n - 1;
        let m = ms1[id];
        if m.area == 0 || !wanted(m, order) {
            (g1, ms1)
        } else {
            let (g2, sp) = grown(g1, span_of(m, xg, yg), id as i64, xg.len() - 1, yg.len() - 1);
            (g2, ms1.update(id, regrown(m, sp, xg, yg)))
        }
    }
}

/// The macros after both passes; nothing moves when the grid has no cell.
pub open spec fn filled(ms: Seq<DeadSpaceMacro>, outline: (i32, i32)) -> Seq<DeadSpaceMacro> {
    let xg = grid_axis(ms, outline.0, false);
    let yg = grid_axis(ms, outline.1, true);
    if xg.len() <= 1 || yg.len() <= 1 {
        ms
    } else {
        let g0 = initial_grid(ms, xg, yg, ms.len() as int);
        let (g1, ms1) = fill_pass(g0, ms, xg, yg, 0, ms.len() as int);
        fill_pass(g1, ms1, xg, yg, 1, ms.len() as int).1
    }
}

/// The cell in row `r`, column `c` of a grid stored row by row.
pub open spec fn at(cells: Seq<i64>, nx: int, r: int, c: int) -> i64 {
    cells[r * nx + c]
}

/// The stored cells are the grid `g`, row by row.
pub open spec fn stores(cells: Seq<i64>, g: Grid, nx: int, ny: int) -> bool {
    &&& cells.len() == nx * ny
    &&& forall|r: int, c: int| 0 <= r < ny && 0 <= c < nx ==> #[trigger] at(cells, nx, r, c) == g(r, c)
}

proof fn lemma_index(nx: int, ny: int, r: int, c: int)
    requires
        0 <= r < ny,
        0 <= c < nx,
    ensures
        0 <= r * nx + c < nx * ny,
{
    assert(0 <= r * nx + c < nx * ny) by (nonlinear_arith)
        requires 0 <= r < ny, 0 <= c < nx;
}

proof fn lemma_index_distinct(nx: int, r1: int, c1: int, r2: int, c2: int)
    requires
        0 <= r1,
        0 <= r2,
        0 <= c1 < nx,
        0 <= c2 < nx,
        r1 != r2 || c1 != c2,
    ensures
        r1 * nx + c1 != r2 * nx + c2,
{
    if r1 < r2 {
        assert(r1 * nx + c1 < r2 * nx + c2) by (nonlinear_arith)
            requires r1 < r2, 0 <= c1 < nx, 0 <= c2;
    } else if r2 < r1 {
        assert(r2 * nx + c2 < r1 * nx + c1) by (nonlinear_arith)
            requires r2 < r1, 0 <= c2 < nx, 0 <= c1;
    }
}

proof fn lemma_stores_ext(cells: Seq<i64>, g1: Grid, g2: Grid, nx: int, ny: int)
    requires
        stores(cells, g1, nx, ny),
        forall|r: int, c: int| 0 <= r < ny && 0 <= c < nx ==> #[trigger] g1(r, c) == g2(r, c),
    ensures
        stores(cells, g2, nx, ny),
{
    assert forall|r: int, c: int| 0 <= r < ny && 0 <= c < nx implies #[trigger] at(cells, nx, r, c) == g2(r, c) by {
        assert(at(cells, nx, r, c) == g1(r, c));
    }
}

fn set_cell(cells: &mut Vec<i64>, nx: usize, ny: usize, r: usize, c: usize, id: i64, Ghost(g): Ghost<Grid>)
    requires
        stores(old(cells)@, g, nx as int, ny as int),
        r < ny,
        c < nx,
    ensures
        stores(final(cells)@, painted(g, c as int, c + 1, r as int, r + 1, id), nx as int, ny as int),
{
    let total = cells.len();
    proof {
        lemma_index(nx as int, ny as int, r as int, c as int);
    }
    let k = r * nx + c;
    cells.set(k, id);
    proof {
        let h = painted(g, c as int, c + 1, r as int, r + 1, id);
        assert forall|r2: int, c2: int| 0 <= r2 < ny && 0 <= c2 < nx implies #[trigger] at(cells@, nx as int, r2, c2) == h(r2, c2) by {
            lemma_index(nx as int, ny as int, r2, c2);
            if r2 != r || c2 != c {
                lemma_index_distinct(nx as int, r2, c2, r as int, c as int);
                assert(at(old(cells)@, nx as int, r2, c2) == g(r2, c2));
            }
        }
    }
}

fn paint_rect(
    cells: &mut Vec<i64>,
    nx: usize,
    ny: usize,
    x0: usize,
    x1: usize,
    y0: usize,
    y1: usize,
    id: i64,
    Ghost(g): Ghost<Grid>,
)
    requires
        stores(old(cells)@, g, nx as int, ny as int),
        x1 <= nx,
        y1 <= ny,
    ensures
        stores(final(cells)@, painted(g, x0 as int, x1 as int, y0 as int, y1 as int, id), nx as int, ny as int),
{
    let mut r = y0;
    while r < y1
        invariant
            y0 <= y1 ==> r <= y1,
            y1 < y0 ==> r == y0,
            x1 <= nx,
            y1 <= ny,
            r >= y0,
            stores(cells@, painted(g, x0 as int, x1 as int, y0 as int, r as int, id), nx as int, ny as int),
        decreases y1 - r,
    {
        let mut c = x0;
        while c < x1
            invariant
                x1 <= nx,
                y0 <= r < y1 <= ny,
                c >= x0,
                x0 <= x1 ==> c <= x1,
                x1 < x0 ==> c == x0,
                stores(
                    cells@,
                    |rr: int, cc: int| if (y0 <= rr < r && x0 <= cc < x1) || (rr == r && x0 <= cc < c) { id } else { g(rr, cc) },
                    nx as int,
                    ny as int,
                ),
            decreases x1 - c,
        {
            let ghost before = |rr: int, cc: int| if (y0 <= rr < r && x0 <= cc < x1) || (rr == r && x0 <= cc < c) { id } else { g(rr, cc) };
            set_cell(cells, nx, ny, r, c, id, Ghost(before));
            proof {
                let after = |rr: int, cc: int| if (y0 <= rr < r && x0 <= cc < x1) || (rr == r && x0 <= cc < c + 1) { id } else { g(rr, cc) };
                let p = painted(before, c as int, c + 1, r as int, r + 1, id);
                assert forall|rr: int, cc: int| 0 <= rr < ny && 0 <= cc < nx implies #[trigger] p(rr, cc) == after(rr, cc) by {}
                lemma_stores_ext(cells@, p, after, nx as int, ny as int);
            }
            c = c + 1;
        }
        proof {
            let inner = |rr: int, cc: int| if (y0 <= rr < r && x0 <= cc < x1) || (rr == r && x0 <= cc < c) { id } else { g(rr, cc) };
            let p = painted(g, x0 as int, x1 as int, y0 as int, r + 1, id);
            assert forall|rr: int, cc: int| 0 <= rr < ny && 0 <= cc < nx implies #[trigger] inner(rr, cc) == p(rr, cc) by {}
            lemma_stores_ext(cells@, inner, p, nx as int, ny as int);
        }
        r = r + 1;
    }
    proof {
        let p1 = painted(g, x0 as int, x1 as int, y0 as int, r as int, id);
        let p2 = painted(g, x0 as int, x1 as int, y0 as int, y1 as int, id);
        assert forall|rr: int, cc: int| 0 <= rr < ny && 0 <= cc < nx implies #[trigger] p1(rr, cc) == p2(rr, cc) by {}
        lemma_stores_ext(cells@, p1, p2, nx as int, ny as int);
    }
}

fn col_is_free(cells: &Vec<i64>, nx: usize, ny: usize, c: usize, y0: usize, y1: usize, Ghost(g): Ghost<Grid>) -> (free: bool)
    requires
        stores(cells@, g, nx as int, ny as int),
        c < nx,
        y1 <= ny,
    ensures
        free == col_free(g, c as int, y0 as int, y1 as int),
{
    let mut r = y0;
    while r < y1
        invariant
            c < nx,
            y1 <= ny,
            r >= y0,
            stores(cells@, g, nx as int, ny as int),
            forall|rr: int| y0 <= rr < r ==> #[trigger] g(rr, c as int) == -1,
        decreases y1 - r,
    {
        let total = cells.len();
        proof {
            lemma_index(nx as int, ny as int, r as int, c as int);
            assert(at(cells@, nx as int, r as int, c as int) == g(r as int, c as int));
        }
        if cells[r * nx + c] != -1 {
            return false;
        }
        r = r + 1;
    }
    true
}

fn row_is_free(cells: &Vec<i64>, nx: usize, ny: usize, r: usize, x0: usize, x1: usize, Ghost(g): Ghost<Grid>) -> (free: bool)
    requires
        stores(cells@, g, nx as int, ny as int),
        r < ny,
        x1 <= nx,
    ensures
        free == row_free(g, r as int, x0 as int, x1 as int),
{
    let mut c = x0;
    while c < x1
        invariant
            r < ny,
            x1 <= nx,
            c >= x0,
            stores(cells@, g, nx as int, ny as int),
            forall|cc: int| x0 <= cc < c ==> #[trigger] g(r as int, cc) == -1,
        decreases x1 - c,
    {
        let total = cells.len();
        proof {
            lemma_index(nx as int, ny as int, r as int, c as int);
            assert(at(cells@, nx as int, r as int, c as int) == g(r as int, c as int));
        }
        if cells[r * nx + c] != -1 {
            return false;
        }
        c = c + 1;
    }
    true
}

proof fn lemma_col_free_same(g1: Grid, g2: Grid, c: int, y0: int, y1: int)
    requires
        forall|r: int| y0 <= r < y1 ==> #[trigger] g1(r, c) == g2(r, c),
    ensures
        col_free(g1, c, y0, y1) == col_free(g2, c, y0, y1),
{
    if col_free(g1, c, y0, y1) {
        assert forall|r: int| y0 <= r < y1 implies #[trigger] g2(r, c) == -1 by {
            assert(g1(r, c) == -1);
        }
    }
    if col_free(g2, c, y0, y1) {
        assert forall|r: int| y0 <= r < y1 implies #[trigger] g1(r, c) == -1 by {
            assert(g2(r, c) == -1);
        }
    }
}

proof fn lemma_row_free_same(g1: Grid, g2: Grid, r: int, x0: int, x1: int)
    requires
        forall|c: int| x0 <= c < x1 ==> #[trigger] g1(r, c) == g2(r, c),
    ensures
        row_free(g1, r, x0, x1) == row_free(g2, r, x0, x1),
{
    if row_free(g1, r, x0, x1) {
        assert forall|c: int| x0 <= c < x1 implies #[trigger] g2(r, c) == -1 by {
            assert(g1(r, c) == -1);
        }
    }
    if row_free(g2, r, x0, x1) {
        assert forall|c: int| x0 <= c < x1 implies #[trigger] g1(r, c) == -1 by {
            assert(g2(r, c) == -1);
        }
    }
}

/// Grow one cluster from its span on the stored grid.
#[verifier::spinoff_prover]
fn grow(
    cells: &mut Vec<i64>,
    nx: usize,
    ny: usize,
    sp: (usize, usize, usize, usize),
    id: i64,
    Ghost(g): Ghost<Grid>,
) -> (r: (usize, usize, usize, usize))
    requires
        stores(old(cells)@, g, nx as int, ny as int),
        sp.0 <= nx,
        sp.1 <= nx,
        sp.2 <= ny,
        sp.3 <= ny,
    ensures
        ({
            let (g4, s4) = grown(g, (sp.0 as int, sp.1 as int, sp.2 as int, sp.3 as int), id, nx as int, ny as int);
            &&& stores(final(cells)@, g4, nx as int, ny as int)
            &&& s4 == (r.0 as int, r.1 as int, r.2 as int, r.3 as int)
        }),
        r.0 <= nx,
        r.1 <= nx,
        r.2 <= ny,
        r.3 <= ny,
{
    let (xs0, xe0, ys0, ye0) = sp;
    // Left.
    let mut xs = xs0;
    let mut going = true;
    while going && xs > 0
        invariant
            xs <= xs0 <= nx,
            ye0 <= ny,
            stores(cells@, painted(g, xs as int, xs0 as int, ys0 as int, ye0 as int, id), nx as int, ny as int),
            going ==> left_stop(g, xs0 as int, ys0 as int, ye0 as int) == left_stop(g, xs as int, ys0 as int, ye0 as int),
            !going ==> left_stop(g, xs0 as int, ys0 as int, ye0 as int) == xs,
        decreases xs + (if going { 1int } else { 0int }),
    {
        let ghost cur = painted(g, xs as int, xs0 as int, ys0 as int, ye0 as int, id);
        let free = col_is_free(cells, nx, ny, xs - 1, ys0, ye0, Ghost(cur));
        proof {
            assert forall|r: int| ys0 <= r < ye0 implies #[trigger] cur(r, xs - 1) == g(r, xs - 1) by {}
            lemma_col_free_same(cur, g, xs - 1, ys0 as int, ye0 as int);
        }
        if free {
            xs = xs - 1;
            paint_rect(cells, nx, ny, xs, xs + 1, ys0, ye0, id, Ghost(cur));
            proof {
                let p = painted(cur, xs as int, xs + 1, ys0 as int, ye0 as int, id);
                let q = painted(g, xs as int, xs0 as int, ys0 as int, ye0 as int, id);
                assert forall|rr: int, cc: int| 0 <= rr < ny && 0 <= cc < nx implies #[trigger] p(rr, cc) == q(rr, cc) by {}
                lemma_stores_ext(cells@, p, q, nx as int, ny as int);
            }
        } else {
            going = false;
        }
    }
    let xs2 = xs;
    let ghost g1 = painted(g, xs2 as int, xs0 as int, ys0 as int, ye0 as int, id);
    // Up.
    let mut ye = ye0;
    going = true;
    while going && ye < ny
        invariant
            ye0 <= ye <= ny,
            xe0 <= nx,
            stores(cells@, painted(g1, xs2 as int, xe0 as int, ye0 as int, ye as int, id), nx as int, ny as int),
            going ==> up_stop(g1, ye0 as int, xs2 as int, xe0 as int, ny as int) == up_stop(g1, ye as int, xs2 as int, xe0 as int, ny as int),
            !going ==> up_stop(g1, ye0 as int, xs2 as int, xe0 as int, ny as int) == ye,
        decreases ny - ye + (if going { 1int } else { 0int }),
    {
        let ghost cur = painted(g1, xs2 as int, xe0 as int, ye0 as int, ye as int, id);
        let free = row_is_free(cells, nx, ny, ye, xs2, xe0, Ghost(cur));
        proof {
            assert forall|c: int| xs2 <= c < xe0 implies #[trigger] cur(ye as int, c) == g1(ye as int, c) by {}
            lemma_row_free_same(cur, g1, ye as int, xs2 as int, xe0 as int);
        }
        if free {
            paint_rect(cells, nx, ny, xs2, xe0, ye, ye + 1, id, Ghost(cur));
            proof {
                let p = painted(cur, xs2 as int, xe0 as int, ye as int, ye + 1, id);
                let q = painted(g1, xs2 as int, xe0 as int, ye0 as int, ye + 1, id);
                assert forall|rr: int, cc: int| 0 <= rr < ny && 0 <= cc < nx implies #[trigger] p(rr, cc) == q(rr, cc) by {}
                lemma_stores_ext(cells@, p, q, nx as int, ny as int);
            }
            ye = ye + 1;
        } else {
            going = false;
        }
    }
    proof {
        if going {
            assert(up_stop(g1, ye as int, xs2 as int, xe0 as int, ny as int) == ye);
        }
    }
    let ye2 = ye;
    let ghost g2 = painted(g1, xs2 as int, xe0 as int, ye0 as int, ye2 as int, id);
    // Right.
    let mut xe = xe0;
    going = true;
    while going && xe < nx
        invariant
            xe0 <= xe <= nx,
            ye2 <= ny,
            stores(cells@, painted(g2, xe0 as int, xe as int, ys0 as int, ye2 as int, id), nx as int, ny as int),
            going ==> right_stop(g2, xe0 as int, ys0 as int, ye2 as int, nx as int) == right_stop(g2, xe as int, ys0 as int, ye2 as int, nx as int),
            !going ==> right_stop(g2, xe0 as int, ys0 as int, ye2 as int, nx as int) == xe,
        decreases nx - xe + (if going { 1int } else { 0int }),
    {
        let ghost cur = painted(g2, xe0 as int, xe as int, ys0 as int, ye2 as int, id);
        let free = col_is_free(cells, nx, ny, xe, ys0, ye2, Ghost(cur));
        proof {
            assert forall|r: int| ys0 <= r < ye2 implies #[trigger] cur(r, xe as int) == g2(r, xe as int) by {}
            lemma_col_free_same(cur, g2, xe as int, ys0 as int, ye2 as int);
        }
        if free {
            paint_rect(cells, nx, ny, xe, xe + 1, ys0, ye2, id, Ghost(cur));
            proof {
                let p = painted(cur, xe as int, xe + 1, ys0 as int, ye2 as int, id);
                let q = painted(g2, xe0 as int, xe + 1, ys0 as int, ye2 as int, id);
                assert forall|rr: int, cc: int| 0 <= rr < ny && 0 <= cc < nx implies #[trigger] p(rr, cc) == q(rr, cc) by {}
                lemma_stores_ext(cells@, p, q, nx as int, ny as int);
            }
            xe = xe + 1;
        } else {
            going = false;
        }
    }
    proof {
        if going {
            assert(right_stop(g2, xe as int, ys0 as int, ye2 as int, nx as int) == xe);
        }
    }
    let xe2 = xe;
    let ghost g3 = painted(g2, xe0 as int, xe2 as int, ys0 as int, ye2 as int, id);
    // Down.
    let mut ys = ys0;
    going = true;
    while going && ys > 0
        invariant
            ys <= ys0 <= ny,
            xe2 <= nx,
            stores(cells@, painted(g3, xs2 as int, xe2 as int, ys as int, ys0 as int, id), nx as int, ny as int),
            going ==> down_stop(g3, ys0 as int, xs2 as int, xe2 as int) == down_stop(g3, ys as int, xs2 as int, xe2 as int),
            !going ==> down_stop(g3, ys0 as int, xs2 as int, xe2 as int) == ys,
        decreases ys + (if going { 1int } else { 0int }),
    {
        let ghost cur = painted(g3, xs2 as int, xe2 as int, ys as int, ys0 as int, id);
        let free = row_is_free(cells, nx, ny, ys - 1, xs2, xe2, Ghost(cur));
        proof {
            assert forall|c: int| xs2 <= c < xe2 implies #[trigger] cur(ys - 1, c) == g3(ys - 1, c) by {}
            lemma_row_free_same(cur, g3, ys - 1, xs2 as int, xe2 as int);
        }
        if free {
            ys = ys - 1;
            paint_rect(cells, nx, ny, xs2, xe2, ys, ys + 1, id, Ghost(cur));
            proof {
                let p = painted(cur, xs2 as int, xe2 as int, ys as int, ys + 1, id);
                let q = painted(g3, xs2 as int, xe2 as int, ys as int, ys0 as int, id);
                assert forall|rr: int, cc: int| 0 <= rr < ny && 0 <= cc < nx implies #[trigger] p(rr, cc) == q(rr, cc) by {}
                lemma_stores_ext(cells@, p, q, nx as int, ny as int);
            }
        } else {
            going = false;
        }
    }
    (xs2, xe2, ys, ye2)
}

/// Any two of the values are within 32 bits of each other.
pub open spec fn spread_fits(e: Seq<i32>) -> bool {
    forall|i: int, j: int| 0 <= i < e.len() && 0 <= j < e.len() ==> #[trigger] e[i] - #[trigger] e[j] <= i32::MAX
}

/// Every macro's far edges fit 32 bits, any two grid lines of an axis are within 32 bits of
/// each other, so every width the filler takes between two of them fits, and there are few
/// enough macros that the grid's cells can be counted.
pub open spec fn dead_space_ok(ms: Seq<DeadSpaceMacro>, outline: (i32, i32)) -> bool {
    &&& dead_space_fits(ms)
    &&& spread_fits(raw_edges(ms, outline.0, false, ms.len() as int))
    &&& spread_fits(raw_edges(ms, outline.1, true, ms.len() as int))
    &&& (2 * ms.len() + 2) * (2 * ms.len() + 2) <= usize::MAX
}

/// Any two grid values are within 32 bits of each other.
pub open spec fn axis_bounded(g: Seq<i32>) -> bool {
    spread_fits(g)
}

/// Every macro with area has its edges on the grid.
pub open spec fn on_grid(ms: Seq<DeadSpaceMacro>, xg: Seq<i32>, yg: Seq<i32>) -> bool {
    forall|k: int|
        0 <= k < ms.len() && #[trigger] ms[k].area != 0 ==> {
            &&& i32::MIN <= ms[k].x + ms[k].width <= i32::MAX
            &&& i32::MIN <= ms[k].y + ms[k].height <= i32::MAX
            &&& xg.contains(ms[k].x)
            &&& xg.contains((ms[k].x + ms[k].width) as i32)
            &&& yg.contains(ms[k].y)
            &&& yg.contains((ms[k].y + ms[k].height) as i32)
        }
}

pub(crate) proof fn lemma_raw_edges(ms: Seq<DeadSpaceMacro>, outline: (i32, i32), extent: i32, vertical: bool, n: int)
    requires
        dead_space_ok(ms, outline),
        extent == if vertical { outline.1 } else { outline.0 },
        0 <= n <= ms.len(),
    ensures
        raw_edges(ms, extent, vertical, n).len() <= 2 * n + 2,
        forall|k: int| 0 <= k < n && #[trigger] ms[k].area != 0 ==> {
            let e = raw_edges(ms, extent, vertical, n);
            if vertical {
                e.contains(ms[k].y) && e.contains((ms[k].y + ms[k].height) as i32)
            } else {
                e.contains(ms[k].x) && e.contains((ms[k].x + ms[k].width) as i32)
            }
        },
    decreases n,
{
    if n > 0 {
        lemma_raw_edges(ms, outline, extent, vertical, n - 1);
        let prev = raw_edges(ms, extent, vertical, n - 1);
        let e = raw_edges(ms, extent, vertical, n);
        let m = ms[n - 1];
        assert forall|k: int| 0 <= k < n && #[trigger] ms[k].area != 0 implies (if vertical {
            e.contains(ms[k].y) && e.contains((ms[k].y + ms[k].height) as i32)
        } else {
            e.contains(ms[k].x) && e.contains((ms[k].x + ms[k].width) as i32)
        }) by {
            if k < n - 1 {
                if m.area != 0 {
                    if vertical {
                        let i = choose|i: int| 0 <= i < prev.len() && prev[i] == ms[k].y;
                        let j = choose|j: int| 0 <= j < prev.len() && prev[j] == (ms[k].y + ms[k].height) as i32;
                        assert(e[i] == ms[k].y);
                        assert(e[j] == (ms[k].y + ms[k].height) as i32);
                    } else {
                        let i = choose|i: int| 0 <= i < prev.len() && prev[i] == ms[k].x;
                        let j = choose|j: int| 0 <= j < prev.len() && prev[j] == (ms[k].x + ms[k].width) as i32;
                        assert(e[i] == ms[k].x);
                        assert(e[j] == (ms[k].x + ms[k].width) as i32);
                    }
                }
            } else {
                if vertical {
                    assert(e[e.len() - 2] == ms[k].y);
                    assert(e[e.len() - 1] == (ms[k].y + ms[k].height) as i32);
                } else {
                    assert(e[e.len() - 2] == ms[k].x);
                    assert(e[e.len() - 1] == (ms[k].x + ms[k].width) as i32);
                }
            }
        }
    }
}

proof fn lemma_dedup_len(s: Seq<i32>)
    ensures
        dedup_sorted(s).len() <= s.len(),
    decreases s.len(),
{
    if s.len() > 0 {
        lemma_dedup_len(s.drop_last());
    }
}

proof fn lemma_index_of_member(g: Seq<i32>, v: i32)
    requires
        strictly_ascending(g),
        g.contains(v),
    ensures
        count_below(v, g, g.len() as int) < g.len(),
{
    let k = choose|k: int| 0 <= k < g.len() && g[k] == v;
    assert forall|i: int| 0 <= i < k implies g[i] < v by {}
    assert forall|i: int| k <= i < g.len() implies g[i] >= v by {
        if i > k {
            assert(g[k] < g[i]);
        }
    }
    lemma_count_below_split(v, g, k, g.len() as int);
}

/// One pass of the filler over every macro, on the stored grid.
#[verifier::spinoff_prover]
fn fill_pass_exec(
    macros: &mut Vec<DeadSpaceMacro>,
    cells: &mut Vec<i64>,
    xg: &Vec<i32>,
    yg: &Vec<i32>,
    order: u8,
    Ghost(g): Ghost<Grid>,
) -> (g_out: Ghost<Grid>)
    requires
        xg@.len() >= 2,
        yg@.len() >= 2,
        strictly_ascending(xg@),
        strictly_ascending(yg@),
        axis_bounded(xg@),
        axis_bounded(yg@),
        stores(old(cells)@, g, xg@.len() - 1, yg@.len() - 1),
        on_grid(old(macros)@, xg@, yg@),
        old(macros)@.len() < 0x8000_0000,
        order <= 1,
    ensures
        (g_out@, final(macros)@) == fill_pass(g, old(macros)@, xg@, yg@, order as int, old(macros)@.len() as int),
        stores(final(cells)@, g_out@, xg@.len() - 1, yg@.len() - 1),
        on_grid(final(macros)@, xg@, yg@),
        final(macros)@.len() == old(macros)@.len(),
{
    let nx = xg.len() - 1;
    let ny = yg.len() - 1;
    let ghost ms0 = macros@;
    let ghost mut gc = g;
    let n = macros.len();
    let mut id: usize = 0;
    while id < n
        invariant
            id <= n,
            n == ms0.len(),
            n < 0x8000_0000,
            order <= 1,
            nx == xg@.len() - 1,
            ny == yg@.len() - 1,
            xg@.len() >= 2,
            yg@.len() >= 2,
            strictly_ascending(xg@),
            strictly_ascending(yg@),
            axis_bounded(xg@),
            axis_bounded(yg@),
            macros@.len() == n,
            (gc, macros@) == fill_pass(g, ms0, xg@, yg@, order as int, id as int),
            stores(cells@, gc, nx as int, ny as int),
            on_grid(macros@, xg@, yg@),
        decreases n - id,
    {
        let m = macros[id];
        let wanted = if order == 0 { m.is_mixed_cluster } else { m.is_std_cell_cluster };
        if m.area != 0 && wanted {
            assert(on_grid(macros@, xg@, yg@));
            assert(macros@[id as int].area != 0);
            proof {
                lemma_index_of_member(xg@, m.x);
                lemma_index_of_member(xg@, (m.x + m.width) as i32);
                lemma_index_of_member(yg@, m.y);
                lemma_index_of_member(yg@, (m.y + m.height) as i32);
            }
            let x0 = segment_index(m.x, xg.as_slice());
            let x1 = segment_index(m.x + m.width, xg.as_slice());
            let y0 = segment_index(m.y, yg.as_slice());
            let y1 = segment_index(m.y + m.height, yg.as_slice());
            let ghost sp = span_of(m, xg@, yg@);
            assert(sp == (x0 as int, x1 as int, y0 as int, y1 as int));
            let r = grow(cells, nx, ny, (x0, x1, y0, y1), id as i64, Ghost(gc));
            assert(xg@[r.1 as int] - xg@[r.0 as int] <= i32::MAX);
            assert(xg@[r.0 as int] - xg@[r.1 as int] <= i32::MAX);
            assert(yg@[r.3 as int] - yg@[r.2 as int] <= i32::MAX);
            assert(yg@[r.2 as int] - yg@[r.3 as int] <= i32::MAX);
            let w = xg[r.1] - xg[r.0];
            let h = yg[r.3] - yg[r.2];
            let newm = DeadSpaceMacro {
                x: xg[r.0],
                y: yg[r.2],
                width: w,
                height: h,
                area: crate::arith::wide_mul(w, h),
                is_mixed_cluster: m.is_mixed_cluster,
                is_std_cell_cluster: m.is_std_cell_cluster,
            };
            let ghost before = macros@;
            macros.set(id, newm);
            proof {
                gc = grown(gc, sp, id as i64, nx as int, ny as int).0;
                assert(newm == regrown(m, (r.0 as int, r.1 as int, r.2 as int, r.3 as int), xg@, yg@));
                assert forall|k: int| 0 <= k < macros@.len() && #[trigger] macros@[k].area != 0 implies {
                    &&& i32::MIN <= macros@[k].x + macros@[k].width <= i32::MAX
                    &&& i32::MIN <= macros@[k].y + macros@[k].height <= i32::MAX
                    &&& xg@.contains(macros@[k].x)
                    &&& xg@.contains((macros@[k].x + macros@[k].width) as i32)
                    &&& yg@.contains(macros@[k].y)
                    &&& yg@.contains((macros@[k].y + macros@[k].height) as i32)
                } by {
                    if k == id {
                        assert(xg@[r.0 as int] == newm.x);
                        assert(xg@[r.1 as int] == (newm.x + newm.width) as i32);
                        assert(yg@[r.2 as int] == newm.y);
                        assert(yg@[r.3 as int] == (newm.y + newm.height) as i32);
                    } else {
                        assert(macros@[k] == before[k]);
                    }
                }
            }
        }
        id = id + 1;
    }
    Ghost(gc)
}

/// Grow the soft clusters into whatever space nobody claimed: mixed clusters in a first pass,
/// then standard-cell clusters, each cluster claiming free cells left, then up, then right,
/// then down, and taking the box it ends with, its area recomputed. Expansion stops at the
/// first occupied column or row.
pub fn fill_dead_space(macros: &mut Vec<DeadSpaceMacro>, outline: (i32, i32))
    requires
        dead_space_ok(old(macros)@, outline),
    ensures
        final(macros)@ == filled(old(macros)@, outline),
{
    let ghost ms0 = macros@;
    let (x_grid, y_grid) = dead_space_grid(macros, outline);
    if x_grid.len() <= 1 || y_grid.len() <= 1 {
        return;
    }
    let nx = x_grid.len() - 1;
    let ny = y_grid.len() - 1;
    proof {
        let n = ms0.len() as int;
        lemma_raw_edges(ms0, outline, outline.0, false, n);
        lemma_raw_edges(ms0, outline, outline.1, true, n);
        let ex = raw_edges(ms0, outline.0, false, n);
        let ey = raw_edges(ms0, outline.1, true, n);
        lemma_ascending_sorted(ex);
        lemma_ascending_sorted(ey);
        lemma_dedup_len(ascending_i32(ex));
        lemma_dedup_len(ascending_i32(ey));
        assert(nx <= 2 * n + 1);
        assert(ny <= 2 * n + 1);
        assert(nx * ny <= (2 * n + 2) * (2 * n + 2)) by (nonlinear_arith)
            requires nx <= 2 * n + 1, ny <= 2 * n + 1, 0 <= nx, 0 <= ny;
        assert forall|i: int, j: int| 0 <= i < x_grid@.len() && 0 <= j < x_grid@.len() implies #[trigger] x_grid@[i]
            - #[trigger] x_grid@[j] <= i32::MAX by {
            assert(x_grid@.contains(x_grid@[i]));
            assert(x_grid@.contains(x_grid@[j]));
            let a = choose|a: int| 0 <= a < ex.len() && ex[a] == x_grid@[i];
            let b = choose|b: int| 0 <= b < ex.len() && ex[b] == x_grid@[j];
            assert(ex[a] - ex[b] <= i32::MAX);
        }
        assert forall|i: int, j: int| 0 <= i < y_grid@.len() && 0 <= j < y_grid@.len() implies #[trigger] y_grid@[i]
            - #[trigger] y_grid@[j] <= i32::MAX by {
            assert(y_grid@.contains(y_grid@[i]));
            assert(y_grid@.contains(y_grid@[j]));
            let a = choose|a: int| 0 <= a < ey.len() && ey[a] == y_grid@[i];
            let b = choose|b: int| 0 <= b < ey.len() && ey[b] == y_grid@[j];
            assert(ey[a] - ey[b] <= i32::MAX);
        }
        assert forall|k: int| 0 <= k < ms0.len() && #[trigger] ms0[k].area != 0 implies {
            &&& i32::MIN <= ms0[k].x + ms0[k].width <= i32::MAX
            &&& i32::MIN <= ms0[k].y + ms0[k].height <= i32::MAX
            &&& x_grid@.contains(ms0[k].x)
            &&& x_grid@.contains((ms0[k].x + ms0[k].width) as i32)
            &&& y_grid@.contains(ms0[k].y)
            &&& y_grid@.contains((ms0[k].y + ms0[k].height) as i32)
        } by {
            assert(i32::MIN <= ms0[k].x + ms0[k].width <= i32::MAX);
        }
    }
    let total = nx * ny;
    let mut cells: Vec<i64> = Vec::new();
    let mut t: usize = 0;
    while t < total
        invariant
            t <= total,
            cells@.len() == t,
            forall|i: int| 0 <= i < t ==> cells@[i] == -1,
        decreases total - t,
    {
        cells.push(-1);
        t = t + 1;
    }
    let ghost blank: Grid = |r: int, c: int| -1i64;
    proof {
        assert forall|r: int, c: int| 0 <= r < ny && 0 <= c < nx implies #[trigger] at(cells@, nx as int, r, c) == blank(r, c) by {
            lemma_index(nx as int, ny as int, r, c);
        }
        assert(initial_grid(ms0, x_grid@, y_grid@, 0) == blank);
    }
    let n = macros.len();
    let mut id: usize = 0;
    while id < n
        invariant
            id <= n,
            n == ms0.len(),
            macros@ == ms0,
            nx == x_grid@.len() - 1,
            ny == y_grid@.len() - 1,
            strictly_ascending(x_grid@),
            strictly_ascending(y_grid@),
            on_grid(ms0, x_grid@, y_grid@),
            stores(cells@, initial_grid(ms0, x_grid@, y_grid@, id as int), nx as int, ny as int),
            (2 * ms0.len() + 2) * (2 * ms0.len() + 2) <= usize::MAX,
        decreases n - id,
    {
        let m = macros[id];
        if m.area != 0 {
            assert(ms0[id as int].area != 0);
            proof {
                lemma_index_of_member(x_grid@, m.x);
                lemma_index_of_member(x_grid@, (m.x + m.width) as i32);
                lemma_index_of_member(y_grid@, m.y);
                lemma_index_of_member(y_grid@, (m.y + m.height) as i32);
                assert(id < 0x8000_0000) by (nonlinear_arith)
                    requires (2 * n + 2) * (2 * n + 2) <= usize::MAX, id < n, usize::MAX <= 0xffff_ffff_ffff_ffff;
            }
            let x0 = segment_index(m.x, x_grid.as_slice());
            let x1 = segment_index(m.x + m.width, x_grid.as_slice());
            let y0 = segment_index(m.y, y_grid.as_slice());
            let y1 = segment_index(m.y + m.height, y_grid.as_slice());
            paint_rect(&mut cells, nx, ny, x0, x1, y0, y1, id as i64, Ghost(initial_grid(ms0, x_grid@, y_grid@, id as int)));
        }
        id = id + 1;
    }
    proof {
        assert(n < 0x8000_0000) by (nonlinear_arith)
            requires (2 * n + 2) * (2 * n + 2) <= usize::MAX, usize::MAX <= 0xffff_ffff_ffff_ffff;
    }
    let ghost g0 = initial_grid(ms0, x_grid@, y_grid@, n as int);
    let g1 = fill_pass_exec(macros, &mut cells, &x_grid, &y_grid, 0, Ghost(g0));
    let _g2 = fill_pass_exec(macros, &mut cells, &x_grid, &y_grid, 1, g1);
}

proof fn lemma_pass_keeps(g: Grid, ms: Seq<DeadSpaceMacro>, xg: Seq<i32>, yg: Seq<i32>, order: int, n: int, k: int)
    requires
        0 <= k < ms.len(),
        n <= ms.len(),
        ms[k].area == 0 || !wanted(ms[k], order),
    ensures
        fill_pass(g, ms, xg, yg, order, n).1.len() == ms.len(),
        fill_pass(g, ms, xg, yg, order, n).1[k] == ms[k],
    decreases n,
{
    if n > 0 {
        lemma_pass_keeps(g, ms, xg, yg, order, n - 1, k);
    }
}

/// Only mixed and standard-cell clusters grow: a macro that is neither, or that has no area,
/// comes out of the filler exactly as it went in.
pub proof fn lemma_scenery_never_moves(ms: Seq<DeadSpaceMacro>, outline: (i32, i32), k: int)
    requires
        0 <= k < ms.len(),
        ms[k].area == 0 || (!ms[k].is_mixed_cluster && !ms[k].is_std_cell_cluster),
    ensures
        filled(ms, outline).len() == ms.len(),
        filled(ms, outline)[k] == ms[k],
{
    let xg = grid_axis(ms, outline.0, false);
    let yg = grid_axis(ms, outline.1, true);
    if !(xg.len() <= 1 || yg.len() <= 1) {
        let g0 = initial_grid(ms, xg, yg, ms.len() as int);
        lemma_pass_keeps(g0, ms, xg, yg, 0, ms.len() as int, k);
        let (g1, ms1) = fill_pass(g0, ms, xg, yg, 0, ms.len() as int);
        lemma_pass_keeps(g1, ms1, xg, yg, 1, ms.len() as int, k);
    }
}

/// The filler's view of a soft macro: its box and area, and whether its kind is a mixed or a
/// standard-cell cluster.
pub open spec fn dead_space_view(m: SoftMacro, kind: Option<AreaKind>) -> DeadSpaceMacro {
    DeadSpaceMacro {
        x: m.x,
        y: m.y,
        width: m.width,
        height: m.height,
        area: m.area,
        is_mixed_cluster: kind == Some(AreaKind::MixedCluster),
        is_std_cell_cluster: kind == Some(AreaKind::StdCellCluster),
    }
}

/// The filler's views of a solution's macros; a macro without a kind is neither cluster.
pub open spec fn dead_space_views(ms: Seq<SoftMacro>, kinds: Seq<Option<AreaKind>>) -> Seq<DeadSpaceMacro> {
    Seq::new(ms.len(), |i: int| dead_space_view(ms[i], if i < kinds.len() { kinds[i] } else { None }))
}

/// Fill the dead space of a winning solution, when it is valid: an invalid floorplan keeps the
/// geometry the annealer left it with. Each macro takes the box and area the filler gives its
/// view; everything else about it is kept.
pub fn fill_dead_space_on_solution(
    macros: &mut Vec<SoftMacro>,
    kinds: &[Option<AreaKind>],
    outline: (i32, i32),
    is_valid: bool,
)
    requires
        is_valid ==> dead_space_ok(dead_space_views(old(macros)@, kinds@), outline),
    ensures
        !is_valid ==> final(macros)@ == old(macros)@,
        is_valid ==> {
            let f = filled(dead_space_views(old(macros)@, kinds@), outline);
            &&& final(macros)@.len() == old(macros)@.len()
            &&& forall|i: int| 0 <= i < old(macros)@.len() ==> #[trigger] final(macros)@[i] == (SoftMacro {
                x: f[i].x,
                y: f[i].y,
                width: f[i].width,
                height: f[i].height,
                area: f[i].area,
                ..old(macros)@[i]
            })
        },
{
    if !is_valid {
        return;
    }
    let ghost views = dead_space_views(macros@, kinds@);
    let mut cells: Vec<DeadSpaceMacro> = Vec::new();
    let mut i: usize = 0;
    while i < macros.len()
        invariant
            i <= macros@.len(),
            views == dead_space_views(macros@, kinds@),
            cells@ == views.take(i as int),
        decreases macros@.len() - i,
    {
        let m = macros[i];
        let kind = if i < kinds.len() { kinds[i] } else { None };
        let is_mixed = match kind {
            Some(AreaKind::MixedCluster) => true,
            _ => false,
        };
        let is_std = match kind {
            Some(AreaKind::StdCellCluster) => true,
            _ => false,
        };
        cells.push(DeadSpaceMacro {
            x: m.x,
            y: m.y,
            width: m.width,
            height: m.height,
            area: m.area,
            is_mixed_cluster: is_mixed,
            is_std_cell_cluster: is_std,
        });
        proof {
            assert(cells@ =~= views.take(i + 1));
        }
        i = i + 1;
    }
    proof {
        assert(views.take(views.len() as int) =~= views);
    }
    fill_dead_space(&mut cells, outline);
    let ghost f = cells@;
    let ghost old_macros = macros@;
    proof {
        lemma_filled_len(views, outline);
    }
    let mut k: usize = 0;
    while k < macros.len()
        invariant
            k <= macros@.len(),
            macros@.len() == old_macros.len(),
            cells@ == f,
            f.len() == old_macros.len(),
            forall|j: int| 0 <= j < k ==> #[trigger] macros@[j] == (SoftMacro {
                x: f[j].x,
                y: f[j].y,
                width: f[j].width,
                height: f[j].height,
                area: f[j].area,
                ..old_macros[j]
            }),
            forall|j: int| k <= j < macros@.len() ==> #[trigger] macros@[j] == old_macros[j],
        decreases macros@.len() - k,
    {
        let c = cells[k];
        let m = macros[k];
        macros.set(k, SoftMacro { x: c.x, y: c.y, width: c.width, height: c.height, area: c.area, ..m });
        k = k + 1;
    }
}

pub(crate) proof fn lemma_pass_len(g: Grid, ms: Seq<DeadSpaceMacro>, xg: Seq<i32>, yg: Seq<i32>, order: int, n: int)
    requires
        n <= ms.len(),
    ensures
        fill_pass(g, ms, xg, yg, order, n).1.len() == ms.len(),
    decreases n,
{
    if n > 0 {
        lemma_pass_len(g, ms, xg, yg, order, n - 1);
    }
}

proof fn lemma_filled_len(ms: Seq<DeadSpaceMacro>, outline: (i32, i32))
    ensures
        filled(ms, outline).len() == ms.len(),
{
    let xg = grid_axis(ms, outline.0, false);
    let yg = grid_axis(ms, outline.1, true);
    if !(xg.len() <= 1 || yg.len() <= 1) {
        let g0 = initial_grid(ms, xg, yg, ms.len() as int);
        lemma_pass_len(g0, ms, xg, yg, 0, ms.len() as int);
        let (g1, ms1) = fill_pass(g0, ms, xg, yg, 0, ms.len() as int);
        lemma_pass_len(g1, ms1, xg, yg, 1, ms.len() as int);
    }
}

} // verus!
