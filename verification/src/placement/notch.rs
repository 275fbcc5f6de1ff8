//! Notches: thin empty regions walled in by macros. The grid the scan works on, and how walled
//! in a candidate is.

use crate::arith::{div_trunc32, quot};
use crate::placement::blockages::AreaKind;
use crate::sort::{ascending_i32, sort_i32};
use vstd::prelude::*;

verus! {

/// A macro, as the notch term sees it: a box and the kind of cluster behind it, if any.
#[derive(Debug, Clone, Copy, PartialEq, Eq, Structural)]
pub struct NotchMacro {
    pub x: i32,
    pub y: i32,
    pub width: i32,
    pub height: i32,
    /// No cluster behind the macro: a fixed terminal or a blockage proxy.
    pub kind: Option<AreaKind>,
}

/// Only a hard-macro cluster, a mixed cluster or a fixed macro obstructs.
pub open spec fn obstructs(m: NotchMacro) -> bool {
    m.kind == Some(AreaKind::HardMacroCluster) || m.kind == Some(AreaKind::MixedCluster) || m.kind
        == Some(AreaKind::FixedMacro)
}

/// The far edges of every macro fit 32 bits.
pub open spec fn notch_macros_fit(ms: Seq<NotchMacro>) -> bool {
    forall|k: int|
        0 <= k < ms.len() ==> i32::MIN <= #[trigger] ms[k].x + ms[k].width <= i32::MAX && i32::MIN
            <= ms[k].y + ms[k].height <= i32::MAX
}

/// The two edges on one axis of each obstructing macro among the first `n`, in order.
pub open spec fn obstruction_edges(ms: Seq<NotchMacro>, n: int, vertical: bool) -> Seq<i32>
    decreases n,
{
    if n <= 0 {
        Seq::empty()
    } else {
        let prev = obstruction_edges(ms, n - 1, vertical);
        let m = ms[n - 1];
        if !obstructs(m) {
            prev
        } else if vertical {
            prev.push(m.y).push((m.y + m.height) as i32)
        } else {
            prev.push(m.x).push((m.x + m.width) as i32)
        }
    }
}

/// The values kept walking a sorted list down from its top: the top value, then each value
/// more than `eps` below the last one kept, over the top `n` values.
pub open spec fn kept_downwards(s: Seq<i32>, eps: int, n: int) -> Seq<i32>
    decreases n,
{
    if n <= 1 {
        seq![s[s.len() - 1]]
    } else {
        let kept = kept_downwards(s, eps, n - 1);
        let v = s[s.len() - n];
        if kept.last() - v > eps { kept.push(v) } else { kept }
    }
}

/// A sorted list with near-coincident values coalesced to the largest of each group, in
/// ascending order.
pub open spec fn coalesced(s: Seq<i32>, eps: int) -> Seq<i32> {
    kept_downwards(s, eps, s.len() as int).reverse()
}

/// The grid lines of one axis: the obstructing macros' edges and the outline's two, sorted and
/// coalesced at a hundredth of the outline's extent.
pub open spec fn grid_lines(ms: Seq<NotchMacro>, extent: i32, vertical: bool) -> Seq<i32> {
    coalesced(
        ascending_i32(obstruction_edges(ms, ms.len() as int, vertical).push(0).push(extent)),
        quot(extent as int, 100),
    )
}

fn coalesce_downwards(sorted: &Vec<i32>, epsilon: i32) -> (r: Vec<i32>)
    requires
        sorted@.len() >= 1,
    ensures
        r@ == coalesced(sorted@, epsilon as int),
{
    let n = sorted.len();
    let mut coords: Vec<i32> = Vec::new();
    coords.push(sorted[n - 1]);
    let mut i: usize = n - 1;
    while i > 0
        invariant
            n == sorted@.len(),
            n >= 1,
            i < n,
            coords@ == kept_downwards(sorted@, epsilon as int, (n - i) as int),
            coords@.len() >= 1,
        decreases i,
    {
        i = i - 1;
        let last = coords[coords.len() - 1];
        assert(coords@.last() == last);
        if last as i64 - sorted[i] as i64 > epsilon as i64 {
            coords.push(sorted[i]);
        }
    }
    let mut out: Vec<i32> = Vec::new();
    let mut k: usize = coords.len();
    while k > 0
        invariant
            k <= coords@.len(),
            out@ == coords@.subrange(k as int, coords@.len() as int).reverse(),
        decreases k,
    {
        k = k - 1;
        out.push(coords[k]);
        proof {
            assert(out@ =~= coords@.subrange(k as int, coords@.len() as int).reverse());
        }
    }
    proof {
        assert(coords@.subrange(0, coords@.len() as int) =~= coords@);
    }
    out
}

fn edges(macros: &[NotchMacro], vertical: bool) -> (r: Vec<i32>)
    requires
        notch_macros_fit(macros@),
    ensures
        r@ == obstruction_edges(macros@, macros@.len() as int, vertical),
{
    let mut out: Vec<i32> = Vec::new();
    let mut k: usize = 0;
    while k < macros.len()
        invariant
            k <= macros@.len(),
            notch_macros_fit(macros@),
            out@ == obstruction_edges(macros@, k as int, vertical),
        decreases macros@.len() - k,
    {
        let m = macros[k];
        assert(i32::MIN <= m.x + m.width <= i32::MAX && i32::MIN <= m.y + m.height <= i32::MAX);
        let hit = match m.kind {
            Some(AreaKind::HardMacroCluster) | Some(AreaKind::MixedCluster) | Some(AreaKind::FixedMacro) => true,
            _ => false,
        };
        if hit {
            if vertical {
                out.push(m.y);
                out.push(m.y + m.height);
            } else {
                out.push(m.x);
                out.push(m.x + m.width);
            }
        }
        k = k + 1;
    }
    out
}

/// The grid lines the notch scan works on: every obstructing macro's two edges on each axis,
/// plus the outline's own, sorted, with near-coincident lines coalesced to the largest of their
/// group at a hundredth of the outline's extent on that axis.
pub fn notch_grid(macros: &[NotchMacro], outline: (i32, i32)) -> (r: (Vec<i32>, Vec<i32>))
    requires
        notch_macros_fit(macros@),
    ensures
        r.0@ == grid_lines(macros@, outline.0, false),
        r.1@ == grid_lines(macros@, outline.1, true),
{
    let mut x_point = edges(macros, false);
    let mut y_point = edges(macros, true);
    x_point.push(0);
    y_point.push(0);
    x_point.push(outline.0);
    y_point.push(outline.1);
    let xs = sort_i32(x_point);
    let ys = sort_i32(y_point);
    proof {
        let ex = obstruction_edges(macros@, macros@.len() as int, false).push(0).push(outline.0);
        let ey = obstruction_edges(macros@, macros@.len() as int, true).push(0).push(outline.1);
        broadcast use vstd::seq_lib::group_to_multiset_ensures;
        ex.lemma_sort_by_ensures(|a: i32, b: i32| crate::sort::le_i32(a, b));
        ey.lemma_sort_by_ensures(|a: i32, b: i32| crate::sort::le_i32(a, b));
        assert(x_point@ == ex);
        assert(y_point@ == ey);
        vstd::seq_lib::to_multiset_len(ex);
        vstd::seq_lib::to_multiset_len(ey);
        vstd::seq_lib::to_multiset_len(xs@);
        vstd::seq_lib::to_multiset_len(ys@);
        assert(xs@.len() == ex.len());
        assert(ys@.len() == ey.len());
    }
    let ex = div_trunc32(outline.0, 100);
    let ey = div_trunc32(outline.1, 100);
    (coalesce_downwards(&xs, ex), coalesce_downwards(&ys, ey))
}

/// How enclosed a candidate notch is on each of its four sides.
#[derive(Debug, Clone, Copy, PartialEq, Eq, Structural)]
pub struct NotchVicinity {
    pub top: bool,
    pub bottom: bool,
    pub left: bool,
    pub right: bool,
}

impl Default for NotchVicinity {
    /// Every side starts enclosed.
    fn default() -> (v: NotchVicinity)
        ensures
            v == (NotchVicinity { top: true, bottom: true, left: true, right: true }),
    {
        NotchVicinity { top: true, bottom: true, left: true, right: true }
    }
}

impl NotchVicinity {
    /// How many sides are enclosed, from 0 to 4.
    pub fn total(&self) -> (r: i32)
        ensures
            r == (if self.top { 1int } else { 0int }) + (if self.bottom { 1int } else { 0int }) + (
            if self.left { 1int } else { 0int }) + (if self.right { 1int } else { 0int }),
    {
        let mut n: i32 = 0;
        if self.top {
            n = n + 1;
        }
        if self.bottom {
            n = n + 1;
        }
        if self.left {
            n = n + 1;
        }
        if self.right {
            n = n + 1;
        }
        n
    }
}

/// A grid of cells as rows of flags, `true` where a macro sits.
pub open spec fn cells(rows: Seq<Vec<bool>>) -> Seq<Seq<bool>> {
    rows.map_values(|v: Vec<bool>| v@)
}

/// Every row of the grid holds `width` cells.
pub open spec fn rectangular(g: Seq<Seq<bool>>, width: int) -> bool {
    forall|r: int| 0 <= r < g.len() ==> #[trigger] g[r].len() == width
}

/// The grid is a non-empty rectangle of cells and the candidate lies inside it.
pub open spec fn candidate_in_grid(g: Seq<Seq<bool>>, start_row: int, start_col: int, end_row: int, end_col: int) -> bool {
    &&& g.len() > 0
    &&& rectangular(g, g[0].len() as int)
    &&& 0 <= start_row <= end_row < g.len()
    &&& 0 <= start_col <= end_col < g[0].len()
}

/// Some cell of row `row` between the columns, inclusive, holds `val`: `false` for an empty
/// cell, `true` for an occupied one.
pub open spec fn row_holds(g: Seq<Seq<bool>>, row: int, c0: int, c1: int, val: bool) -> bool {
    exists|i: int| c0 <= i <= c1 && #[trigger] g[row][i] == val
}

/// Some cell of column `col` between the rows, inclusive, holds `val`.
pub open spec fn col_holds(g: Seq<Seq<bool>>, col: int, r0: int, r1: int, val: bool) -> bool {
    exists|i: int| r0 <= i <= r1 && #[trigger] g[i][col] == val
}

/// How walled in a region is: a side is open when it faces into the grid and some adjacent
/// cell on it is empty; a side facing the grid's edge stays enclosed.
pub open spec fn vicinity_of(g: Seq<Seq<bool>>, start_row: int, start_col: int, end_row: int, end_col: int) -> NotchVicinity {
    NotchVicinity {
        top: !(end_row + 1 < g.len() && row_holds(g, end_row + 1, start_col, end_col, false)),
        bottom: !(start_row > 0 && row_holds(g, start_row - 1, start_col, end_col, false)),
        left: !(start_col > 0 && col_holds(g, start_col - 1, start_row, end_row, false)),
        right: !(end_col + 1 < g[0].len() && col_holds(g, end_col + 1, start_row, end_row, false)),
    }
}

/// How many sides of a vicinity are enclosed.
pub open spec fn enclosed_sides(v: NotchVicinity) -> int {
    (if v.top { 1int } else { 0int }) + (if v.bottom { 1int } else { 0int }) + (if v.left { 1int } else { 0int })
        + (if v.right { 1int } else { 0int })
}

fn row_find(grid: &[Vec<bool>], row: usize, c0: usize, c1: usize, val: bool) -> (r: bool)
    requires
        row < grid@.len(),
        c0 <= c1 < grid@[row as int]@.len(),
    ensures
        r == row_holds(cells(grid@), row as int, c0 as int, c1 as int, val),
{
    let len = grid[row].len();
    let ghost g = cells(grid@);
    assert(g[row as int] == grid@[row as int]@);
    let mut i: usize = c0;
    while i <= c1
        invariant
            c0 <= i <= c1 + 1,
            c1 < len,
            len == grid@[row as int]@.len(),
            row < grid@.len(),
            g == cells(grid@),
            g[row as int] == grid@[row as int]@,
            forall|m: int| c0 <= m < i ==> #[trigger] g[row as int][m] != val,
        decreases c1 + 1 - i,
    {
        if grid[row][i] == val {
            assert(g[row as int][i as int] == val);
            return true;
        }
        i = i + 1;
    }
    false
}

fn col_find(grid: &[Vec<bool>], col: usize, r0: usize, r1: usize, val: bool) -> (r: bool)
    requires
        r1 < grid@.len(),
        r0 <= r1,
        forall|r: int| 0 <= r < grid@.len() ==> col < #[trigger] grid@[r]@.len(),
    ensures
        r == col_holds(cells(grid@), col as int, r0 as int, r1 as int, val),
{
    let rows = grid.len();
    let ghost g = cells(grid@);
    let mut i: usize = r0;
    while i <= r1
        invariant
            r0 <= i <= r1 + 1,
            r1 < rows,
            rows == grid@.len(),
            g == cells(grid@),
            forall|r: int| 0 <= r < grid@.len() ==> col < #[trigger] grid@[r]@.len(),
            forall|m: int| r0 <= m < i ==> #[trigger] g[m][col as int] != val,
        decreases r1 + 1 - i,
    {
        assert(col < grid@[i as int]@.len());
        assert(g[i as int] == grid@[i as int]@);
        if grid[i][col] == val {
            assert(g[i as int][col as int] == val);
            return true;
        }
        i = i + 1;
    }
    false
}

/// Whether the region is walled in on each side: a side is open when it faces into the grid
/// and some adjacent cell on it is empty; a side facing the grid's edge stays enclosed.
pub fn check_notch_vicinity(
    grid: &[Vec<bool>],
    start_row: usize,
    start_col: usize,
    end_row: usize,
    end_col: usize,
) -> (v: NotchVicinity)
    requires
        candidate_in_grid(cells(grid@), start_row as int, start_col as int, end_row as int, end_col as int),
    ensures
        v == vicinity_of(cells(grid@), start_row as int, start_col as int, end_row as int, end_col as int),
{
    let ghost g = cells(grid@);
    let num_y = grid.len();
    let num_x = grid[0].len();
    assert(g[0] == grid@[0]@);
    assert forall|r: int| 0 <= r < grid@.len() implies #[trigger] grid@[r]@.len() == num_x by {
        assert(g[r] == grid@[r]@);
    }
    let mut vicinity = NotchVicinity { top: true, bottom: true, left: true, right: true };
    if start_row > 0 {
        if row_find(grid, start_row - 1, start_col, end_col, false) {
            vicinity.bottom = false;
        }
    }
    if end_row < num_y - 1 {
        if row_find(grid, end_row + 1, start_col, end_col, false) {
            vicinity.top = false;
        }
    }
    if start_col > 0 {
        if col_find(grid, start_col - 1, start_row, end_row, false) {
            vicinity.left = false;
        }
    }
    if end_col < num_x - 1 {
        if col_find(grid, end_col + 1, start_row, end_row, false) {
            vicinity.right = false;
        }
    }
    vicinity
}

/// How many grid lines lie strictly below a coordinate: the index of the segment it starts.
pub open spec fn lines_below(c: int, lines: Seq<i32>) -> int
    decreases lines.len(),
{
    if lines.len() == 0 {
        0
    } else {
        lines_below(c, lines.drop_last()) + if lines.last() < c { 1int } else { 0int }
    }
}

/// The cell in `row`, `col` lies under the macro, which obstructs.
pub open spec fn covers(m: NotchMacro, xs: Seq<i32>, ys: Seq<i32>, row: int, col: int) -> bool {
    &&& obstructs(m)
    &&& lines_below(m.y as int, ys) <= row < lines_below(m.y + m.height, ys)
    &&& lines_below(m.x as int, xs) <= col < lines_below(m.x + m.width, xs)
}

/// Some obstructing macro covers the cell.
pub open spec fn occupied(ms: Seq<NotchMacro>, xs: Seq<i32>, ys: Seq<i32>, row: int, col: int) -> bool {
    exists|k: int| 0 <= k < ms.len() && #[trigger] covers(ms[k], xs, ys, row, col)
}

/// The grid the scan reads: one row per segment between `ys` lines, one cell per segment between
/// `xs` lines, set where an obstructing macro sits.
pub open spec fn occupancy(ms: Seq<NotchMacro>, xs: Seq<i32>, ys: Seq<i32>) -> Seq<Seq<bool>> {
    Seq::new((ys.len() - 1) as nat, |r: int| Seq::new((xs.len() - 1) as nat, |c: int| occupied(ms, xs, ys, r, c)))
}

proof fn lemma_lines_below_bounded(c: int, lines: Seq<i32>)
    ensures
        0 <= lines_below(c, lines) <= lines.len(),
    decreases lines.len(),
{
    if lines.len() > 0 {
        lemma_lines_below_bounded(c, lines.drop_last());
    }
}

fn count_lines_below(c: i64, lines: &Vec<i32>) -> (r: usize)
    ensures
        r == lines_below(c as int, lines@),
{
    let mut n: usize = 0;
    let mut i: usize = 0;
    while i < lines.len()
        invariant
            i <= lines@.len(),
            n <= i,
            n == lines_below(c as int, lines@.take(i as int)),
        decreases lines@.len() - i,
    {
        proof {
            assert(lines@.take(i + 1).drop_last() =~= lines@.take(i as int));
        }
        if (lines[i] as i64) < c {
            n = n + 1;
        }
        i = i + 1;
    }
    proof {
        assert(lines@.take(lines@.len() as int) =~= lines@);
    }
    n
}

/// Where a macro sits in the grid: its first and past-the-end row and column, and whether it
/// obstructs at all.
struct Span {
    obstructs: bool,
    row0: usize,
    row1: usize,
    col0: usize,
    col1: usize,
}

spec fn span_of(s: Span, m: NotchMacro, xs: Seq<i32>, ys: Seq<i32>) -> bool {
    &&& s.obstructs == obstructs(m)
    &&& s.row0 == lines_below(m.y as int, ys)
    &&& s.row1 == lines_below(m.y + m.height, ys)
    &&& s.col0 == lines_below(m.x as int, xs)
    &&& s.col1 == lines_below(m.x + m.width, xs)
}

fn spans(macros: &[NotchMacro], xs: &Vec<i32>, ys: &Vec<i32>) -> (r: Vec<Span>)
    ensures
        r@.len() == macros@.len(),
        forall|k: int| 0 <= k < macros@.len() ==> #[trigger] span_of(r@[k], macros@[k], xs@, ys@),
{
    let mut out: Vec<Span> = Vec::new();
    let mut k: usize = 0;
    while k < macros.len()
        invariant
            k <= macros@.len(),
            out@.len() == k,
            forall|j: int| 0 <= j < k ==> #[trigger] span_of(out@[j], macros@[j], xs@, ys@),
        decreases macros@.len() - k,
    {
        let m = macros[k];
        let hit = match m.kind {
            Some(AreaKind::HardMacroCluster) | Some(AreaKind::MixedCluster) | Some(AreaKind::FixedMacro) => true,
            _ => false,
        };
        let s = Span {
            obstructs: hit,
            row0: count_lines_below(m.y as i64, ys),
            row1: count_lines_below(m.y as i64 + m.height as i64, ys),
            col0: count_lines_below(m.x as i64, xs),
            col1: count_lines_below(m.x as i64 + m.width as i64, xs),
        };
        out.push(s);
        k = k + 1;
    }
    out
}

fn cell_occupied(
    sp: &Vec<Span>,
    Ghost(ms): Ghost<Seq<NotchMacro>>,
    Ghost(xs): Ghost<Seq<i32>>,
    Ghost(ys): Ghost<Seq<i32>>,
    row: usize,
    col: usize,
) -> (r: bool)
    requires
        sp@.len() == ms.len(),
        forall|k: int| 0 <= k < ms.len() ==> #[trigger] span_of(sp@[k], ms[k], xs, ys),
    ensures
        r == occupied(ms, xs, ys, row as int, col as int),
{
    let mut k: usize = 0;
    while k < sp.len()
        invariant
            k <= sp@.len(),
            sp@.len() == ms.len(),
            forall|j: int| 0 <= j < ms.len() ==> #[trigger] span_of(sp@[j], ms[j], xs, ys),
            forall|j: int| 0 <= j < k ==> !#[trigger] covers(ms[j], xs, ys, row as int, col as int),
        decreases sp@.len() - k,
    {
        let s = &sp[k];
        assert(span_of(sp@[k as int], ms[k as int], xs, ys));
        if s.obstructs && s.row0 <= row && row < s.row1 && s.col0 <= col && col < s.col1 {
            assert(covers(ms[k as int], xs, ys, row as int, col as int));
            return true;
        }
        k = k + 1;
    }
    false
}

/// The occupancy grid, built row by row.
fn build_grid(macros: &[NotchMacro], xs: &Vec<i32>, ys: &Vec<i32>) -> (g: Vec<Vec<bool>>)
    requires
        xs@.len() >= 1,
        ys@.len() >= 1,
    ensures
        cells(g@) == occupancy(macros@, xs@, ys@),
{
    let sp = spans(macros, xs, ys);
    let nx = xs.len() - 1;
    let ny = ys.len() - 1;
    let ghost target = occupancy(macros@, xs@, ys@);
    let mut grid: Vec<Vec<bool>> = Vec::new();
    let mut r: usize = 0;
    while r < ny
        invariant
            ny == ys@.len() - 1,
            nx == xs@.len() - 1,
            r <= ny,
            target == occupancy(macros@, xs@, ys@),
            sp@.len() == macros@.len(),
            forall|k: int| 0 <= k < macros@.len() ==> #[trigger] span_of(sp@[k], macros@[k], xs@, ys@),
            grid@.len() == r,
            forall|i: int| 0 <= i < r ==> #[trigger] grid@[i]@ == target[i],
        decreases ny - r,
    {
        let mut row: Vec<bool> = Vec::new();
        let mut c: usize = 0;
        while c < nx
            invariant
                ny == ys@.len() - 1,
                nx == xs@.len() - 1,
                r < ny,
                c <= nx,
                target == occupancy(macros@, xs@, ys@),
                sp@.len() == macros@.len(),
                forall|k: int| 0 <= k < macros@.len() ==> #[trigger] span_of(sp@[k], macros@[k], xs@, ys@),
                row@.len() == c,
                forall|j: int| 0 <= j < c ==> #[trigger] row@[j] == occupied(macros@, xs@, ys@, r as int, j),
            decreases nx - c,
        {
            let b = cell_occupied(&sp, Ghost(macros@), Ghost(xs@), Ghost(ys@), r, c);
            row.push(b);
            c = c + 1;
        }
        assert(row@ =~= target[r as int]);
        grid.push(row);
        r = r + 1;
    }
    assert(cells(grid@) =~= target);
    grid
}

/// One row step of a growing pass: take the next row when none of its cells under the region is
/// occupied and the vicinity it gives is strictly better, or the very same; otherwise stop
/// growing rows.
pub open spec fn grow_rows(g: Seq<Seq<bool>>, sr: int, sc: int, er: int, ec: int, cur: NotchVicinity, on: bool) -> (int, NotchVicinity, bool) {
    if !on {
        (er, cur, false)
    } else if er + 1 < g.len() && !row_holds(g, er + 1, sc, ec, true) {
        let e = vicinity_of(g, sr, sc, er + 1, ec);
        if enclosed_sides(e) > enclosed_sides(cur) || e == cur {
            (er + 1, e, true)
        } else {
            (er, cur, false)
        }
    } else {
        (er, cur, false)
    }
}

/// One column step of a growing pass, against the rows the pass has reached.
pub open spec fn grow_cols(g: Seq<Seq<bool>>, sr: int, sc: int, er: int, ec: int, cur: NotchVicinity, on: bool) -> (int, NotchVicinity, bool) {
    if !on {
        (ec, cur, false)
    } else if ec + 1 < g[0].len() && !col_holds(g, ec + 1, sr, er, true) {
        let e = vicinity_of(g, sr, sc, er, ec + 1);
        if enclosed_sides(e) > enclosed_sides(cur) || e == cur {
            (ec + 1, e, true)
        } else {
            (ec, cur, false)
        }
    } else {
        (ec, cur, false)
    }
}

/// The region grown from a seed: passes of a row step then a column step, until neither grows;
/// the last row and column reached and the vicinity there.
pub open spec fn grown(g: Seq<Seq<bool>>, sr: int, sc: int, er: int, ec: int, cur: NotchVicinity, rows_on: bool, cols_on: bool) -> (int, int, NotchVicinity)
    decreases (g.len() - er) + (g[0].len() - ec) + (if rows_on { 1int } else { 0int }) + (if cols_on { 1int } else { 0int }),
{
    if !(rows_on || cols_on) || !(0 <= er < g.len() && 0 <= ec < g[0].len()) {
        (er, ec, cur)
    } else {
        let (er1, cur1, rows1) = grow_rows(g, sr, sc, er, ec, cur, rows_on);
        let (ec1, cur2, cols1) = grow_cols(g, sr, sc, er1, ec, cur1, cols_on);
        grown(g, sr, sc, er1, ec1, cur2, rows1, cols1)
    }
}

fn grow(grid: &Vec<Vec<bool>>, sr: usize, sc: usize) -> (r: (usize, usize, NotchVicinity))
    requires
        candidate_in_grid(cells(grid@), sr as int, sc as int, sr as int, sc as int),
    ensures
        sr <= r.0 < grid@.len(),
        sc <= r.1 < cells(grid@)[0].len(),
        (r.0 as int, r.1 as int, r.2) == grown(
            cells(grid@),
            sr as int,
            sc as int,
            sr as int,
            sc as int,
            vicinity_of(cells(grid@), sr as int, sc as int, sr as int, sc as int),
            true,
            true,
        ),
{
    let ghost g = cells(grid@);
    let num_y = grid.len();
    assert(g[0] == grid@[0]@);
    let num_x = grid[0].len();
    assert forall|r: int| 0 <= r < grid@.len() implies #[trigger] grid@[r]@.len() == num_x by {
        assert(g[r] == grid@[r]@);
    }
    let ghost target = grown(g, sr as int, sc as int, sr as int, sc as int, vicinity_of(g, sr as int, sc as int, sr as int, sc as int), true, true);
    let mut end_row = sr;
    let mut end_col = sc;
    let mut current = check_notch_vicinity(grid.as_slice(), sr, sc, end_row, end_col);
    let mut expand_rows = true;
    let mut expand_cols = true;
    while expand_rows || expand_cols
        invariant
            g == cells(grid@),
            num_y == g.len(),
            num_x == g[0].len(),
            rectangular(g, num_x as int),
            forall|r: int| 0 <= r < grid@.len() ==> #[trigger] grid@[r]@.len() == num_x,
            sr <= end_row < num_y,
            sc <= end_col < num_x,
            grown(g, sr as int, sc as int, end_row as int, end_col as int, current, expand_rows, expand_cols) == target,
        decreases (num_y - end_row) + (num_x - end_col) + (if expand_rows { 1int } else { 0int }) + (if expand_cols { 1int } else { 0int }),
    {
        let ghost (er1, cur1, rows1) = grow_rows(g, sr as int, sc as int, end_row as int, end_col as int, current, expand_rows);
        let ghost (ec1, cur2, cols1) = grow_cols(g, sr as int, sc as int, er1, end_col as int, cur1, expand_cols);
        if expand_rows {
            if end_row + 1 < num_y && !row_find(grid.as_slice(), end_row + 1, sc, end_col, true) {
                let expanded = check_notch_vicinity(grid.as_slice(), sr, sc, end_row + 1, end_col);
                if expanded.total() > current.total() || expanded == current {
                    current = expanded;
                    end_row = end_row + 1;
                } else {
                    expand_rows = false;
                }
            } else {
                expand_rows = false;
            }
        }
        assert(end_row == er1 && current == cur1 && expand_rows == rows1);
        if expand_cols {
            if end_col + 1 < num_x && !col_find(grid.as_slice(), end_col + 1, sr, end_row, true) {
                let expanded = check_notch_vicinity(grid.as_slice(), sr, sc, end_row, end_col + 1);
                if expanded.total() > current.total() || expanded == current {
                    current = expanded;
                    end_col = end_col + 1;
                } else {
                    expand_cols = false;
                }
            } else {
                expand_cols = false;
            }
        }
        assert(end_col == ec1 && current == cur2 && expand_cols == cols1);
    }
    (end_row, end_col, current)
}

/// The flags with the rectangle from `sr`, `sc` to `er`, `ec`, inclusive, set.
pub open spec fn marked(v: Seq<Seq<bool>>, sr: int, sc: int, er: int, ec: int) -> Seq<Seq<bool>> {
    Seq::new(v.len(), |i: int| Seq::new(v[i].len(), |j: int| v[i][j] || (sr <= i <= er && sc <= j <= ec)))
}

/// A grid of unset flags.
pub open spec fn blank(rows: int, cols: int) -> Seq<Seq<bool>> {
    Seq::new(rows as nat, |i: int| Seq::new(cols as nat, |j: int| false))
}

/// A grown region counts as a notch when it is walled in top and bottom and shallower than the
/// height threshold, or walled in left and right and narrower than the width threshold.
pub open spec fn is_notch(v: NotchVicinity, width: int, height: int, thresholds: (int, int)) -> bool {
    (v.top && v.bottom && height < thresholds.1) || (v.left && v.right && width < thresholds.0)
}

/// One seed of the scan: an empty cell not yet covered grows a region, which is then covered,
/// and recorded as a notch (its width and height) when it is one.
pub open spec fn scan_step(
    g: Seq<Seq<bool>>,
    xs: Seq<i32>,
    ys: Seq<i32>,
    thresholds: (int, int),
    st: (Seq<Seq<bool>>, Seq<(i64, i64)>),
    r: int,
    c: int,
) -> (Seq<Seq<bool>>, Seq<(i64, i64)>) {
    if g[r][c] || st.0[r][c] {
        st
    } else {
        let (er, ec, v) = grown(g, r, c, r, c, vicinity_of(g, r, c, r, c), true, true);
        let width = xs[ec + 1] - xs[c];
        let height = ys[er + 1] - ys[r];
        let covered = marked(st.0, r, c, er, ec);
        if is_notch(v, width, height, thresholds) {
            (covered, st.1.push((width as i64, height as i64)))
        } else {
            (covered, st.1)
        }
    }
}

/// The scan's state once every cell before row `r`, column `c` has been a seed, in row-major
/// order.
pub open spec fn scan_to(
    g: Seq<Seq<bool>>,
    xs: Seq<i32>,
    ys: Seq<i32>,
    thresholds: (int, int),
    r: int,
    c: int,
) -> (Seq<Seq<bool>>, Seq<(i64, i64)>)
    decreases r, c,
{
    if r <= 0 && c <= 0 {
        (blank(g.len() as int, g[0].len() as int), Seq::empty())
    } else if c <= 0 {
        scan_to(g, xs, ys, thresholds, r - 1, g[0].len() as int)
    } else {
        scan_step(g, xs, ys, thresholds, scan_to(g, xs, ys, thresholds, r, c - 1), r, c - 1)
    }
}

/// The notches of a floorplan, as the width and height of each, in the order the scan finds
/// them: the grid of [`notch_grid`], occupied where an obstructing macro sits, scanned seed by
/// seed in row-major order, with a tenth of the outline's height as the height threshold and a
/// tenth of its width as the width threshold. An axis with no segment has no notch.
pub open spec fn notch_list(ms: Seq<NotchMacro>, outline: (i32, i32)) -> Seq<(i64, i64)> {
    let xs = grid_lines(ms, outline.0, false);
    let ys = grid_lines(ms, outline.1, true);
    if xs.len() <= 1 || ys.len() <= 1 {
        Seq::empty()
    } else {
        scan_to(
            occupancy(ms, xs, ys),
            xs,
            ys,
            (quot(outline.0 as int, 10), quot(outline.1 as int, 10)),
            ys.len() - 1,
            0,
        ).1
    }
}

fn mark_covered(vis: &mut Vec<Vec<bool>>, sr: usize, sc: usize, er: usize, ec: usize, width: usize)
    requires
        rectangular(cells(old(vis)@), width as int),
        sr <= er < old(vis)@.len(),
        sc <= ec < width,
    ensures
        cells(final(vis)@) == marked(cells(old(vis)@), sr as int, sc as int, er as int, ec as int),
{
    let ghost v0 = cells(vis@);
    let rows = vis.len();
    assert forall|i: int| 0 <= i < rows implies #[trigger] vis@[i]@.len() == width by {
        assert(v0[i] == vis@[i]@);
    }
    let mut i: usize = sr;
    while i <= er
        invariant
            sr <= i <= er + 1,
            er < rows,
            sc <= ec < width,
            vis@.len() == rows,
            v0.len() == rows,
            rectangular(v0, width as int),
            forall|a: int| 0 <= a < rows ==> #[trigger] vis@[a]@.len() == width,
            forall|a: int, b: int|
                0 <= a < rows && 0 <= b < width ==> #[trigger] vis@[a]@[b] == (v0[a][b] || (sr <= a < i
                    && sc <= b <= ec)),
        decreases er + 1 - i,
    {
        let mut j: usize = sc;
        while j <= ec
            invariant
                sr <= i <= er,
                sc <= j <= ec + 1,
                er < rows,
                ec < width,
                vis@.len() == rows,
                v0.len() == rows,
                rectangular(v0, width as int),
                forall|a: int| 0 <= a < rows ==> #[trigger] vis@[a]@.len() == width,
                forall|a: int, b: int|
                    0 <= a < rows && 0 <= b < width ==> #[trigger] vis@[a]@[b] == (v0[a][b] || (sr <= a
                        < i && sc <= b <= ec) || (a == i && sc <= b < j)),
            decreases ec + 1 - j,
        {
            vis[i][j] = true;
            j = j + 1;
        }
        i = i + 1;
    }
    let ghost after = cells(vis@);
    let ghost want = marked(v0, sr as int, sc as int, er as int, ec as int);
    assert forall|a: int| 0 <= a < rows implies #[trigger] after[a] =~= want[a] by {
        assert(after[a] == vis@[a]@);
    }
    assert(after =~= want);
}

/// The width and height of every notch of the floorplan, in the order the scan finds them; see
/// [`notch_list`].
pub fn notch_sizes(macros: &[NotchMacro], outline: (i32, i32)) -> (r: Vec<(i64, i64)>)
    requires
        notch_macros_fit(macros@),
    ensures
        r@ == notch_list(macros@, outline),
{
    let (xs, ys) = notch_grid(macros, outline);
    if xs.len() <= 1 || ys.len() <= 1 {
        return Vec::new();
    }
    let nx = xs.len() - 1;
    let ny = ys.len() - 1;
    let height_threshold = div_trunc32(outline.1, 10);
    let width_threshold = div_trunc32(outline.0, 10);
    let ghost th = (quot(outline.0 as int, 10), quot(outline.1 as int, 10));
    let grid = build_grid(macros, &xs, &ys);
    let ghost g = cells(grid@);
    assert(g.len() == ny && g[0].len() == nx);
    assert(rectangular(g, nx as int));
    let mut visited: Vec<Vec<bool>> = Vec::new();
    let mut a: usize = 0;
    while a < ny
        invariant
            a <= ny,
            visited@.len() == a,
            forall|i: int| 0 <= i < a ==> #[trigger] visited@[i]@ == Seq::new(nx as nat, |j: int| false),
        decreases ny - a,
    {
        let mut row: Vec<bool> = Vec::new();
        let mut b: usize = 0;
        while b < nx
            invariant
                b <= nx,
                row@.len() == b,
                forall|j: int| 0 <= j < b ==> #[trigger] row@[j] == false,
            decreases nx - b,
        {
            row.push(false);
            b = b + 1;
        }
        assert(row@ =~= Seq::new(nx as nat, |j: int| false));
        visited.push(row);
        a = a + 1;
    }
    assert(cells(visited@) =~= blank(ny as int, nx as int));
    let mut out: Vec<(i64, i64)> = Vec::new();
    let mut r: usize = 0;
    while r < ny
        invariant
            ny == g.len(),
            nx == g[0].len(),
            ny + 1 == ys@.len(),
            nx + 1 == xs@.len(),
            g == cells(grid@),
            rectangular(g, nx as int),
            height_threshold == th.1,
            width_threshold == th.0,
            r <= ny,
            (cells(visited@), out@) == scan_to(g, xs@, ys@, th, r as int, 0),
            rectangular(cells(visited@), nx as int),
            cells(visited@).len() == ny,
        decreases ny - r,
    {
        let mut c: usize = 0;
        while c < nx
            invariant
                ny == g.len(),
                nx == g[0].len(),
                ny + 1 == ys@.len(),
                nx + 1 == xs@.len(),
                g == cells(grid@),
                rectangular(g, nx as int),
                height_threshold == th.1,
                width_threshold == th.0,
                r < ny,
                c <= nx,
                (cells(visited@), out@) == scan_to(g, xs@, ys@, th, r as int, c as int),
                rectangular(cells(visited@), nx as int),
                cells(visited@).len() == ny,
            decreases nx - c,
        {
            let ghost st = scan_to(g, xs@, ys@, th, r as int, c as int);
            assert(g[r as int] == grid@[r as int]@);
            assert(cells(visited@)[r as int] == visited@[r as int]@);
            if !grid[r][c] && !visited[r][c] {
                let (er, ec, v) = grow(&grid, r, c);
                let width = xs[ec + 1] as i64 - xs[c] as i64;
                let height = ys[er + 1] as i64 - ys[r] as i64;
                mark_covered(&mut visited, r, c, er, ec, nx);
                let mut notch = false;
                if v.top && v.bottom && height < height_threshold as i64 {
                    notch = true;
                }
                if v.left && v.right && width < width_threshold as i64 {
                    notch = true;
                }
                if notch {
                    out.push((width, height));
                }
            }
            assert((cells(visited@), out@) == scan_step(g, xs@, ys@, th, st, r as int, c as int));
            c = c + 1;
        }
        r = r + 1;
    }
    out
}

} // verus!
