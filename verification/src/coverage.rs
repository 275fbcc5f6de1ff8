//! The area a set of rectangles covers together: every unit cell counted once, however many
//! rectangles lie over it.

use crate::design::Rect;
use vstd::prelude::*;

verus! {

/// The unit cell with lower-left corner `x`, `y` lies in the rectangle.
pub open spec fn covers(r: Rect, x: int, y: int) -> bool {
    r.x_min <= x < r.x_max && r.y_min <= y < r.y_max
}

/// Some rectangle covers the unit cell at `x`, `y`.
pub open spec fn covered(rs: Seq<Rect>, x: int, y: int) -> bool {
    exists|k: int| 0 <= k < rs.len() && #[trigger] covers(rs[k], x, y)
}

/// The covered cells of column `x` between `y0` and `y1`.
pub open spec fn column_count(rs: Seq<Rect>, x: int, y0: int, y1: int) -> nat
    decreases y1 - y0,
{
    if y1 <= y0 {
        0
    } else {
        column_count(rs, x, y0, y1 - 1) + if covered(rs, x, y1 - 1) { 1nat } else { 0nat }
    }
}

/// The covered cells of the window from `x0`, `y0` to `x1`, `y1`, exclusive.
pub open spec fn covered_count(rs: Seq<Rect>, x0: int, x1: int, y0: int, y1: int) -> nat
    decreases x1 - x0,
{
    if x1 <= x0 {
        0
    } else {
        covered_count(rs, x0, x1 - 1, y0, y1) + column_count(rs, x1 - 1, y0, y1)
    }
}

proof fn lemma_column_split(rs: Seq<Rect>, x: int, y0: int, ym: int, y1: int)
    requires
        y0 <= ym <= y1,
    ensures
        column_count(rs, x, y0, y1) == column_count(rs, x, y0, ym) + column_count(rs, x, ym, y1),
    decreases y1 - ym,
{
    if y1 > ym {
        lemma_column_split(rs, x, y0, ym, y1 - 1);
    }
}

proof fn lemma_split_x(rs: Seq<Rect>, x0: int, xm: int, x1: int, y0: int, y1: int)
    requires
        x0 <= xm <= x1,
    ensures
        covered_count(rs, x0, x1, y0, y1) == covered_count(rs, x0, xm, y0, y1) + covered_count(rs, xm, x1, y0, y1),
    decreases x1 - xm,
{
    if x1 > xm {
        lemma_split_x(rs, x0, xm, x1 - 1, y0, y1);
    }
}

proof fn lemma_split_y(rs: Seq<Rect>, x0: int, x1: int, y0: int, ym: int, y1: int)
    requires
        y0 <= ym <= y1,
    ensures
        covered_count(rs, x0, x1, y0, y1) == covered_count(rs, x0, x1, y0, ym) + covered_count(rs, x0, x1, ym, y1),
    decreases x1 - x0,
{
    if x1 > x0 {
        lemma_split_y(rs, x0, x1 - 1, y0, ym, y1);
        lemma_column_split(rs, x1 - 1, y0, ym, y1);
    }
}

proof fn lemma_uniform_column(rs: Seq<Rect>, x: int, y0: int, y1: int, b: bool)
    requires
        y0 <= y1,
        forall|y: int| y0 <= y < y1 ==> covered(rs, x, y) == b,
    ensures
        column_count(rs, x, y0, y1) == if b { (y1 - y0) as nat } else { 0nat },
    decreases y1 - y0,
{
    if y1 > y0 {
        assert(covered(rs, x, y1 - 1) == b);
        lemma_uniform_column(rs, x, y0, y1 - 1, b);
    }
}

proof fn lemma_uniform_window(rs: Seq<Rect>, x0: int, x1: int, y0: int, y1: int, b: bool)
    requires
        x0 <= x1,
        y0 <= y1,
        forall|x: int, y: int| x0 <= x < x1 && y0 <= y < y1 ==> covered(rs, x, y) == b,
    ensures
        covered_count(rs, x0, x1, y0, y1) == if b { (x1 - x0) * (y1 - y0) } else { 0 },
    decreases x1 - x0,
{
    if x1 > x0 {
        lemma_uniform_window(rs, x0, x1 - 1, y0, y1, b);
        let xl = x1 - 1;
        assert forall|y: int| y0 <= y < y1 implies #[trigger] covered(rs, xl, y) == b by {}
        lemma_uniform_column(rs, xl, y0, y1, b);
        if b {
            assert((x1 - 1 - x0) * (y1 - y0) + (y1 - y0) == (x1 - x0) * (y1 - y0)) by (nonlinear_arith);
        }
    } else {
        assert((x1 - x0) * (y1 - y0) == 0) by (nonlinear_arith)
            requires
                x1 == x0,
        ;
    }
}

/// The window holds every rectangle: each edge lies within it on its axis.
pub open spec fn encloses(rs: Seq<Rect>, x0: int, x1: int, y0: int, y1: int) -> bool {
    &&& x0 <= x1
    &&& y0 <= y1
    &&& forall|k: int|
        0 <= k < rs.len() ==> x0 <= #[trigger] rs[k].x_min <= x1 && x0 <= rs[k].x_max <= x1 && y0
            <= rs[k].y_min <= y1 && y0 <= rs[k].y_max <= y1
}

/// The area the rectangles cover together fits 64 bits, in every window that holds them.
pub open spec fn union_fits(rs: Seq<Rect>) -> bool {
    forall|x0: int, x1: int, y0: int, y1: int|
        encloses(rs, x0, x1, y0, y1) ==> #[trigger] covered_count(rs, x0, x1, y0, y1) <= i64::MAX
}

proof fn lemma_outside_uncovered(rs: Seq<Rect>, x0: int, x1: int, y0: int, y1: int, x: int, y: int)
    requires
        encloses(rs, x0, x1, y0, y1),
        !(x0 <= x < x1 && y0 <= y < y1),
    ensures
        !covered(rs, x, y),
{
    if covered(rs, x, y) {
        let k = choose|k: int| 0 <= k < rs.len() && #[trigger] covers(rs[k], x, y);
        assert(x0 <= rs[k].x_min <= x1 && x0 <= rs[k].x_max <= x1);
    }
}

proof fn lemma_shrink_window(rs: Seq<Rect>, x0: int, x1: int, y0: int, y1: int, a0: int, a1: int, b0: int, b1: int)
    requires
        encloses(rs, a0, a1, b0, b1),
        x0 <= a0,
        a1 <= x1,
        y0 <= b0,
        b1 <= y1,
    ensures
        covered_count(rs, x0, x1, y0, y1) == covered_count(rs, a0, a1, b0, b1),
{
    assert forall|x: int, y: int| x0 <= x < a0 && y0 <= y < y1 implies #[trigger] covered(rs, x, y) == false by {
        lemma_outside_uncovered(rs, a0, a1, b0, b1, x, y);
    }
    lemma_uniform_window(rs, x0, a0, y0, y1, false);
    assert forall|x: int, y: int| a1 <= x < x1 && y0 <= y < y1 implies #[trigger] covered(rs, x, y) == false by {
        lemma_outside_uncovered(rs, a0, a1, b0, b1, x, y);
    }
    lemma_uniform_window(rs, a1, x1, y0, y1, false);
    assert forall|x: int, y: int| a0 <= x < a1 && y0 <= y < b0 implies #[trigger] covered(rs, x, y) == false by {
        lemma_outside_uncovered(rs, a0, a1, b0, b1, x, y);
    }
    lemma_uniform_window(rs, a0, a1, y0, b0, false);
    assert forall|x: int, y: int| a0 <= x < a1 && b1 <= y < y1 implies #[trigger] covered(rs, x, y) == false by {
        lemma_outside_uncovered(rs, a0, a1, b0, b1, x, y);
    }
    lemma_uniform_window(rs, a0, a1, b1, y1, false);
    lemma_split_x(rs, x0, a0, x1, y0, y1);
    lemma_split_x(rs, a0, a1, x1, y0, y1);
    lemma_split_y(rs, a0, a1, y0, b0, y1);
    lemma_split_y(rs, a0, a1, b0, b1, y1);
}

/// The union's area does not depend on the window it is counted in, as long as the window holds
/// every rectangle.
pub proof fn lemma_union_independent_of_window(
    rs: Seq<Rect>,
    x0: int,
    x1: int,
    y0: int,
    y1: int,
    a0: int,
    a1: int,
    b0: int,
    b1: int,
)
    requires
        encloses(rs, x0, x1, y0, y1),
        encloses(rs, a0, a1, b0, b1),
    ensures
        covered_count(rs, x0, x1, y0, y1) == covered_count(rs, a0, a1, b0, b1),
{
    let c0 = if x0 > a0 { x0 } else { a0 };
    let c1 = if x1 < a1 { x1 } else { a1 };
    let d0 = if y0 > b0 { y0 } else { b0 };
    let d1 = if y1 < b1 { y1 } else { b1 };
    if rs.len() > 0 {
        assert(x0 <= rs[0].x_min <= x1 && a0 <= rs[0].x_min <= a1);
        assert(y0 <= rs[0].y_min <= y1 && b0 <= rs[0].y_min <= b1);
        assert(encloses(rs, c0, c1, d0, d1));
        lemma_shrink_window(rs, x0, x1, y0, y1, c0, c1, d0, d1);
        lemma_shrink_window(rs, a0, a1, b0, b1, c0, c1, d0, d1);
    } else {
        assert forall|x: int, y: int| x0 <= x < x1 && y0 <= y < y1 implies #[trigger] covered(rs, x, y) == false by {}
        lemma_uniform_window(rs, x0, x1, y0, y1, false);
        assert forall|x: int, y: int| a0 <= x < a1 && b0 <= y < b1 implies #[trigger] covered(rs, x, y) == false by {}
        lemma_uniform_window(rs, a0, a1, b0, b1, false);
    }
}

/// The lower and the upper edge of a rectangle on one axis: x, or y when `vertical`.
pub open spec fn edge_lo(r: Rect, vertical: bool) -> int {
    if vertical { r.y_min as int } else { r.x_min as int }
}

pub open spec fn edge_hi(r: Rect, vertical: bool) -> int {
    if vertical { r.y_max as int } else { r.x_max as int }
}

/// `v` is an edge of some rectangle on the axis.
pub open spec fn is_edge(rs: Seq<Rect>, vertical: bool, v: int) -> bool {
    exists|k: int| 0 <= k < rs.len() && (edge_lo(#[trigger] rs[k], vertical) == v || edge_hi(rs[k], vertical) == v)
}

/// `v` is one of the lines.
pub open spec fn on_line(ls: Seq<i64>, v: int) -> bool {
    exists|i: int| 0 <= i < ls.len() && ls[i] == v
}

/// The lines are the rectangles' distinct edges on the axis, ascending.
#[verifier::opaque]
pub open spec fn edge_lines(rs: Seq<Rect>, vertical: bool, ls: Seq<i64>) -> bool {
    &&& forall|a: int, b: int| 0 <= a < b < ls.len() ==> ls[a] < ls[b]
    &&& forall|i: int| 0 <= i < ls.len() ==> is_edge(rs, vertical, #[trigger] ls[i] as int)
    &&& forall|k: int|
        0 <= k < rs.len() ==> on_line(ls, edge_lo(#[trigger] rs[k], vertical)) && on_line(ls, edge_hi(rs[k], vertical))
}

/// The smallest edge above `last` among the first `n` rectangles, if any.
pub open spec fn next_edge(rs: Seq<Rect>, vertical: bool, last: Option<i64>, n: int) -> Option<int>
    decreases n,
{
    if n <= 0 {
        None
    } else {
        let prev = next_edge(rs, vertical, last, n - 1);
        let a = pick_lower(prev, edge_lo(rs[n - 1], vertical), last);
        pick_lower(a, edge_hi(rs[n - 1], vertical), last)
    }
}

/// `v` lies above `last`; everything does when there is none.
pub open spec fn above(v: int, last: Option<i64>) -> bool {
    match last {
        None => true,
        Some(l) => v > l,
    }
}

/// There is a candidate and it is at most `v`.
pub open spec fn at_most(best: Option<int>, v: int) -> bool {
    match best {
        None => false,
        Some(b) => b <= v,
    }
}

/// The lower of a candidate and `v`, when `v` lies above `last`.
pub open spec fn pick_lower(best: Option<int>, v: int, last: Option<i64>) -> Option<int> {
    if !above(v, last) {
        best
    } else {
        match best {
            None => Some(v),
            Some(b) => if v < b { Some(v) } else { Some(b) },
        }
    }
}

proof fn lemma_next_edge(rs: Seq<Rect>, vertical: bool, last: Option<i64>, n: int)
    requires
        0 <= n <= rs.len(),
    ensures
        next_edge(rs, vertical, last, n) matches Some(v) ==> (is_edge(rs, vertical, v) && above(v, last)),
        forall|k: int|
            0 <= k < n ==> (above(edge_lo(#[trigger] rs[k], vertical), last) ==> at_most(
                next_edge(rs, vertical, last, n),
                edge_lo(rs[k], vertical),
            )) && (above(edge_hi(rs[k], vertical), last) ==> at_most(next_edge(rs, vertical, last, n), edge_hi(rs[k], vertical))),
    decreases n,
{
    if n > 0 {
        lemma_next_edge(rs, vertical, last, n - 1);
        let k = n - 1;
        if let Some(v) = next_edge(rs, vertical, last, n) {
            if v == edge_lo(rs[k], vertical) || v == edge_hi(rs[k], vertical) {
                assert(is_edge(rs, vertical, v));
            }
        }
    }
}

fn next_edge_above(rects: &[Rect], vertical: bool, last: Option<i64>) -> (r: Option<i64>)
    ensures
        match r {
            None => next_edge(rects@, vertical, last, rects@.len() as int) is None,
            Some(v) => next_edge(rects@, vertical, last, rects@.len() as int) == Some(v as int),
        },
{
    let mut best: Option<i64> = None;
    let mut k: usize = 0;
    while k < rects.len()
        invariant
            k <= rects@.len(),
            match best {
                None => next_edge(rects@, vertical, last, k as int) is None,
                Some(v) => next_edge(rects@, vertical, last, k as int) == Some(v as int),
            },
        decreases rects@.len() - k,
    {
        let r = rects[k];
        let lo = if vertical { r.y_min } else { r.x_min };
        let hi = if vertical { r.y_max } else { r.x_max };
        let lo_above = match last {
            None => true,
            Some(l) => lo > l,
        };
        if lo_above {
            best = match best {
                None => Some(lo),
                Some(b) => if lo < b { Some(lo) } else { Some(b) },
            };
        }
        let hi_above = match last {
            None => true,
            Some(l) => hi > l,
        };
        if hi_above {
            best = match best {
                None => Some(hi),
                Some(b) => if hi < b { Some(hi) } else { Some(b) },
            };
        }
        k = k + 1;
    }
    best
}

/// The rectangles' distinct edges on one axis, ascending.
fn lines_of(rects: &[Rect], vertical: bool) -> (ls: Vec<i64>)
    ensures
        edge_lines(rects@, vertical, ls@),
{
    let ghost rs = rects@;
    let mut ls: Vec<i64> = Vec::new();
    let mut last: Option<i64> = None;
    loop
        invariant
            rs == rects@,
            forall|a: int, b: int| 0 <= a < b < ls@.len() ==> ls@[a] < ls@[b],
            forall|i: int| 0 <= i < ls@.len() ==> is_edge(rs, vertical, #[trigger] ls@[i] as int),
            ls@.len() == 0 ==> last is None,
            ls@.len() > 0 ==> last == Some(ls@.last()),
            forall|k: int|
                0 <= k < rs.len() ==> (!above(edge_lo(#[trigger] rs[k], vertical), last) ==> on_line(
                    ls@,
                    edge_lo(rs[k], vertical),
                )) && (!above(edge_hi(rs[k], vertical), last) ==> on_line(ls@, edge_hi(rs[k], vertical))),
        ensures
            forall|a: int, b: int| 0 <= a < b < ls@.len() ==> ls@[a] < ls@[b],
            forall|i: int| 0 <= i < ls@.len() ==> is_edge(rs, vertical, #[trigger] ls@[i] as int),
            forall|k: int|
                0 <= k < rs.len() ==> on_line(ls@, edge_lo(#[trigger] rs[k], vertical)) && on_line(ls@, edge_hi(rs[k], vertical)),
        decreases i64::MAX - (match last {
            None => i64::MIN - 1,
            Some(l) => l as int,
        }),
    {
        proof {
            lemma_next_edge(rs, vertical, last, rs.len() as int);
        }
        match next_edge_above(rects, vertical, last) {
            None => {
                assert forall|k: int| 0 <= k < rs.len() implies on_line(ls@, edge_lo(#[trigger] rs[k], vertical)) && on_line(
                    ls@,
                    edge_hi(rs[k], vertical),
                ) by {
                    assert(!at_most(None, edge_lo(rs[k], vertical)));
                }
                break;
            },
            Some(v) => {
                let ghost old_ls = ls@;
                ls.push(v);
                proof {
                    assert forall|k: int| 0 <= k < rs.len() implies (!above(edge_lo(#[trigger] rs[k], vertical), Some(v))
                        ==> on_line(ls@, edge_lo(rs[k], vertical))) && (!above(edge_hi(rs[k], vertical), Some(v))
                        ==> on_line(ls@, edge_hi(rs[k], vertical))) by {
                        let e = edge_lo(rs[k], vertical);
                        if !above(e, Some(v)) {
                            if above(e, last) {
                                assert(e == v);
                                assert(ls@[old_ls.len() as int] == v);
                            } else {
                                let i = choose|i: int| 0 <= i < old_ls.len() && old_ls[i] == e;
                                assert(ls@[i] == e);
                            }
                        }
                        let f = edge_hi(rs[k], vertical);
                        if !above(f, Some(v)) {
                            if above(f, last) {
                                assert(f == v);
                                assert(ls@[old_ls.len() as int] == v);
                            } else {
                                let i = choose|i: int| 0 <= i < old_ls.len() && old_ls[i] == f;
                                assert(ls@[i] == f);
                            }
                        }
                    }
                }
                last = Some(v);
            },
        }
    }
    proof {
        reveal(edge_lines);
    }
    ls
}

proof fn lemma_lines_ascending(rs: Seq<Rect>, vertical: bool, ls: Seq<i64>)
    requires
        edge_lines(rs, vertical, ls),
    ensures
        forall|a: int, b: int| 0 <= a < b < ls.len() ==> ls[a] < ls[b],
        rs.len() > 0 ==> ls.len() > 0,
{
    reveal(edge_lines);
    if rs.len() > 0 {
        assert(on_line(ls, edge_lo(rs[0], vertical)));
    }
}

/// Some rectangle covers the unit cell at `x`, `y`.
fn cell_covered(rects: &[Rect], x: i64, y: i64) -> (r: bool)
    ensures
        r == covered(rects@, x as int, y as int),
{
    let mut k: usize = 0;
    while k < rects.len()
        invariant
            k <= rects@.len(),
            forall|j: int| 0 <= j < k ==> !#[trigger] covers(rects@[j], x as int, y as int),
        decreases rects@.len() - k,
    {
        let r = rects[k];
        if r.x_min <= x && x < r.x_max && r.y_min <= y && y < r.y_max {
            assert(covers(rects@[k as int], x as int, y as int));
            return true;
        }
        k = k + 1;
    }
    false
}

proof fn lemma_line_between(ls: Seq<i64>, i: int, v: int)
    requires
        forall|a: int, b: int| 0 <= a < b < ls.len() ==> ls[a] < ls[b],
        0 <= i,
        i + 1 < ls.len(),
        on_line(ls, v),
    ensures
        v <= ls[i] || v >= ls[i + 1],
{
    let p = choose|p: int| 0 <= p < ls.len() && ls[p] == v;
    if p <= i {
        if p < i {
            assert(ls[p] < ls[i]);
        }
    } else {
        if p > i + 1 {
            assert(ls[i + 1] < ls[p]);
        }
    }
}

/// Between consecutive lines on both axes nothing changes: every cell of the block is covered
/// exactly when its corner cell is.
proof fn lemma_block_uniform(rs: Seq<Rect>, xs: Seq<i64>, ys: Seq<i64>, i: int, j: int)
    requires
        edge_lines(rs, false, xs),
        edge_lines(rs, true, ys),
        0 <= i,
        i + 1 < xs.len(),
        0 <= j,
        j + 1 < ys.len(),
    ensures
        forall|x: int, y: int|
            xs[i] <= x < xs[i + 1] && ys[j] <= y < ys[j + 1] ==> #[trigger] covered(rs, x, y) == covered(
                rs,
                xs[i] as int,
                ys[j] as int,
            ),
{
    reveal(edge_lines);
    assert forall|x: int, y: int| xs[i] <= x < xs[i + 1] && ys[j] <= y < ys[j + 1] implies #[trigger] covered(rs, x, y)
        == covered(rs, xs[i] as int, ys[j] as int) by {
        assert forall|k: int| 0 <= k < rs.len() implies #[trigger] covers(rs[k], x, y) == covers(
            rs[k],
            xs[i] as int,
            ys[j] as int,
        ) by {
            assert(on_line(xs, edge_lo(rs[k], false)) && on_line(xs, edge_hi(rs[k], false)));
            assert(on_line(ys, edge_lo(rs[k], true)) && on_line(ys, edge_hi(rs[k], true)));
            lemma_line_between(xs, i, rs[k].x_min as int);
            lemma_line_between(xs, i, rs[k].x_max as int);
            lemma_line_between(ys, j, rs[k].y_min as int);
            lemma_line_between(ys, j, rs[k].y_max as int);
        }
        if covered(rs, x, y) {
            let k = choose|k: int| 0 <= k < rs.len() && #[trigger] covers(rs[k], x, y);
            assert(covers(rs[k], xs[i] as int, ys[j] as int));
        }
        if covered(rs, xs[i] as int, ys[j] as int) {
            let k = choose|k: int| 0 <= k < rs.len() && #[trigger] covers(rs[k], xs[i] as int, ys[j] as int);
            assert(covers(rs[k], x, y));
        }
    }
}

proof fn lemma_on_line_within(ls: Seq<i64>, v: int)
    requires
        forall|a: int, b: int| 0 <= a < b < ls.len() ==> ls[a] < ls[b],
        on_line(ls, v),
    ensures
        ls[0] <= v <= ls.last(),
{
    let p = choose|p: int| 0 <= p < ls.len() && ls[p] == v;
    if p > 0 {
        assert(ls[0] < ls[p]);
    }
    if p < ls.len() - 1 {
        assert(ls[p] < ls[ls.len() - 1]);
    }
}

proof fn lemma_lines_enclose(rs: Seq<Rect>, xs: Seq<i64>, ys: Seq<i64>)
    requires
        edge_lines(rs, false, xs),
        edge_lines(rs, true, ys),
        xs.len() > 0,
        ys.len() > 0,
    ensures
        encloses(rs, xs[0] as int, xs.last() as int, ys[0] as int, ys.last() as int),
{
    reveal(edge_lines);
    if xs.len() > 1 {
        assert(xs[0] < xs[xs.len() - 1]);
    }
    if ys.len() > 1 {
        assert(ys[0] < ys[ys.len() - 1]);
    }
    assert forall|k: int| 0 <= k < rs.len() implies xs[0] <= #[trigger] rs[k].x_min <= xs.last() && xs[0] <= rs[k].x_max
        <= xs.last() && ys[0] <= rs[k].y_min <= ys.last() && ys[0] <= rs[k].y_max <= ys.last() by {
        assert(on_line(xs, edge_lo(rs[k], false)) && on_line(xs, edge_hi(rs[k], false)));
        assert(on_line(ys, edge_lo(rs[k], true)) && on_line(ys, edge_hi(rs[k], true)));
        lemma_on_line_within(xs, rs[k].x_min as int);
        lemma_on_line_within(xs, rs[k].x_max as int);
        lemma_on_line_within(ys, rs[k].y_min as int);
        lemma_on_line_within(ys, rs[k].y_max as int);
    }
}

proof fn lemma_strip_step(rs: Seq<Rect>, xs: Seq<i64>, ys: Seq<i64>, i: int, j: int, hit: bool)
    requires
        edge_lines(rs, false, xs),
        edge_lines(rs, true, ys),
        0 <= i,
        i + 1 < xs.len(),
        0 <= j,
        j + 1 < ys.len(),
        hit == covered(rs, xs[i] as int, ys[j] as int),
    ensures
        ({
            let (xa, xb, ya, yb) = (xs[i] as int, xs[i + 1] as int, ys[j] as int, ys[j + 1] as int);
            let y0 = ys[0] as int;
            let y1 = ys.last() as int;
            &&& covered_count(rs, xa, xb, y0, yb) == covered_count(rs, xa, xb, y0, ya) + if hit {
                (xb - xa) * (yb - ya)
            } else {
                0
            }
            &&& covered_count(rs, xa, xb, y0, yb) <= covered_count(rs, xa, xb, y0, y1)
            &&& hit ==> 1 <= xb - xa <= (xb - xa) * (yb - ya)
            &&& hit ==> 1 <= yb - ya <= (xb - xa) * (yb - ya)
        }),
{
    reveal(edge_lines);
    let (xa, xb, ya, yb) = (xs[i] as int, xs[i + 1] as int, ys[j] as int, ys[j + 1] as int);
    let y0 = ys[0] as int;
    let y1 = ys.last() as int;
    assert(xa < xb);
    assert(ya < yb);
    if j > 0 {
        assert(ys[0] < ys[j]);
    }
    if j + 1 < ys.len() - 1 {
        assert(ys[j + 1] < ys[ys.len() - 1]);
    }
    lemma_split_y(rs, xa, xb, y0, yb, y1);
    lemma_split_y(rs, xa, xb, y0, ya, yb);
    lemma_block_uniform(rs, xs, ys, i, j);
    lemma_uniform_window(rs, xa, xb, ya, yb, hit);
    if hit {
        assert((xb - xa) <= (xb - xa) * (yb - ya)) by (nonlinear_arith)
            requires
                xb - xa >= 1,
                yb - ya >= 1,
        ;
        assert((yb - ya) <= (xb - xa) * (yb - ya)) by (nonlinear_arith)
            requires
                xb - xa >= 1,
                yb - ya >= 1,
        ;
    }
}

/// The covered cells of the strip between the `i`-th and the next x line, over the full span of
/// the y lines.
fn strip_area(rects: &[Rect], xs: &Vec<i64>, ys: &Vec<i64>, i: usize) -> (r: i64)
    requires
        edge_lines(rects@, false, xs@),
        edge_lines(rects@, true, ys@),
        i + 1 < xs@.len(),
        ys@.len() > 0,
        covered_count(rects@, xs@[i as int] as int, xs@[i + 1] as int, ys@[0] as int, ys@.last() as int) <= i64::MAX,
    ensures
        r == covered_count(rects@, xs@[i as int] as int, xs@[i + 1] as int, ys@[0] as int, ys@.last() as int),
{
    let ghost rs = rects@;
    let ghost xa = xs@[i as int] as int;
    let ghost xb = xs@[i + 1] as int;
    let ghost y0 = ys@[0] as int;
    let ghost y1 = ys@.last() as int;
    let ghost strip = covered_count(rs, xa, xb, y0, y1);
    proof {
        lemma_lines_ascending(rs, false, xs@);
        assert(xa < xb);
        lemma_uniform_window(rs, xa, xb, y0, y0, false);
    }
    let ny = ys.len();
    let nxs = xs.len();
    let mut acc: i64 = 0;
    let mut j: usize = 0;
    while j + 1 < ny
        invariant
            rs == rects@,
            edge_lines(rs, false, xs@),
            edge_lines(rs, true, ys@),
            ny == ys@.len(),
            nxs == xs@.len(),
            i + 1 < nxs,
            j < ny,
            xa == xs@[i as int],
            xb == xs@[i + 1],
            y0 == ys@[0],
            y1 == ys@.last(),
            strip == covered_count(rs, xa, xb, y0, y1),
            strip <= i64::MAX,
            acc == covered_count(rs, xa, xb, y0, ys@[j as int] as int),
        decreases ny - j,
    {
        let hit = cell_covered(rects, xs[i], ys[j]);
        proof {
            lemma_strip_step(rs, xs@, ys@, i as int, j as int, hit);
        }
        if hit {
            assert(1 <= xb - xa <= (xb - xa) * (ys@[j + 1] - ys@[j as int]));
            assert((xb - xa) * (ys@[j + 1] - ys@[j as int]) <= strip);
            let dx = xs[i + 1] - xs[i];
            let dy = ys[j + 1] - ys[j];
            acc = acc + dx * dy;
        }
        j = j + 1;
    }
    proof {
        assert(ys@[j as int] == ys@.last());
    }
    acc
}

/// The area the rectangles cover together: each unit cell under at least one rectangle counted
/// once, in any window that holds them all. Overlaps are not counted twice, and an inverted or
/// empty rectangle covers nothing.
pub fn union_area(rects: &[Rect]) -> (r: i64)
    requires
        union_fits(rects@),
    ensures
        forall|x0: int, x1: int, y0: int, y1: int|
            encloses(rects@, x0, x1, y0, y1) ==> r == #[trigger] covered_count(rects@, x0, x1, y0, y1),
{
    let ghost rs = rects@;
    if rects.len() == 0 {
        assert forall|x0: int, x1: int, y0: int, y1: int| encloses(rs, x0, x1, y0, y1) implies 0 == #[trigger] covered_count(
            rs,
            x0,
            x1,
            y0,
            y1,
        ) by {
            assert forall|x: int, y: int| x0 <= x < x1 && y0 <= y < y1 implies #[trigger] covered(rs, x, y) == false by {}
            lemma_uniform_window(rs, x0, x1, y0, y1, false);
        }
        return 0;
    }
    let xs = lines_of(rects, false);
    let ys = lines_of(rects, true);
    proof {
        lemma_lines_ascending(rs, false, xs@);
        lemma_lines_ascending(rs, true, ys@);
    }
    let nx = xs.len();
    let ghost x0 = xs@[0] as int;
    let ghost x1 = xs@.last() as int;
    let ghost y0 = ys@[0] as int;
    let ghost y1 = ys@.last() as int;
    proof {
        lemma_lines_enclose(rs, xs@, ys@);
        assert(covered_count(rs, x0, x1, y0, y1) <= i64::MAX);
    }
    let ghost whole = covered_count(rs, x0, x1, y0, y1);
    let mut total: i64 = 0;
    let mut i: usize = 0;
    while i + 1 < nx
        invariant
            rs == rects@,
            edge_lines(rs, false, xs@),
            edge_lines(rs, true, ys@),
            nx == xs@.len(),
            ys@.len() > 0,
            i < nx,
            x0 == xs@[0],
            x1 == xs@.last(),
            y0 == ys@[0],
            y1 == ys@.last(),
            whole == covered_count(rs, x0, x1, y0, y1),
            whole <= i64::MAX,
            forall|a: int, b: int| 0 <= a < b < xs@.len() ==> xs@[a] < xs@[b],
            total == covered_count(rs, x0, xs@[i as int] as int, y0, y1),
        decreases nx - i,
    {
        let ghost xa = xs@[i as int] as int;
        let ghost xb = xs@[i + 1] as int;
        proof {
            assert(xa < xb);
            if i > 0 {
                assert(xs@[0] < xs@[i as int]);
            }
            if i + 1 < nx - 1 {
                assert(xs@[i + 1] < xs@[nx - 1]);
            }
            lemma_split_x(rs, x0, xa, x1, y0, y1);
            lemma_split_x(rs, xa, xb, x1, y0, y1);
            lemma_split_x(rs, x0, xa, xb, y0, y1);
        }
        let strip = strip_area(rects, &xs, &ys, i);
        total = total + strip;
        i = i + 1;
    }
    proof {
        assert(xs@[i as int] == xs@.last());
        assert forall|a0: int, a1: int, b0: int, b1: int| encloses(rs, a0, a1, b0, b1) implies total
            == #[trigger] covered_count(rs, a0, a1, b0, b1) by {
            lemma_union_independent_of_window(rs, a0, a1, b0, b1, x0, x1, y0, y1);
        }
    }
    total
}

/// Two sets of rectangles that cover the same cells of a window cover as many of them.
pub proof fn lemma_count_congruent(a: Seq<Rect>, b: Seq<Rect>, x0: int, x1: int, y0: int, y1: int)
    requires
        forall|x: int, y: int| x0 <= x < x1 && y0 <= y < y1 ==> #[trigger] covered(a, x, y) == covered(b, x, y),
    ensures
        covered_count(a, x0, x1, y0, y1) == covered_count(b, x0, x1, y0, y1),
    decreases x1 - x0,
{
    if x1 > x0 {
        lemma_count_congruent(a, b, x0, x1 - 1, y0, y1);
        lemma_column_congruent(a, b, x1 - 1, y0, y1);
    }
}

proof fn lemma_column_congruent(a: Seq<Rect>, b: Seq<Rect>, x: int, y0: int, y1: int)
    requires
        forall|y: int| y0 <= y < y1 ==> #[trigger] covered(a, x, y) == covered(b, x, y),
    ensures
        column_count(a, x, y0, y1) == column_count(b, x, y0, y1),
    decreases y1 - y0,
{
    if y1 > y0 {
        assert(covered(a, x, y1 - 1) == covered(b, x, y1 - 1));
        lemma_column_congruent(a, b, x, y0, y1 - 1);
    }
}

proof fn lemma_column_bounded(rs: Seq<Rect>, x: int, y0: int, y1: int)
    requires
        y0 <= y1,
    ensures
        column_count(rs, x, y0, y1) <= y1 - y0,
    decreases y1 - y0,
{
    if y1 > y0 {
        lemma_column_bounded(rs, x, y0, y1 - 1);
    }
}

/// A window holds no more covered cells than it has cells.
pub proof fn lemma_count_bounded(rs: Seq<Rect>, x0: int, x1: int, y0: int, y1: int)
    requires
        x0 <= x1,
        y0 <= y1,
    ensures
        covered_count(rs, x0, x1, y0, y1) <= (x1 - x0) * (y1 - y0),
    decreases x1 - x0,
{
    if x1 > x0 {
        lemma_count_bounded(rs, x0, x1 - 1, y0, y1);
        lemma_column_bounded(rs, x1 - 1, y0, y1);
        assert((x1 - 1 - x0) * (y1 - y0) + (y1 - y0) == (x1 - x0) * (y1 - y0)) by (nonlinear_arith);
    } else {
        assert((x1 - x0) * (y1 - y0) == 0) by (nonlinear_arith)
            requires
                x1 == x0,
        ;
    }
}

/// No rectangle covers nothing: a window of an empty set holds no covered cell.
pub proof fn lemma_no_rectangles(x0: int, x1: int, y0: int, y1: int)
    ensures
        covered_count(Seq::<Rect>::empty(), x0, x1, y0, y1) == 0,
    decreases x1 - x0,
{
    if x1 > x0 {
        lemma_no_rectangles(x0, x1 - 1, y0, y1);
        lemma_empty_column(x1 - 1, y0, y1);
    }
}

proof fn lemma_empty_column(x: int, y0: int, y1: int)
    ensures
        column_count(Seq::<Rect>::empty(), x, y0, y1) == 0,
    decreases y1 - y0,
{
    if y1 > y0 {
        lemma_empty_column(x, y0, y1 - 1);
        assert(!covered(Seq::<Rect>::empty(), x, y1 - 1));
    }
}

} // verus!
