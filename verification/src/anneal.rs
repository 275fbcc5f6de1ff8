//! The annealing search's data: soft macros, sequence pairs, packing and the moves on them.

use vstd::prelude::*;
use crate::arith::{quot, div_trunc, wide_mul};

verus! {

/// One placeable rectangle, as the annealer sees it. A fixed macro keeps its position.
#[derive(Debug, Clone, Copy, PartialEq, Eq, Default)]
pub struct SoftMacro {
    pub x: i32,
    pub y: i32,
    pub width: i32,
    pub height: i32,
    pub fixed: bool,
    /// Carried on the macro, not recomputed from the current shape.
    pub area: i64,
    /// A cluster of hard macros; only a random resize reshapes one.
    pub is_macro_cluster: bool,
}

/// The two orderings that encode a packing.
#[derive(Debug, Clone, PartialEq, Eq, Default)]
pub struct SequencePair {
    pub pos: Vec<usize>,
    pub neg: Vec<usize>,
}

impl SequencePair {
    pub fn len(&self) -> (r: usize)
        ensures
            r == self.pos@.len(),
    {
        self.pos.len()
    }

    pub fn is_empty(&self) -> (r: bool)
        ensures
            r == (self.pos@.len() == 0),
    {
        self.pos.len() == 0
    }
}

impl SoftMacro {
    /// Moves the macro horizontally unless it is fixed.
    pub fn set_x(&mut self, x: i32)
        ensures
            *final(self) == (if old(self).fixed { *old(self) } else { SoftMacro { x, ..*old(self) } }),
    {
        if !self.fixed {
            self.x = x;
        }
    }

    /// Moves the macro vertically unless it is fixed.
    pub fn set_y(&mut self, y: i32)
        ensures
            *final(self) == (if old(self).fixed { *old(self) } else { SoftMacro { y, ..*old(self) } }),
    {
        if !self.fixed {
            self.y = y;
        }
    }

    /// `(x_min, y_min, x_max, y_max)`.
    pub fn bbox(&self) -> (r: (i32, i32, i32, i32))
        requires
            i32::MIN <= self.x + self.width <= i32::MAX,
            i32::MIN <= self.y + self.height <= i32::MAX,
        ensures
            r == (self.x, self.y, (self.x + self.width) as i32, (self.y + self.height) as i32),
    {
        (self.x, self.y, self.x + self.width, self.y + self.height)
    }
}

// ------------------------------------------------------------------ sequence pairs

/// `s` holds each of `0..n` exactly once.
pub open spec fn is_permutation(s: Seq<usize>, n: nat) -> bool {
    &&& s.len() == n
    &&& forall|i: int| 0 <= i < n ==> #[trigger] s[i] < n
    &&& forall|i: int, j: int| 0 <= i < j < n ==> s[i] != s[j]
}

/// A well-formed sequence pair over `0..n`.
pub open spec fn is_sequence_pair(pos: Seq<usize>, neg: Seq<usize>) -> bool {
    is_permutation(pos, pos.len()) && is_permutation(neg, pos.len())
}

/// Where `id` stands in `s`.
pub open spec fn index_of(s: Seq<usize>, id: usize) -> int {
    choose|i: int| 0 <= i < s.len() && s[i] == id
}

/// The coordinate of a macro along one axis: `x` when `horizontal`, else `y`.
pub open spec fn coord(m: SoftMacro, horizontal: bool) -> int {
    if horizontal { m.x as int } else { m.y as int }
}

/// The extent of a macro along one axis.
pub open spec fn extent(m: SoftMacro, horizontal: bool) -> int {
    if horizontal { m.width as int } else { m.height as int }
}

/// The packed coordinate of the macro at position `k` of `order`: a fixed macro keeps its
/// own, and any other sits at the far edge of the furthest macro that precedes it in both
/// `order` and the `rank` order (zero when none does).
pub open spec fn packed(
    ms: Seq<SoftMacro>,
    order: Seq<usize>,
    rank: Seq<int>,
    horizontal: bool,
    k: nat,
) -> int
    decreases k, k + 1,
{
    if ms[order[k as int] as int].fixed {
        coord(ms[order[k as int] as int], horizontal)
    } else {
        reach(ms, order, rank, horizontal, k, k)
    }
}

/// The furthest far edge among the first `j` macros of `order` that precede the macro at
/// position `k` in the `rank` order, and zero at least.
pub open spec fn reach(
    ms: Seq<SoftMacro>,
    order: Seq<usize>,
    rank: Seq<int>,
    horizontal: bool,
    k: nat,
    j: nat,
) -> int
    decreases k, j,
{
    if j == 0 || j > k {
        0
    } else {
        let prev = reach(ms, order, rank, horizontal, k, (j - 1) as nat);
        if rank[order[j - 1] as int] < rank[order[k as int] as int] {
            let top = packed(ms, order, rank, horizontal, (j - 1) as nat) + extent(
                ms[order[j - 1] as int],
                horizontal,
            );
            if top > prev { top } else { prev }
        } else {
            prev
        }
    }
}

/// The far edge of the macro at position `k` once packed.
pub open spec fn packed_top(
    ms: Seq<SoftMacro>,
    order: Seq<usize>,
    rank: Seq<int>,
    horizontal: bool,
    k: nat,
) -> int {
    packed(ms, order, rank, horizontal, k) + extent(ms[order[k as int] as int], horizontal)
}

/// The largest far edge among the first `t` macros of `order`, and zero at least.
pub open spec fn span(
    ms: Seq<SoftMacro>,
    order: Seq<usize>,
    rank: Seq<int>,
    horizontal: bool,
    t: nat,
) -> int
    decreases t,
{
    if t == 0 {
        0
    } else {
        let prev = span(ms, order, rank, horizontal, (t - 1) as nat);
        let top = packed_top(ms, order, rank, horizontal, (t - 1) as nat);
        if top > prev { top } else { prev }
    }
}

/// The rank of each id in `neg`.
pub open spec fn ranks(neg: Seq<usize>) -> Seq<int> {
    Seq::new(neg.len(), |id: int| index_of(neg, id as usize))
}

/// Every packed coordinate and far edge along one axis fits an `i32`.
pub open spec fn packing_fits(
    ms: Seq<SoftMacro>,
    order: Seq<usize>,
    rank: Seq<int>,
    horizontal: bool,
) -> bool {
    forall|k: nat|
        k < order.len() ==> i32::MIN <= #[trigger] packed(ms, order, rank, horizontal, k)
            <= i32::MAX && i32::MIN <= packed_top(ms, order, rank, horizontal, k) <= i32::MAX
}

/// The running state of one packing pass after `t` macros: the furthest far edge at or
/// before each rank.
pub open spec fn frontier(
    ms: Seq<SoftMacro>,
    order: Seq<usize>,
    rank: Seq<int>,
    horizontal: bool,
    t: nat,
    p: int,
) -> int
    decreases t,
{
    if t == 0 {
        0
    } else {
        let prev = frontier(ms, order, rank, horizontal, (t - 1) as nat, p);
        if rank[order[t - 1] as int] <= p {
            let top = packed_top(ms, order, rank, horizontal, (t - 1) as nat);
            if top > prev { top } else { prev }
        } else {
            prev
        }
    }
}

proof fn lemma_reach_is_frontier(
    ms: Seq<SoftMacro>,
    order: Seq<usize>,
    rank: Seq<int>,
    horizontal: bool,
    k: nat,
    j: nat,
)
    requires
        j <= k < order.len(),
        forall|a: int, b: int|
            0 <= a < b < order.len() ==> rank[order[a] as int] != rank[order[b] as int],
        forall|a: int| 0 <= a < order.len() ==> 0 <= #[trigger] order[a] < rank.len(),
    ensures
        reach(ms, order, rank, horizontal, k, j) == frontier(
            ms,
            order,
            rank,
            horizontal,
            j,
            rank[order[k as int] as int],
        ),
    decreases j,
{
    if j > 0 {
        lemma_reach_is_frontier(ms, order, rank, horizontal, k, (j - 1) as nat);
        assert(rank[order[j - 1] as int] != rank[order[k as int] as int]);
    }
}

proof fn lemma_frontier_all(
    ms: Seq<SoftMacro>,
    order: Seq<usize>,
    rank: Seq<int>,
    horizontal: bool,
    t: nat,
    p: int,
)
    requires
        t <= order.len(),
        forall|a: int| 0 <= a < order.len() ==> rank[order[a] as int] <= p,
    ensures
        frontier(ms, order, rank, horizontal, t, p) == span(ms, order, rank, horizontal, t),
    decreases t,
{
    if t > 0 {
        lemma_frontier_all(ms, order, rank, horizontal, (t - 1) as nat, p);
    }
}

proof fn lemma_frontier_monotone(
    ms: Seq<SoftMacro>,
    order: Seq<usize>,
    rank: Seq<int>,
    horizontal: bool,
    t: nat,
    p: int,
    q: int,
)
    requires
        p <= q,
    ensures
        frontier(ms, order, rank, horizontal, t, p) <= frontier(ms, order, rank, horizontal, t, q),
        frontier(ms, order, rank, horizontal, t, p) >= 0,
    decreases t,
{
    if t > 0 {
        lemma_frontier_monotone(ms, order, rank, horizontal, (t - 1) as nat, p, q);
    }
}

proof fn lemma_reach_covers(
    ms: Seq<SoftMacro>,
    order: Seq<usize>,
    rank: Seq<int>,
    horizontal: bool,
    j: nat,
    k: nat,
    i: nat,
)
    requires
        j < i <= k,
        rank[order[j as int] as int] < rank[order[k as int] as int],
    ensures
        packed_top(ms, order, rank, horizontal, j) <= reach(ms, order, rank, horizontal, k, i),
    decreases i,
{
    if i > j + 1 {
        lemma_reach_covers(ms, order, rank, horizontal, j, k, (i - 1) as nat);
    }
}

/// The packing respects the sequence pair: a movable macro sits at or beyond the far edge of
/// every macro that precedes it both in the pass order and in the negative sequence. In the x
/// pass (the positive order) that is every macro before it in both sequences: it lies to the
/// left. In the y pass (the positive order reversed) that is every macro after it in the
/// positive sequence and before it in the negative one: it lies below.
pub proof fn lemma_packing_respects_the_pair(
    ms: Seq<SoftMacro>,
    order: Seq<usize>,
    rank: Seq<int>,
    horizontal: bool,
    j: nat,
    k: nat,
)
    requires
        j < k < order.len(),
        rank[order[j as int] as int] < rank[order[k as int] as int],
        !ms[order[k as int] as int].fixed,
    ensures
        packed_top(ms, order, rank, horizontal, j) <= packed(ms, order, rank, horizontal, k),
{
    lemma_reach_covers(ms, order, rank, horizontal, j, k, k);
}

proof fn lemma_reach_attained(
    ms: Seq<SoftMacro>,
    order: Seq<usize>,
    rank: Seq<int>,
    horizontal: bool,
    k: nat,
    i: nat,
)
    requires
        i <= k,
    ensures
        reach(ms, order, rank, horizontal, k, i) >= 0,
        reach(ms, order, rank, horizontal, k, i) == 0 || exists|j: nat|
            j < i && rank[order[j as int] as int] < rank[order[k as int] as int] && reach(ms, order, rank, horizontal, k, i)
                == #[trigger] packed_top(ms, order, rank, horizontal, j),
    decreases i,
{
    if i > 0 {
        lemma_reach_attained(ms, order, rank, horizontal, k, (i - 1) as nat);
        let r = reach(ms, order, rank, horizontal, k, i);
        if r != 0 && r != reach(ms, order, rank, horizontal, k, (i - 1) as nat) {
            assert(r == packed_top(ms, order, rank, horizontal, (i - 1) as nat));
        }
    }
}

/// A movable macro's packed coordinate is the largest far edge among the macros that precede
/// it in both the pass order and the rank order, or zero when none reaches past zero: it is
/// at least zero and every such far edge, and it is zero or one of them.
pub proof fn lemma_packing_is_the_max(
    ms: Seq<SoftMacro>,
    order: Seq<usize>,
    rank: Seq<int>,
    horizontal: bool,
    k: nat,
)
    requires
        k < order.len(),
        !ms[order[k as int] as int].fixed,
    ensures
        packed(ms, order, rank, horizontal, k) >= 0,
        forall|j: nat|
            j < k && rank[order[j as int] as int] < rank[order[k as int] as int] ==> #[trigger] packed_top(
                ms,
                order,
                rank,
                horizontal,
                j,
            ) <= packed(ms, order, rank, horizontal, k),
        packed(ms, order, rank, horizontal, k) == 0 || exists|j: nat|
            j < k && rank[order[j as int] as int] < rank[order[k as int] as int] && packed(ms, order, rank, horizontal, k)
                == #[trigger] packed_top(ms, order, rank, horizontal, j),
{
    lemma_reach_attained(ms, order, rank, horizontal, k, k);
    assert forall|j: nat| j < k && rank[order[j as int] as int] < rank[order[k as int] as int] implies #[trigger] packed_top(
        ms,
        order,
        rank,
        horizontal,
        j,
    ) <= packed(ms, order, rank, horizontal, k) by {
        lemma_reach_covers(ms, order, rank, horizontal, j, k, k);
    }
}

/// The extent a packing reports is the largest far edge of the macros packed, or zero: at
/// least zero and every far edge, and zero or one of them.
pub proof fn lemma_span_is_the_max(
    ms: Seq<SoftMacro>,
    order: Seq<usize>,
    rank: Seq<int>,
    horizontal: bool,
    t: nat,
)
    ensures
        span(ms, order, rank, horizontal, t) >= 0,
        forall|k: nat| k < t ==> #[trigger] packed_top(ms, order, rank, horizontal, k) <= span(ms, order, rank, horizontal, t),
        span(ms, order, rank, horizontal, t) == 0 || exists|k: nat|
            k < t && span(ms, order, rank, horizontal, t) == #[trigger] packed_top(ms, order, rank, horizontal, k),
    decreases t,
{
    if t > 0 {
        lemma_span_is_the_max(ms, order, rank, horizontal, (t - 1) as nat);
        let s = span(ms, order, rank, horizontal, t);
        if s != 0 && s != span(ms, order, rank, horizontal, (t - 1) as nat) {
            assert(s == packed_top(ms, order, rank, horizontal, (t - 1) as nat));
        }
    }
}

/// The extent the packing reports reaches past the far edge of every macro packed.
pub proof fn lemma_span_covers_every_macro(
    ms: Seq<SoftMacro>,
    order: Seq<usize>,
    rank: Seq<int>,
    horizontal: bool,
    k: nat,
    t: nat,
)
    requires
        k < t,
    ensures
        packed_top(ms, order, rank, horizontal, k) <= span(ms, order, rank, horizontal, t),
    decreases t,
{
    if t > k + 1 {
        lemma_span_covers_every_macro(ms, order, rank, horizontal, k, (t - 1) as nat);
    }
}

/// One packing pass along one axis over `order`, with `rank[id]` the position of `id` in
/// the negative sequence. Returns the extent of the packing.
fn pack_axis(
    macros: &mut Vec<SoftMacro>,
    order: &Vec<usize>,
    rank: &Vec<usize>,
    horizontal: bool,
) -> (r: i32)
    requires
        order.len() == rank.len(),
        rank.len() <= old(macros).len(),
        is_permutation(order@, order.len() as nat),
        is_permutation(rank@, rank.len() as nat),
        packing_fits(
            old(macros)@,
            order@,
            rank@.map_values(|v: usize| v as int),
            horizontal,
        ),
    ensures
        final(macros).len() == old(macros).len(),
        forall|k: int|
            0 <= k < order.len() ==> {
                let m = #[trigger] final(macros)@[order@[k] as int];
                let o = old(macros)@[order@[k] as int];
                &&& coord(m, horizontal) == packed(
                    old(macros)@,
                    order@,
                    rank@.map_values(|v: usize| v as int),
                    horizontal,
                    k as nat,
                )
                &&& coord(m, !horizontal) == coord(o, !horizontal)
                &&& m.width == o.width
                &&& m.height == o.height
                &&& m.fixed == o.fixed
                &&& m.area == o.area
                &&& m.is_macro_cluster == o.is_macro_cluster
            },
        forall|i: int|
            order.len() <= i < old(macros).len() ==> final(macros)@[i] == old(macros)@[i],
        r == span(
            old(macros)@,
            order@,
            rank@.map_values(|v: usize| v as int),
            horizontal,
            order.len() as nat,
        ),
{
    let n = order.len();
    let ghost ms = macros@;
    let ghost rk = rank@.map_values(|v: usize| v as int);
    let ghost ord = order@;
    // `order[a]` is a position `< n`, and distinct positions have distinct ranks.
    assert forall|a: int, b: int| 0 <= a < b < n implies rk[ord[a] as int] != rk[ord[b] as int] by {
        assert(ord[a] != ord[b]);
    }
    let mut acc: Vec<i32> = Vec::new();
    let mut i: usize = 0;
    while i < n
        invariant
            i <= n,
            acc.len() == i,
            forall|p: int| 0 <= p < i ==> acc@[p] == 0,
        decreases n - i,
    {
        acc.push(0);
        i += 1;
    }
    let mut t: usize = 0;
    while t < n
        invariant
            n == order.len(),
            n == rank.len(),
            n <= macros.len(),
            macros.len() == ms.len(),
            ms == old(macros)@,
            rk == rank@.map_values(|v: usize| v as int),
            ord == order@,
            is_permutation(ord, n as nat),
            is_permutation(rank@, n as nat),
            packing_fits(ms, ord, rk, horizontal),
            forall|a: int, b: int| 0 <= a < b < n ==> rk[ord[a] as int] != rk[ord[b] as int],
            t <= n,
            acc.len() == n,
            forall|p: int|
                0 <= p < n ==> #[trigger] acc@[p] == frontier(ms, ord, rk, horizontal, t as nat, p),
            forall|k: int|
                0 <= k < t ==> {
                    let m = #[trigger] macros@[ord[k] as int];
                    let o = ms[ord[k] as int];
                    &&& coord(m, horizontal) == packed(ms, ord, rk, horizontal, k as nat)
                    &&& coord(m, !horizontal) == coord(o, !horizontal)
                    &&& m.width == o.width
                    &&& m.height == o.height
                    &&& m.fixed == o.fixed
                    &&& m.area == o.area
                    &&& m.is_macro_cluster == o.is_macro_cluster
                },
            forall|k: int| t <= k < n ==> #[trigger] macros@[ord[k] as int] == ms[ord[k] as int],
            forall|i: int| n <= i < ms.len() ==> macros@[i] == ms[i],
        decreases n - t,
    {
        let id = order[t];
        let p0 = rank[id];
        let ghost pk = rk[ord[t as int] as int];
        assert(pk == p0 as int);
        proof {
            lemma_reach_is_frontier(ms, ord, rk, horizontal, t as nat, t as nat);
        }
        assert(macros@[id as int] == ms[id as int]);
        let mut m = macros[id];
        if horizontal {
            m.set_x(acc[p0]);
        } else {
            m.set_y(acc[p0]);
        }
        assert(coord(m, horizontal) == packed(ms, ord, rk, horizontal, t as nat));
        assert(packing_fits(ms, ord, rk, horizontal));
        assert(i32::MIN <= packed_top(ms, ord, rk, horizontal, t as nat) <= i32::MAX) by {
            assert(t < ord.len());
            let _ = packed(ms, ord, rk, horizontal, t as nat);
        }
        let current: i32 = if horizontal { m.x + m.width } else { m.y + m.height };
        assert(current == packed_top(ms, ord, rk, horizontal, t as nat));
        macros.set(id, m);
        let ghost acc0 = acc@;
        let mut s: usize = p0;
        while s < n && current > acc[s]
            invariant
                n == acc.len(),
                n == acc0.len(),
                p0 <= s <= n,
                forall|p: int| 0 <= p < p0 ==> acc@[p] == acc0[p],
                forall|p: int| p0 <= p < s ==> acc@[p] == current && acc0[p] < current,
                forall|p: int| s <= p < n ==> acc@[p] == acc0[p],
            decreases n - s,
        {
            acc.set(s, current);
            s += 1;
        }
        proof {
            assert forall|p: int| 0 <= p < n implies #[trigger] acc@[p] == frontier(
                ms,
                ord,
                rk,
                horizontal,
                (t + 1) as nat,
                p,
            ) by {
                assert(acc0[p] == frontier(ms, ord, rk, horizontal, t as nat, p));
                if p >= s && s < n {
                    assert(acc0[s as int] == frontier(ms, ord, rk, horizontal, t as nat, s as int));
                    lemma_frontier_monotone(ms, ord, rk, horizontal, t as nat, s as int, p);
                }
            }
        }
        t += 1;
    }
    if n == 0 {
        return 0;
    }
    proof {
        assert forall|a: int| 0 <= a < ord.len() implies rk[ord[a] as int] <= n - 1 by {
            assert(rank@[ord[a] as int] < n);
        }
        lemma_frontier_all(ms, ord, rk, horizontal, n as nat, n - 1);
    }
    acc[n - 1]
}


/// A permutation of `0..n` reaches every value below `n`.
pub proof fn lemma_permutation_onto(s: Seq<usize>, n: nat, id: usize)
    requires
        is_permutation(s, n),
        id < n,
    ensures
        exists|i: int| 0 <= i < n && s[i] == id,
{
    let dom = vstd::set_lib::set_int_range(0, n as int);
    let f = |i: int| s[i] as int;
    vstd::set_lib::lemma_int_range(0, n as int);
    assert(vstd::relations::injective_on(f, dom)) by {
        assert forall|a: int, b: int| dom.contains(a) && dom.contains(b) && f(a) == f(b) implies a
            == b by {
            if a < b {
                assert(s[a] != s[b]);
            } else if b < a {
                assert(s[b] != s[a]);
            }
        }
    }
    let img = dom.map(f);
    vstd::set_lib::lemma_map_size(dom, img, f);
    assert(img.subset_of(dom)) by {
        assert forall|v: int| img.contains(v) implies dom.contains(v) by {
            let i = choose|i: int| dom.contains(i) && f(i) == v;
            assert(s[i] < n);
        }
    }
    vstd::set_lib::lemma_subset_equality(img, dom);
    assert(dom.contains(id as int));
    assert(img.contains(id as int));
    let i = choose|i: int| dom.contains(i) && f(i) == id as int;
    assert(s[i] == id);
}

/// In a permutation, `index_of` finds the one position holding the value.
pub proof fn lemma_index_of_permutation(s: Seq<usize>, n: nat, i: int)
    requires
        is_permutation(s, n),
        0 <= i < n,
    ensures
        index_of(s, s[i]) == i,
{
    let j = index_of(s, s[i]);
    assert(0 <= j < s.len() && s[j] == s[i]);
    if j < i {
        assert(s[j] != s[i]);
    } else if i < j {
        assert(s[i] != s[j]);
    }
}

proof fn lemma_packed_congruent(
    ms0: Seq<SoftMacro>,
    ms1: Seq<SoftMacro>,
    order: Seq<usize>,
    rank: Seq<int>,
    horizontal: bool,
    k: nat,
)
    requires
        k < order.len(),
        forall|a: int|
            0 <= a < order.len() ==> {
                let m0 = ms0[#[trigger] order[a] as int];
                let m1 = ms1[order[a] as int];
                &&& coord(m0, horizontal) == coord(m1, horizontal)
                &&& extent(m0, horizontal) == extent(m1, horizontal)
                &&& m0.fixed == m1.fixed
            },
    ensures
        packed(ms0, order, rank, horizontal, k) == packed(ms1, order, rank, horizontal, k),
    decreases k, k + 1,
{
    lemma_reach_congruent(ms0, ms1, order, rank, horizontal, k, k);
}

proof fn lemma_reach_congruent(
    ms0: Seq<SoftMacro>,
    ms1: Seq<SoftMacro>,
    order: Seq<usize>,
    rank: Seq<int>,
    horizontal: bool,
    k: nat,
    j: nat,
)
    requires
        k < order.len(),
        forall|a: int|
            0 <= a < order.len() ==> {
                let m0 = ms0[#[trigger] order[a] as int];
                let m1 = ms1[order[a] as int];
                &&& coord(m0, horizontal) == coord(m1, horizontal)
                &&& extent(m0, horizontal) == extent(m1, horizontal)
                &&& m0.fixed == m1.fixed
            },
    ensures
        reach(ms0, order, rank, horizontal, k, j) == reach(ms1, order, rank, horizontal, k, j),
    decreases k, j,
{
    if j == 0 || j > k {
    } else {
        lemma_reach_congruent(ms0, ms1, order, rank, horizontal, k, (j - 1) as nat);
        lemma_packed_congruent(ms0, ms1, order, rank, horizontal, (j - 1) as nat);
        let a = j - 1;
        assert(extent(ms0[order[a] as int], horizontal) == extent(ms1[order[a] as int], horizontal));
    }
}

proof fn lemma_span_congruent(
    ms0: Seq<SoftMacro>,
    ms1: Seq<SoftMacro>,
    order: Seq<usize>,
    rank: Seq<int>,
    horizontal: bool,
    t: nat,
)
    requires
        t <= order.len(),
        forall|a: int|
            0 <= a < order.len() ==> {
                let m0 = ms0[#[trigger] order[a] as int];
                let m1 = ms1[order[a] as int];
                &&& coord(m0, horizontal) == coord(m1, horizontal)
                &&& extent(m0, horizontal) == extent(m1, horizontal)
                &&& m0.fixed == m1.fixed
            },
    ensures
        span(ms0, order, rank, horizontal, t) == span(ms1, order, rank, horizontal, t),
        forall|k: nat|
            k < t ==> packed(ms0, order, rank, horizontal, k) == #[trigger] packed(
                ms1,
                order,
                rank,
                horizontal,
                k,
            ),
    decreases t,
{
    if t > 0 {
        lemma_span_congruent(ms0, ms1, order, rank, horizontal, (t - 1) as nat);
        lemma_packed_congruent(ms0, ms1, order, rank, horizontal, (t - 1) as nat);
        let a = t - 1;
        assert(extent(ms0[order[a] as int], horizontal) == extent(ms1[order[a] as int], horizontal));
    }
}

/// Place every macro from the sequence pair and return the packing's `(width, height)`.
///
/// Along x, each non-fixed macro sits at the far edge of the furthest macro before it in
/// both sequences; along y the same rule runs over the positive sequence reversed. A fixed
/// macro keeps its position but still pushes the others along.
pub fn pack_floorplan(macros: &mut Vec<SoftMacro>, sp: &SequencePair) -> (r: (i32, i32))
    requires
        is_sequence_pair(sp.pos@, sp.neg@),
        sp.pos@.len() <= old(macros)@.len(),
        packing_fits(old(macros)@, sp.pos@, ranks(sp.neg@), true),
        packing_fits(old(macros)@, sp.pos@.reverse(), ranks(sp.neg@), false),
    ensures
        final(macros)@.len() == old(macros)@.len(),
        forall|k: int|
            0 <= k < sp.pos@.len() ==> (#[trigger] final(macros)@[sp.pos@[k] as int]).x == packed(
                old(macros)@,
                sp.pos@,
                ranks(sp.neg@),
                true,
                k as nat,
            ),
        forall|k: int|
            0 <= k < sp.pos@.len() ==> (#[trigger] final(macros)@[sp.pos@.reverse()[k] as int]).y
                == packed(old(macros)@, sp.pos@.reverse(), ranks(sp.neg@), false, k as nat),
        forall|i: int|
            0 <= i < sp.pos@.len() ==> {
                let m = #[trigger] final(macros)@[i];
                let o = old(macros)@[i];
                &&& m.width == o.width
                &&& m.height == o.height
                &&& m.fixed == o.fixed
                &&& m.area == o.area
                &&& m.is_macro_cluster == o.is_macro_cluster
            },
        forall|i: int|
            sp.pos@.len() <= i < old(macros)@.len() ==> final(macros)@[i] == old(macros)@[i],
        r == (
            span(old(macros)@, sp.pos@, ranks(sp.neg@), true, sp.pos@.len()) as i32,
            span(old(macros)@, sp.pos@.reverse(), ranks(sp.neg@), false, sp.pos@.len()) as i32,
        ),
        r.0 == span(old(macros)@, sp.pos@, ranks(sp.neg@), true, sp.pos@.len()),
        r.1 == span(old(macros)@, sp.pos@.reverse(), ranks(sp.neg@), false, sp.pos@.len()),
{
    let n = sp.len();
    let ghost ms0 = macros@;
    let ghost pos = sp.pos@;
    let ghost neg = sp.neg@;
    if n == 0 {
        return (0, 0);
    }
    // The rank of each id in the negative sequence.
    let mut rank: Vec<usize> = Vec::new();
    let mut i: usize = 0;
    while i < n
        invariant
            i <= n,
            rank.len() == i,
        decreases n - i,
    {
        rank.push(0);
        i += 1;
    }
    let mut i: usize = 0;
    while i < n
        invariant
            n == sp.neg@.len(),
            neg == sp.neg@,
            is_permutation(neg, n as nat),
            rank.len() == n,
            i <= n,
            forall|j: int| 0 <= j < i ==> #[trigger] rank@[neg[j] as int] == j,
        decreases n - i,
    {
        let id = sp.neg[i];
        rank.set(id, i);
        proof {
            assert forall|j: int| 0 <= j < i implies #[trigger] rank@[neg[j] as int] == j by {
                assert(neg[j] != neg[i as int]);
            }
        }
        i += 1;
    }
    proof {
        assert forall|id: int| 0 <= id < n implies neg[#[trigger] rank@[id] as int] == id && rank@[id]
            < n by {
            lemma_permutation_onto(neg, n as nat, id as usize);
            let j = choose|j: int| 0 <= j < n && neg[j] == id as usize;
            assert(rank@[neg[j] as int] == j);
        }
        assert(is_permutation(rank@, n as nat)) by {
            assert forall|a: int, b: int| 0 <= a < b < n implies rank@[a] != rank@[b] by {
                assert(neg[rank@[a] as int] == a);
                assert(neg[rank@[b] as int] == b);
            }
        }
        assert(rank@.map_values(|v: usize| v as int) =~= ranks(neg)) by {
            assert forall|id: int| 0 <= id < n implies rank@.map_values(|v: usize| v as int)[id]
                == #[trigger] ranks(neg)[id] by {
                let j = rank@[id] as int;
                assert(neg[j] == id);
                lemma_index_of_permutation(neg, n as nat, j);
            }
        }
    }
    let width = pack_axis(macros, &sp.pos, &rank, true);
    let ghost ms1 = macros@;
    // The positive sequence, reversed.
    let mut reversed: Vec<usize> = Vec::new();
    let mut i: usize = 0;
    while i < n
        invariant
            n == pos.len(),
            pos == sp.pos@,
            i <= n,
            reversed.len() == i,
            forall|j: int| 0 <= j < i ==> reversed@[j] == pos[n - 1 - j],
        decreases n - i,
    {
        reversed.push(sp.pos[n - 1 - i]);
        i += 1;
    }
    assert(reversed@ =~= pos.reverse());
    let ghost rev = pos.reverse();
    proof {
        assert(is_permutation(rev, n as nat)) by {
            assert forall|a: int, b: int| 0 <= a < b < n implies rev[a] != rev[b] by {
                assert(pos[n - 1 - b] != pos[n - 1 - a]);
            }
        }
        assert forall|a: int|
            0 <= a < rev.len() implies {
                let m0 = ms0[#[trigger] rev[a] as int];
                let m1 = ms1[rev[a] as int];
                &&& coord(m0, false) == coord(m1, false)
                &&& extent(m0, false) == extent(m1, false)
                &&& m0.fixed == m1.fixed
            } by {
            lemma_permutation_onto(pos, n as nat, rev[a]);
            let k = choose|k: int| 0 <= k < n && pos[k] == rev[a];
            assert(ms1[pos[k] as int].y == ms0[pos[k] as int].y);
        }
        lemma_span_congruent(ms0, ms1, rev, ranks(neg), false, n as nat);
        assert(packing_fits(ms1, rev, ranks(neg), false)) by {
            assert forall|k: nat| k < rev.len() implies i32::MIN <= #[trigger] packed(
                ms1,
                rev,
                ranks(neg),
                false,
                k,
            ) <= i32::MAX && i32::MIN <= packed_top(ms1, rev, ranks(neg), false, k) <= i32::MAX by {
                assert(packed(ms0, rev, ranks(neg), false, k) == packed(
                    ms1,
                    rev,
                    ranks(neg),
                    false,
                    k,
                ));
                assert(extent(ms0[rev[k as int] as int], false) == extent(
                    ms1[rev[k as int] as int],
                    false,
                ));
            }
        }
    }
    let height = pack_axis(macros, &reversed, &rank, false);
    proof {
        assert forall|k: int| 0 <= k < n implies (#[trigger] macros@[pos[k] as int]).x == packed(
            ms0,
            pos,
            ranks(neg),
            true,
            k as nat,
        ) by {
            let id = pos[k];
            assert(n - 1 - (n - 1 - k) == k);
            assert(rev[n - 1 - k] == id);
            assert(ms1[rev[n - 1 - k] as int].x == macros@[rev[n - 1 - k] as int].x);
        }
        assert forall|i: int|
            0 <= i < n implies {
                let m = #[trigger] macros@[i];
                let o = ms0[i];
                &&& m.width == o.width
                &&& m.height == o.height
                &&& m.fixed == o.fixed
                &&& m.area == o.area
                &&& m.is_macro_cluster == o.is_macro_cluster
            } by {
            lemma_permutation_onto(pos, n as nat, i as usize);
            let k = choose|k: int| 0 <= k < n && pos[k] == i as usize;
            assert(rev[n - 1 - k] == pos[k]);
            assert(ms1[pos[k] as int].width == ms0[pos[k] as int].width);
            assert(macros@[rev[n - 1 - k] as int].width == ms1[rev[n - 1 - k] as int].width);
        }
    }
    (width, height)
}


// ------------------------------------------------------------------ the perturbations

use crate::rng::{Mt19937, uniform_int, uniform, MAX_DRAWS, canonical_draw, canonical_units, mt_output};
use crate::single::{nearest_single, to_nearest_single};
use crate::ioclusters::saturate_i32;

/// Which perturbation a step chose, numbered as the placer's action ids.
#[derive(Debug, Clone, Copy, PartialEq, Eq, Structural)]
pub enum Action {
    SwapPositive,
    SwapNegative,
    SwapBoth,
    Exchange,
    Resize,
}

/// `s` with the entries at `i` and `j` exchanged.
pub open spec fn swap_seq(s: Seq<usize>, i: int, j: int) -> Seq<usize> {
    s.update(i, s[j]).update(j, s[i])
}

/// Redrawing the second index while it equals `first`, with `left` redraws allowed after
/// the draw at word `d`.
pub open spec fn distinct_second(seed: u32, d: nat, n: u32, first: u32, left: nat) -> (u32, nat)
    decreases left,
{
    let (v, d1) = uniform(seed, d, n);
    if v != first || left == 0 {
        (v, d1)
    } else {
        distinct_second(seed, d1, n, first, (left - 1) as nat)
    }
}

/// Two distinct positions below `n` drawn from a generator that has drawn `d` words, and
/// the count afterwards: the first is one draw, the second is redrawn while it repeats it.
pub open spec fn random_indices(seed: u32, d: nat, n: u32) -> (u32, u32, nat) {
    let (a, d1) = uniform(seed, d, n);
    let (b, d2) = distinct_second(seed, d1, n, a, MAX_DRAWS as nat);
    (a, b, d2)
}

/// A second draw that still repeats the first has consumed more words than it was allowed
/// redraws.
proof fn lemma_repeat_exhausts(seed: u32, d: nat, n: u32, first: u32, left: nat)
    requires
        n > 1,
    ensures
        distinct_second(seed, d, n, first, left).0 == first ==> distinct_second(seed, d, n, first, left).1 >= d + left + 1,
    decreases left,
{
    crate::rng::lemma_uniform_advances(seed, d, n);
    let (v, d1) = uniform(seed, d, n);
    if v == first && left > 0 {
        lemma_repeat_exhausts(seed, d1, n, first, (left - 1) as nat);
    }
}

/// The two positions drawn for a move differ, unless the generator drew more than 2^64 words
/// in the one draw, which no run does.
pub proof fn lemma_random_indices_distinct(seed: u32, d: nat, n: u32)
    requires
        n > 1,
    ensures
        random_indices(seed, d, n).0 == random_indices(seed, d, n).1 ==> random_indices(seed, d, n).2 > d + MAX_DRAWS,
{
    crate::rng::lemma_uniform_advances(seed, d, n);
    let (a, d1) = uniform(seed, d, n);
    lemma_repeat_exhausts(seed, d1, n, a, MAX_DRAWS as nat);
}

/// Two positions below `n`, drawn as `generateRandomIndices` draws them. They differ unless
/// the redraw cap, which no run reaches, is exhausted.
pub fn generate_random_indices(rng: &mut Mt19937, n: usize) -> (r: (usize, usize))
    requires
        old(rng).wf(),
        1 < n <= u32::MAX,
    ensures
        final(rng).wf(),
        final(rng)@.0 == old(rng)@.0,
        (r.0 as u32, r.1 as u32, final(rng)@.1) == random_indices(old(rng)@.0, old(rng)@.1, n as u32),
        r.0 < n,
        r.1 < n,
        r.0 == r.1 ==> final(rng)@.1 > old(rng)@.1 + MAX_DRAWS,
{
    proof {
        lemma_random_indices_distinct(rng@.0, rng@.1, n as u32);
    }
    let ghost seed = rng@.0;
    let index1 = uniform_int(rng, n as u32);
    let ghost d1 = rng@.1;
    let mut index2 = uniform_int(rng, n as u32);
    let ghost goal = distinct_second(seed, d1, n as u32, index1, MAX_DRAWS as nat);
    let mut left: u64 = MAX_DRAWS;
    while index1 == index2 && left > 0
        invariant
            rng.wf(),
            rng@.0 == seed,
            1 < n <= u32::MAX,
            index2 < n,
            goal == (if index2 != index1 || left == 0 {
                (index2, rng@.1)
            } else {
                distinct_second(seed, rng@.1, n as u32, index1, (left - 1) as nat)
            }),
        decreases left,
    {
        index2 = uniform_int(rng, n as u32);
        left = left - 1;
    }
    (index1 as usize, index2 as usize)
}

/// Swapping two positions keeps a permutation a permutation, so every swap move keeps a
/// sequence pair a sequence pair.
pub proof fn lemma_swap_keeps_permutation(s: Seq<usize>, n: nat, i: int, j: int)
    requires
        is_permutation(s, n),
        0 <= i < n,
        0 <= j < n,
    ensures
        is_permutation(swap_seq(s, i, j), n),
{
    let t = swap_seq(s, i, j);
    assert forall|a: int, b: int| 0 <= a < b < n implies t[a] != t[b] by {
        let sa = if a == j { i } else if a == i { j } else { a };
        let sb = if b == j { i } else if b == i { j } else { b };
        assert(t[a] == s[sa]);
        assert(t[b] == s[sb]);
        assert(sa != sb);
        if sa < sb {
            assert(s[sa] != s[sb]);
        } else {
            assert(s[sb] != s[sa]);
        }
    }
    assert forall|a: int| 0 <= a < n implies #[trigger] t[a] < n by {
        if a == j {
            assert(t[a] == s[i]);
        } else if a == i {
            assert(t[a] == s[j]);
        }
    }
}

fn swap_entries(v: &mut Vec<usize>, i: usize, j: usize)
    requires
        i < old(v).len(),
        j < old(v).len(),
    ensures
        final(v)@ == swap_seq(old(v)@, i as int, j as int),
{
    let a = v[i];
    let b = v[j];
    v.set(i, b);
    v.set(j, a);
}

/// Swap two positions in ONE of the sequences. A sequence of one or no macro is left
/// alone and draws nothing.
pub fn single_seq_swap(rng: &mut Mt19937, sp: &mut SequencePair, positive: bool)
    requires
        old(rng).wf(),
        old(sp).pos@.len() <= u32::MAX,
        old(sp).neg@.len() == old(sp).pos@.len(),
    ensures
        final(rng).wf(),
        final(rng)@.0 == old(rng)@.0,
        old(sp).pos@.len() <= 1 ==> *final(sp) == *old(sp) && final(rng)@ == old(rng)@,
        old(sp).pos@.len() > 1 ==> {
            let (i, j, d) = random_indices(old(rng)@.0, old(rng)@.1, old(sp).pos@.len() as u32);
            &&& final(rng)@.1 == d
            &&& positive ==> final(sp).pos@ == swap_seq(old(sp).pos@, i as int, j as int)
                && final(sp).neg@ == old(sp).neg@
            &&& !positive ==> final(sp).neg@ == swap_seq(old(sp).neg@, i as int, j as int)
                && final(sp).pos@ == old(sp).pos@
        },
        is_sequence_pair(old(sp).pos@, old(sp).neg@) ==> is_sequence_pair(
            final(sp).pos@,
            final(sp).neg@,
        ),
{
    if sp.len() <= 1 {
        return;
    }
    let ghost n = sp.pos@.len();
    let (i, j) = generate_random_indices(rng, sp.len());
    if positive {
        swap_entries(&mut sp.pos, i, j);
    } else {
        swap_entries(&mut sp.neg, i, j);
    }
    proof {
        if is_sequence_pair(old(sp).pos@, old(sp).neg@) {
            if positive {
                lemma_swap_keeps_permutation(old(sp).pos@, n, i as int, j as int);
            } else {
                lemma_swap_keeps_permutation(old(sp).neg@, n, i as int, j as int);
            }
        }
    }
}

/// Swap the SAME two positions in both sequences.
pub fn double_seq_swap(rng: &mut Mt19937, sp: &mut SequencePair)
    requires
        old(rng).wf(),
        old(sp).pos@.len() <= u32::MAX,
        old(sp).neg@.len() == old(sp).pos@.len(),
    ensures
        final(rng).wf(),
        final(rng)@.0 == old(rng)@.0,
        old(sp).pos@.len() <= 1 ==> *final(sp) == *old(sp) && final(rng)@ == old(rng)@,
        old(sp).pos@.len() > 1 ==> {
            let (i, j, d) = random_indices(old(rng)@.0, old(rng)@.1, old(sp).pos@.len() as u32);
            &&& final(rng)@.1 == d
            &&& final(sp).pos@ == swap_seq(old(sp).pos@, i as int, j as int)
            &&& final(sp).neg@ == swap_seq(old(sp).neg@, i as int, j as int)
        },
        is_sequence_pair(old(sp).pos@, old(sp).neg@) ==> is_sequence_pair(
            final(sp).pos@,
            final(sp).neg@,
        ),
{
    if sp.len() <= 1 {
        return;
    }
    let ghost n = sp.pos@.len();
    let (i, j) = generate_random_indices(rng, sp.len());
    swap_entries(&mut sp.pos, i, j);
    swap_entries(&mut sp.neg, i, j);
    proof {
        if is_sequence_pair(old(sp).pos@, old(sp).neg@) {
            lemma_swap_keeps_permutation(old(sp).pos@, n, i as int, j as int);
            lemma_swap_keeps_permutation(old(sp).neg@, n, i as int, j as int);
        }
    }
}

/// Swap two macros in the positive sequence, then swap the same two MACROS in the negative
/// one, so each keeps its pair of positions together.
pub fn exchange_macros(rng: &mut Mt19937, sp: &mut SequencePair)
    requires
        old(rng).wf(),
        old(sp).pos@.len() <= u32::MAX,
        is_sequence_pair(old(sp).pos@, old(sp).neg@),
    ensures
        final(rng).wf(),
        final(rng)@.0 == old(rng)@.0,
        old(sp).pos@.len() <= 1 ==> *final(sp) == *old(sp) && final(rng)@ == old(rng)@,
        old(sp).pos@.len() > 1 ==> {
            let (i, j, d) = random_indices(old(rng)@.0, old(rng)@.1, old(sp).pos@.len() as u32);
            let a = old(sp).pos@[j as int];
            let b = old(sp).pos@[i as int];
            &&& final(rng)@.1 == d
            &&& final(sp).pos@ == swap_seq(old(sp).pos@, i as int, j as int)
            &&& final(sp).neg@ == swap_seq(
                old(sp).neg@,
                index_of(old(sp).neg@, a),
                index_of(old(sp).neg@, b),
            )
        },
        is_sequence_pair(final(sp).pos@, final(sp).neg@),
{
    if sp.len() <= 1 {
        return;
    }
    let ghost n = sp.pos@.len();
    let ghost neg0 = sp.neg@;
    let (i, j) = generate_random_indices(rng, sp.len());
    swap_entries(&mut sp.pos, i, j);
    let a = sp.pos[i];
    let b = sp.pos[j];
    let mut neg_i: usize = 0;
    let mut neg_j: usize = 0;
    let mut k: usize = 0;
    while k < sp.neg.len()
        invariant
            sp.neg@ == neg0,
            neg0.len() == n,
            k <= n,
            neg_i < n,
            neg_j < n,
            (exists|t: int| 0 <= t < k && neg0[t] == a) ==> neg0[neg_i as int] == a,
            (exists|t: int| 0 <= t < k && neg0[t] == b) ==> neg0[neg_j as int] == b,
        decreases n - k,
    {
        if sp.neg[k] == a {
            neg_i = k;
        }
        if sp.neg[k] == b {
            neg_j = k;
        }
        k += 1;
    }
    proof {
        lemma_permutation_onto(neg0, n, a);
        lemma_permutation_onto(neg0, n, b);
        lemma_index_of_permutation(neg0, n, neg_i as int);
        lemma_index_of_permutation(neg0, n, neg_j as int);
        lemma_swap_keeps_permutation(old(sp).pos@, n, i as int, j as int);
        lemma_swap_keeps_permutation(neg0, n, neg_i as int, neg_j as int);
    }
    swap_entries(&mut sp.neg, neg_i, neg_j);
}

/// Both sequences start as the identity, so the first packing is a single row.
pub fn init_sequence_pair(macro_count: usize) -> (r: SequencePair)
    ensures
        r.pos@ == Seq::new(macro_count as nat, |i: int| i as usize),
        r.neg@ == Seq::new(macro_count as nat, |i: int| i as usize),
        is_sequence_pair(r.pos@, r.neg@),
{
    let mut pos: Vec<usize> = Vec::new();
    let mut neg: Vec<usize> = Vec::new();
    let mut i: usize = 0;
    while i < macro_count
        invariant
            i <= macro_count,
            pos@ == Seq::new(i as nat, |k: int| k as usize),
            neg@ == Seq::new(i as nat, |k: int| k as usize),
        decreases macro_count - i,
    {
        pos.push(i);
        neg.push(i);
        i += 1;
    }
    SequencePair { pos, neg }
}

/// An initial sequence pair suppresses the default; otherwise the identity over the
/// sequence-pair count, or over the macro count when that is zero.
pub fn init_sequence_pair_with(
    macro_count: usize,
    number_of_sequence_pair_macros: usize,
    initial: Option<SequencePair>,
) -> (r: SequencePair)
    ensures
        initial is Some ==> r == initial->0,
        initial is None ==> {
            let size = if number_of_sequence_pair_macros != 0 {
                number_of_sequence_pair_macros
            } else {
                macro_count
            };
            &&& r.pos@ == Seq::new(size as nat, |i: int| i as usize)
            &&& r.neg@ == Seq::new(size as nat, |i: int| i as usize)
        },
{
    if let Some(sp) = initial {
        return sp;
    }
    let size = if number_of_sequence_pair_macros != 0 {
        number_of_sequence_pair_macros
    } else {
        macro_count
    };
    init_sequence_pair(size)
}


// ------------------------------------------------------------------ shapes

/// A width or height range a soft macro may take.
#[derive(Debug, Clone, Copy, PartialEq, Eq, Structural)]
pub struct Interval {
    pub min: i32,
    pub max: i32,
}

/// The shape curve a soft macro may be resized along.
#[derive(Debug, Clone, PartialEq, Eq, Default)]
pub struct ShapeCurve {
    pub width_intervals: Vec<Interval>,
    pub height_intervals: Vec<Interval>,
}

/// The hard-macro-cluster form of `setShapes`: one degenerate interval per tiling, in
/// tiling order, and the first tiling as the shape. Returns the curve, width, height and
/// area.
pub fn shape_curve_from_tilings(tilings: &Vec<(i32, i32)>) -> (r: (ShapeCurve, i32, i32, i64))
    ensures
        r.0.width_intervals@.len() == tilings@.len(),
        r.0.height_intervals@.len() == tilings@.len(),
        forall|i: int|
            0 <= i < tilings@.len() ==> #[trigger] r.0.width_intervals@[i] == (Interval { min: tilings@[i].0, max: tilings@[i].0 }),
        forall|i: int|
            0 <= i < tilings@.len() ==> #[trigger] r.0.height_intervals@[i] == (Interval { min: tilings@[i].1, max: tilings@[i].1 }),
        tilings@.len() == 0 ==> r.1 == 0 && r.2 == 0 && r.3 == 0,
        tilings@.len() > 0 ==> r.1 == tilings@[0].0 && r.2 == tilings@[0].1 && r.3
            == tilings@[0].0 * tilings@[0].1,
{
    let mut widths: Vec<Interval> = Vec::new();
    let mut heights: Vec<Interval> = Vec::new();
    let mut i: usize = 0;
    while i < tilings.len()
        invariant
            i <= tilings.len(),
            widths@.len() == i,
            heights@.len() == i,
            forall|k: int|
                0 <= k < i ==> #[trigger] widths@[k] == (Interval { min: tilings@[k].0, max: tilings@[k].0 }),
            forall|k: int|
                0 <= k < i ==> #[trigger] heights@[k] == (Interval { min: tilings@[k].1, max: tilings@[k].1 }),
        decreases tilings.len() - i,
    {
        let (width, height) = tilings[i];
        widths.push(Interval { min: width, max: width });
        heights.push(Interval { min: height, max: height });
        i += 1;
    }
    let (width, height) = if tilings.len() > 0 { tilings[0] } else { (0, 0) };
    let area = wide_mul(width, height);
    let curve = ShapeCurve { width_intervals: widths, height_intervals: heights };
    (curve, width, height, area)
}

/// The number of leading intervals whose minimum is at most `v`.
pub open spec fn mins_not_after(s: Seq<Interval>, v: i32, n: int) -> int
    decreases n,
{
    if n <= 0 {
        0
    } else if mins_not_after(s, v, n - 1) == n - 1 && s[n - 1].min <= v {
        n
    } else {
        mins_not_after(s, v, n - 1)
    }
}

/// The first `n` intervals sorted by minimum, equal minima kept in order.
pub open spec fn sorted_by_min(ivs: Seq<Interval>, n: int) -> Seq<Interval>
    decreases n,
{
    if n <= 0 {
        Seq::empty()
    } else {
        let prev = sorted_by_min(ivs, n - 1);
        prev.insert(mins_not_after(prev, ivs[n - 1].min, prev.len() as int), ivs[n - 1])
    }
}

/// The first `n` sorted intervals merged: one that starts at or before the end of the last
/// merged one, touching included, extends it.
pub open spec fn merged_widths(sorted: Seq<Interval>, n: int) -> Seq<Interval>
    decreases n,
{
    if n <= 0 {
        Seq::empty()
    } else {
        let m = merged_widths(sorted, n - 1);
        let iv = sorted[n - 1];
        if m.len() > 0 && iv.min <= m.last().max {
            let back = m.last();
            m.update(m.len() - 1, Interval { min: back.min, max: if iv.max > back.max { iv.max } else { back.max } })
        } else {
            m.push(iv)
        }
    }
}

/// The point lies in one of the first `n` intervals.
pub open spec fn covered_by(s: Seq<Interval>, n: int, v: int) -> bool {
    exists|k: int| 0 <= k < n && #[trigger] s[k].min <= v <= s[k].max
}

/// Merging intervals sorted by their minimum keeps exactly the points they cover, and leaves
/// the merged intervals strictly apart, each ending before the next begins.
pub proof fn lemma_merge_keeps_the_union(sorted: Seq<Interval>, n: int, v: int)
    requires
        0 <= n <= sorted.len(),
        forall|a: int, b: int| 0 <= a < b < sorted.len() ==> #[trigger] sorted[a].min <= #[trigger] sorted[b].min,
    ensures
        ({
            let m = merged_widths(sorted, n);
            &&& covered_by(m, m.len() as int, v) <==> covered_by(sorted, n, v)
            &&& forall|k: int| 0 <= k < m.len() - 1 ==> #[trigger] m[k].max < m[k + 1].min
            &&& n > 0 ==> m.len() > 0 && m[0].min == sorted[0].min
            &&& forall|k: int| 0 <= k < m.len() ==> exists|j: int| 0 <= j < n && #[trigger] m[k].min == sorted[j].min
        }),
    decreases n,
{
    if n > 0 {
        lemma_merge_keeps_the_union(sorted, n - 1, v);
        let m = merged_widths(sorted, n - 1);
        let iv = sorted[n - 1];
        let m2 = merged_widths(sorted, n);
        if m.len() > 0 && iv.min <= m.last().max {
            let back = m.last();
            let last = m.len() - 1;
            assert(m2 == m.update(last, Interval { min: back.min, max: if iv.max > back.max { iv.max } else { back.max } }));
            let j = choose|j: int| 0 <= j < n - 1 && #[trigger] m[last].min == sorted[j].min;
            assert(sorted[j].min <= iv.min);
            if covered_by(m2, m2.len() as int, v) {
                let k = choose|k: int| 0 <= k < m2.len() && #[trigger] m2[k].min <= v <= m2[k].max;
                if k == last && v > back.max {
                    assert(iv.min <= v <= iv.max);
                    assert(sorted[n - 1].min <= v <= sorted[n - 1].max);
                } else if k == last {
                    assert(m[last].min <= v <= m[last].max);
                    assert(covered_by(m, m.len() as int, v));
                } else {
                    assert(m[k] == m2[k]);
                    assert(covered_by(m, m.len() as int, v));
                }
            }
            if covered_by(sorted, n, v) {
                let i = choose|i: int| 0 <= i < n && #[trigger] sorted[i].min <= v <= sorted[i].max;
                if i == n - 1 {
                    assert(m2[last].min <= v <= m2[last].max);
                } else {
                    assert(covered_by(sorted, n - 1, v));
                    let k = choose|k: int| 0 <= k < m.len() && #[trigger] m[k].min <= v <= m[k].max;
                    if k == last {
                        assert(m2[last].min <= v <= m2[last].max);
                    } else {
                        assert(m2[k] == m[k]);
                    }
                }
            }
            assert forall|k: int| 0 <= k < m2.len() implies exists|j: int| 0 <= j < n && #[trigger] m2[k].min == sorted[j].min by {
                let j = choose|j: int| 0 <= j < n - 1 && #[trigger] m[k].min == sorted[j].min;
                assert(m2[k].min == sorted[j].min);
            }
            assert forall|k: int| 0 <= k < m2.len() - 1 implies #[trigger] m2[k].max < m2[k + 1].min by {
                assert(m[k].max < m[k + 1].min);
            }
        } else {
            assert(m2 == m.push(iv));
            if covered_by(m2, m2.len() as int, v) {
                let k = choose|k: int| 0 <= k < m2.len() && #[trigger] m2[k].min <= v <= m2[k].max;
                if k == m.len() {
                    assert(sorted[n - 1].min <= v <= sorted[n - 1].max);
                } else {
                    assert(m[k] == m2[k]);
                    assert(covered_by(m, m.len() as int, v));
                }
            }
            if covered_by(sorted, n, v) {
                let i = choose|i: int| 0 <= i < n && #[trigger] sorted[i].min <= v <= sorted[i].max;
                if i == n - 1 {
                    assert(m2[m.len() as int].min <= v <= m2[m.len() as int].max);
                } else {
                    assert(covered_by(sorted, n - 1, v));
                    let k = choose|k: int| 0 <= k < m.len() && #[trigger] m[k].min <= v <= m[k].max;
                    assert(m2[k] == m[k]);
                }
            }
            assert forall|k: int| 0 <= k < m2.len() implies exists|j: int| 0 <= j < n && #[trigger] m2[k].min == sorted[j].min by {
                if k < m.len() {
                    let j = choose|j: int| 0 <= j < n - 1 && #[trigger] m[k].min == sorted[j].min;
                    assert(m2[k].min == sorted[j].min);
                } else {
                    assert(m2[k].min == sorted[n - 1].min);
                }
            }
            assert forall|k: int| 0 <= k < m2.len() - 1 implies #[trigger] m2[k].max < m2[k + 1].min by {
                if k + 1 < m.len() {
                    assert(m[k].max < m[k + 1].min);
                }
            }
        }
    }
}

/// The intervals are in ascending order of their minimum.
pub open spec fn by_min(s: Seq<Interval>) -> bool {
    forall|a: int, b: int| 0 <= a < b < s.len() ==> #[trigger] s[a].min <= #[trigger] s[b].min
}

proof fn lemma_mins_not_after(s: Seq<Interval>, v: i32, n: int)
    requires
        by_min(s),
        0 <= n <= s.len(),
    ensures
        0 <= mins_not_after(s, v, n) <= n,
        forall|i: int| 0 <= i < mins_not_after(s, v, n) ==> #[trigger] s[i].min <= v,
        mins_not_after(s, v, n) < n ==> s[mins_not_after(s, v, n)].min > v,
    decreases n,
{
    if n > 0 {
        lemma_mins_not_after(s, v, n - 1);
    }
}

/// Sorting by minimum orders the intervals and keeps exactly the points they cover.
proof fn lemma_sorted_by_min(ivs: Seq<Interval>, n: int, v: int)
    requires
        0 <= n <= ivs.len(),
    ensures
        sorted_by_min(ivs, n).len() == n,
        by_min(sorted_by_min(ivs, n)),
        covered_by(sorted_by_min(ivs, n), n, v) <==> covered_by(ivs, n, v),
    decreases n,
{
    if n > 0 {
        lemma_sorted_by_min(ivs, n - 1, v);
        let prev = sorted_by_min(ivs, n - 1);
        let x = ivs[n - 1];
        lemma_mins_not_after(prev, x.min, prev.len() as int);
        let p = mins_not_after(prev, x.min, prev.len() as int);
        let t = prev.insert(p, x);
        assert(sorted_by_min(ivs, n) == t);
        assert forall|a: int, b: int| 0 <= a < b < t.len() implies #[trigger] t[a].min <= #[trigger] t[b].min by {
            if b < p {
                assert(prev[a].min <= prev[b].min);
            } else if b == p {
                assert(prev[a].min <= x.min);
            } else if a < p {
                assert(prev[a].min <= x.min);
                assert(prev[p].min > x.min);
                if b - 1 > p {
                    assert(prev[p].min <= prev[b - 1].min);
                }
            } else if a == p {
                assert(prev[p].min > x.min);
                if b - 1 > p {
                    assert(prev[p].min <= prev[b - 1].min);
                }
            } else {
                assert(prev[a - 1].min <= prev[b - 1].min);
            }
        }
        if covered_by(t, n, v) {
            let k = choose|k: int| 0 <= k < n && #[trigger] t[k].min <= v <= t[k].max;
            if k == p {
                assert(ivs[n - 1].min <= v <= ivs[n - 1].max);
            } else {
                let q = if k < p { k } else { k - 1 };
                assert(t[k] == prev[q]);
                assert(covered_by(prev, n - 1, v));
                let i = choose|i: int| 0 <= i < n - 1 && #[trigger] ivs[i].min <= v <= ivs[i].max;
            }
        }
        if covered_by(ivs, n, v) {
            let i = choose|i: int| 0 <= i < n && #[trigger] ivs[i].min <= v <= ivs[i].max;
            if i == n - 1 {
                assert(t[p].min <= v <= t[p].max);
            } else {
                assert(covered_by(ivs, n - 1, v));
                let q = choose|q: int| 0 <= q < n - 1 && #[trigger] prev[q].min <= v <= prev[q].max;
                let k = if q < p { q } else { q + 1 };
                assert(t[k] == prev[q]);
            }
        }
    }
}

/// The widths a shape curve is built from cover exactly the points the given intervals cover,
/// and they are strictly apart, each ending before the next begins.
pub proof fn lemma_curve_widths_keep_the_union(ivs: Seq<Interval>, v: int)
    ensures
        ({
            let m = merged_widths(sorted_by_min(ivs, ivs.len() as int), ivs.len() as int);
            &&& covered_by(m, m.len() as int, v) <==> covered_by(ivs, ivs.len() as int, v)
            &&& forall|k: int| 0 <= k < m.len() - 1 ==> #[trigger] m[k].max < m[k + 1].min
        }),
{
    lemma_sorted_by_min(ivs, ivs.len() as int, v);
    lemma_merge_keeps_the_union(sorted_by_min(ivs, ivs.len() as int), ivs.len() as int, v);
}

/// The height range that keeps the area for each width range: the minimum height from the
/// maximum width and the maximum from the minimum, truncated.
pub open spec fn heights_for(widths: Seq<Interval>, area: i64) -> Seq<Interval> {
    widths.map_values(|w: Interval| Interval {
        min: crate::arith::quot(area as int, w.max as int) as i32,
        max: crate::arith::quot(area as int, w.min as int) as i32,
    })
}

/// Neither end of any interval is zero.
pub open spec fn nonzero_ends(s: Seq<Interval>) -> bool {
    forall|k: int| 0 <= k < s.len() ==> (#[trigger] s[k]).min != 0 && s[k].max != 0
}

proof fn lemma_mins_not_after_bounded(s: Seq<Interval>, v: i32, n: int)
    requires
        0 <= n,
    ensures
        0 <= mins_not_after(s, v, n) <= n,
    decreases n,
{
    if n > 0 {
        lemma_mins_not_after_bounded(s, v, n - 1);
    }
}

/// A piecewise shape curve at constant area: the width ranges sorted by minimum and merged
/// where they touch or overlap, each with the height range that keeps the area. The macro
/// takes the first width range's minimum and its height range's maximum. Nothing for no
/// intervals or a non-positive area.
pub fn shape_curve_from_intervals(width_intervals: &[Interval], area: i64) -> (r: Option<(ShapeCurve, i32, i32, i64)>)
    requires
        nonzero_ends(width_intervals@),
    ensures
        width_intervals@.len() == 0 || area <= 0 ==> r is None,
        width_intervals@.len() > 0 && area > 0 ==> (r matches Some(t) && {
            let merged = merged_widths(sorted_by_min(width_intervals@, width_intervals@.len() as int), width_intervals@.len() as int);
            &&& t.0.width_intervals@ == merged
            &&& t.0.height_intervals@ == heights_for(merged, area)
            &&& merged.len() > 0
            &&& t.1 == merged[0].min
            &&& t.2 == heights_for(merged, area)[0].max
            &&& t.3 == area
        }),
{
    if width_intervals.len() == 0 || area <= 0 {
        return None;
    }
    let mut sorted: Vec<Interval> = Vec::new();
    let mut k: usize = 0;
    while k < width_intervals.len()
        invariant
            k <= width_intervals@.len(),
            nonzero_ends(width_intervals@),
            sorted@ == sorted_by_min(width_intervals@, k as int),
            sorted@.len() == k,
            nonzero_ends(sorted@),
        decreases width_intervals@.len() - k,
    {
        let iv = width_intervals[k];
        let mut pos: usize = 0;
        let mut still = true;
        let mut q: usize = 0;
        while q < sorted.len()
            invariant
                q <= sorted@.len(),
                pos <= q,
                pos == mins_not_after(sorted@, iv.min, q as int),
                still == (pos == q),
            decreases sorted@.len() - q,
        {
            if still && sorted[q].min <= iv.min {
                pos = q + 1;
            } else {
                still = false;
            }
            q = q + 1;
        }
        proof {
            assert(width_intervals@[k as int] == iv);
            assert(iv.min != 0 && iv.max != 0);
        }
        sorted.insert(pos, iv);
        proof {
            assert forall|j: int| 0 <= j < sorted@.len() implies (#[trigger] sorted@[j]).min != 0 && sorted@[j].max != 0 by {
            }
        }
        k = k + 1;
    }
    let mut merged: Vec<Interval> = Vec::new();
    let mut k: usize = 0;
    while k < sorted.len()
        invariant
            k <= sorted@.len(),
            nonzero_ends(sorted@),
            merged@ == merged_widths(sorted@, k as int),
            nonzero_ends(merged@),
            k > 0 ==> merged@.len() > 0,
        decreases sorted@.len() - k,
    {
        let iv = sorted[k];
        proof {
            assert(sorted@[k as int].min != 0 && sorted@[k as int].max != 0);
        }
        let n = merged.len();
        if n > 0 && iv.min <= merged[n - 1].max {
            let back = merged[n - 1];
            let max = if iv.max > back.max { iv.max } else { back.max };
            merged.set(n - 1, Interval { min: back.min, max });
        } else {
            merged.push(iv);
        }
        k = k + 1;
    }
    let mut heights: Vec<Interval> = Vec::new();
    let mut k: usize = 0;
    while k < merged.len()
        invariant
            k <= merged@.len(),
            area > 0,
            nonzero_ends(merged@),
            heights@ == heights_for(merged@, area).take(k as int),
        decreases merged@.len() - k,
    {
        let w = merged[k];
        proof {
            assert(merged@[k as int].min != 0 && merged@[k as int].max != 0);
        }
        let lo = crate::arith::div_trunc(area, w.max as i64);
        let hi = crate::arith::div_trunc(area, w.min as i64);
        heights.push(Interval { min: lo as i32, max: hi as i32 });
        proof {
            assert(heights@ =~= heights_for(merged@, area).take(k + 1));
        }
        k = k + 1;
    }
    proof {
        assert(heights@ =~= heights_for(merged@, area));
    }
    let width = merged[0].min;
    let height = heights[0].max;
    Some((ShapeCurve { width_intervals: merged, height_intervals: heights }, width, height, area))
}

/// The first index at or after `from` whose interval ends at or beyond `value`
/// (`increasing`), or starts at or below it (otherwise); the length when none does.
pub open spec fn first_reaching(intervals: Seq<Interval>, value: i32, increasing: bool, from: nat) -> nat
    decreases intervals.len() - from,
{
    if from >= intervals.len() {
        intervals.len()
    } else if (increasing && intervals[from as int].max >= value) || (!increasing
        && intervals[from as int].min <= value) {
        from
    } else {
        first_reaching(intervals, value, increasing, from + 1)
    }
}

/// The interval holding `value`, snapping `value` into it: the first one reaching it (the
/// last one when none does), and the value pulled up to its minimum for widths or down to
/// its maximum for heights.
pub open spec fn interval_index(intervals: Seq<Interval>, value: i32, increasing: bool) -> nat {
    let idx = first_reaching(intervals, value, increasing, 0);
    if idx >= intervals.len() { (intervals.len() - 1) as nat } else { idx }
}

/// `value` snapped into the interval `interval_index` finds.
pub open spec fn snapped(intervals: Seq<Interval>, value: i32, increasing: bool) -> i32 {
    let iv = intervals[interval_index(intervals, value, increasing) as int];
    if increasing {
        if iv.min > value { iv.min } else { value }
    } else {
        if iv.max < value { iv.max } else { value }
    }
}

/// `findIntervalIndex`: the interval holding `*value`, snapping `*value` into it.
pub fn find_interval_index(intervals: &Vec<Interval>, value: &mut i32, increasing: bool) -> (r: usize)
    requires
        intervals@.len() > 0,
    ensures
        r as nat == interval_index(intervals@, *old(value), increasing),
        *final(value) == snapped(intervals@, *old(value), increasing),
        r < intervals@.len(),
{
    let n = intervals.len();
    let v = *value;
    let mut idx: usize = 0;
    if increasing {
        while idx < n && intervals[idx].max < v
            invariant
                increasing,
                idx <= n,
                n == intervals@.len(),
                first_reaching(intervals@, v, increasing, 0) == first_reaching(
                    intervals@,
                    v,
                    increasing,
                    idx as nat,
                ),
            decreases n - idx,
        {
            idx += 1;
        }
    } else {
        while idx < n && intervals[idx].min > v
            invariant
                !increasing,
                idx <= n,
                n == intervals@.len(),
                first_reaching(intervals@, v, increasing, 0) == first_reaching(
                    intervals@,
                    v,
                    increasing,
                    idx as nat,
                ),
            decreases n - idx,
        {
            idx += 1;
        }
    }
    let idx = if idx < n - 1 { idx } else { n - 1 };
    if increasing {
        if intervals[idx].min > v {
            *value = intervals[idx].min;
        }
    } else {
        if intervals[idx].max < v {
            *value = intervals[idx].max;
        }
    }
    idx
}

/// Where `setWidth` takes a macro: a hard macro cluster, an empty or mismatched curve, a zero
/// area or a non-positive width is refused; below the curve and above it the macro clamps to the
/// end shape, and inside it keeps the snapped width and takes the area from the interval's far
/// corner.
pub open spec fn width_set(o: SoftMacro, curve: ShapeCurve, width: i32) -> SoftMacro {
    let ws = curve.width_intervals@;
    let hs = curve.height_intervals@;
    if width <= 0 || o.area == 0 || ws.len() != hs.len() || ws.len() == 0 || o.is_macro_cluster {
        o
    } else if width <= ws[0].min {
        SoftMacro { width: ws[0].min, height: hs[0].max, area: (ws[0].min * hs[0].max) as i64, ..o }
    } else if width >= ws[ws.len() - 1].max {
        SoftMacro {
            width: ws[ws.len() - 1].max,
            height: hs[hs.len() - 1].min,
            area: (ws[ws.len() - 1].max * hs[hs.len() - 1].min) as i64,
            ..o
        }
    } else {
        let idx = interval_index(ws, width, true) as int;
        let w = snapped(ws, width, true);
        let area = ws[idx].max * hs[idx].min;
        SoftMacro { width: w, height: quot(area, w as int) as i32, area: area as i64, ..o }
    }
}

/// `setWidth`: move along the shape curve to about this width, as [`width_set`] states.
pub fn set_width(macro_: &mut SoftMacro, curve: &ShapeCurve, width: i32)
    ensures
        *final(macro_) == width_set(*old(macro_), *curve, width),
{
    if width <= 0 || macro_.area == 0
        || curve.width_intervals.len() != curve.height_intervals.len()
        || curve.width_intervals.len() == 0 || macro_.is_macro_cluster {
        return;
    }
    let n = curve.width_intervals.len();
    let first_w = curve.width_intervals[0];
    let last_w = curve.width_intervals[n - 1];
    if width <= first_w.min {
        macro_.width = first_w.min;
        macro_.height = curve.height_intervals[0].max;
        macro_.area = wide_mul(macro_.width, macro_.height);
    } else if width >= last_w.max {
        macro_.width = last_w.max;
        macro_.height = curve.height_intervals[n - 1].min;
        macro_.area = wide_mul(macro_.width, macro_.height);
    } else {
        let mut w = width;
        let idx = find_interval_index(&curve.width_intervals, &mut w, true);
        let area = wide_mul(curve.width_intervals[idx].max, curve.height_intervals[idx].min);
        macro_.width = w;
        macro_.area = area;
        macro_.height = div_trunc(area, w as i64) as i32;
    }
}

/// Where `setHeight` takes a macro: the mirror of [`width_set`] over the non-increasing height
/// intervals; inside the curve a zero snapped height leaves the width as it was.
pub open spec fn height_set(o: SoftMacro, curve: ShapeCurve, height: i32) -> SoftMacro {
    let ws = curve.width_intervals@;
    let hs = curve.height_intervals@;
    if height <= 0 || o.area == 0 || ws.len() != hs.len() || ws.len() == 0 || o.is_macro_cluster {
        o
    } else if height >= hs[0].max {
        SoftMacro { height: hs[0].max, width: ws[0].min, area: (ws[0].min * hs[0].max) as i64, ..o }
    } else if height <= hs[hs.len() - 1].min {
        SoftMacro {
            height: hs[hs.len() - 1].min,
            width: ws[ws.len() - 1].max,
            area: (ws[ws.len() - 1].max * hs[hs.len() - 1].min) as i64,
            ..o
        }
    } else {
        let idx = interval_index(hs, height, false) as int;
        let h = snapped(hs, height, false);
        let area = ws[idx].max * hs[idx].min;
        if h != 0 {
            SoftMacro { height: h, width: quot(area, h as int) as i32, area: area as i64, ..o }
        } else {
            SoftMacro { height: h, area: area as i64, ..o }
        }
    }
}

/// `setHeight`, the mirror of [`set_width`], as [`height_set`] states.
pub fn set_height(macro_: &mut SoftMacro, curve: &ShapeCurve, height: i32)
    ensures
        *final(macro_) == height_set(*old(macro_), *curve, height),
{
    if height <= 0 || macro_.area == 0
        || curve.width_intervals.len() != curve.height_intervals.len()
        || curve.width_intervals.len() == 0 || macro_.is_macro_cluster {
        return;
    }
    let n = curve.height_intervals.len();
    let first_h = curve.height_intervals[0];
    let last_h = curve.height_intervals[n - 1];
    if height >= first_h.max {
        macro_.height = first_h.max;
        macro_.width = curve.width_intervals[0].min;
        macro_.area = wide_mul(macro_.width, macro_.height);
    } else if height <= last_h.min {
        macro_.height = last_h.min;
        macro_.width = curve.width_intervals[n - 1].max;
        macro_.area = wide_mul(macro_.width, macro_.height);
    } else {
        let mut h = height;
        let idx = find_interval_index(&curve.height_intervals, &mut h, false);
        let area = wide_mul(curve.width_intervals[idx].max, curve.height_intervals[idx].min);
        macro_.height = h;
        macro_.area = area;
        if h != 0 {
            macro_.width = div_trunc(area, h as i64) as i32;
        }
    }
}

/// The width a random resize takes inside an interval, for a draw of `units / 2^32`:
/// `min + draw * (max - min)` in single precision, each product and sum rounded once, then
/// truncated toward zero and saturated. Everything is scaled by 2^32 so it stays on integers.
pub open spec fn drawn_width(min: i32, max: i32, units: int) -> int {
    let span = nearest_single(max - min);
    let product = nearest_single(units * span);
    let sum = nearest_single(nearest_single(min as int) * 0x1_0000_0000 + product);
    saturate_i32(quot(sum, 0x1_0000_0000))
}

/// The curve can be drawn from: a height interval for every width interval, each width span
/// and each interval's area fit their types, and the interval count fits 32 bits.
pub open spec fn drawable(curve: ShapeCurve) -> bool {
    let ws = curve.width_intervals@;
    let hs = curve.height_intervals@;
    &&& hs.len() >= ws.len()
    &&& ws.len() <= u32::MAX
    &&& forall|i: int|
        0 <= i < ws.len() ==> i32::MIN <= #[trigger] ws[i].max - ws[i].min <= i32::MAX
}

/// What a random resize does to a macro, and the area it reports, for the interval index and the
/// draw units it is handed: the drawn width, the height that recovers the interval's area
/// `min width * max height` (zero for a zero width), and that area.
pub open spec fn resized(o: SoftMacro, curve: ShapeCurve, index: int, units: int) -> (SoftMacro, int) {
    let w = curve.width_intervals@[index];
    let h = curve.height_intervals@[index];
    let width = drawn_width(w.min, w.max, units) as i32;
    let area = w.min * h.max;
    let height = if width != 0 { quot(area, width as int) as i32 } else { 0i32 };
    (SoftMacro { width, height, ..o }, area)
}

/// Resize a soft macro at random along its curve: an interval by a uniform draw, then a width
/// inside it by a canonical draw, as [`resized`] states. A macro with an empty curve is left as
/// it is, draws nothing, and reports its own area.
pub fn resize_randomly(rng: &mut Mt19937, curve: &ShapeCurve, macro_: &mut SoftMacro) -> (r: i64)
    requires
        old(rng).wf(),
        drawable(*curve),
    ensures
        final(rng).wf(),
        final(rng)@.0 == old(rng)@.0,
        curve.width_intervals@.len() == 0 ==> {
            &&& *final(macro_) == *old(macro_)
            &&& final(rng)@ == old(rng)@
            &&& r == old(macro_).width * old(macro_).height
        },
        curve.width_intervals@.len() > 0 ==> {
            let (index, d) = uniform(old(rng)@.0, old(rng)@.1, curve.width_intervals@.len() as u32);
            let units = canonical_units(mt_output(old(rng)@.0, d));
            &&& final(rng)@.1 == d + 1
            &&& (*final(macro_), r as int) == resized(*old(macro_), *curve, index as int, units)
        },
{
    let n = curve.width_intervals.len();
    if n == 0 {
        let (w, h) = (macro_.width as i64, macro_.height as i64);
        assert(-0x4000_0000_0000_0000 <= w * h <= 0x4000_0000_0000_0000) by (nonlinear_arith)
            requires
                -0x8000_0000 <= w <= 0x7fff_ffff,
                -0x8000_0000 <= h <= 0x7fff_ffff,
        ;
        return w * h;
    }
    let index = uniform_int(rng, n as u32) as usize;
    let wi = curve.width_intervals[index];
    let hi = curve.height_intervals[index];
    let units = canonical_draw(rng);
    assert(i32::MIN <= wi.max - wi.min <= i32::MAX);
    let span = to_nearest_single((wi.max - wi.min) as i128);
    let u = units as i128;
    assert(-0x1_0000_0000_0000_0000 <= u * span <= 0x1_0000_0000_0000_0000) by (nonlinear_arith)
        requires
            0 <= u < 0x1_0000_0000,
            -0x1_0000_0000 <= span <= 0x1_0000_0000,
    ;
    let product = to_nearest_single(u * span);
    let base = to_nearest_single(wi.min as i128);
    let sum = to_nearest_single(base * 0x1_0000_0000 + product);
    let q: i128 = if sum >= 0 { sum / 0x1_0000_0000 } else { -((-sum) / 0x1_0000_0000) };
    assert(q == quot(sum as int, 0x1_0000_0000));
    let width: i32 = if q > i32::MAX as i128 {
        i32::MAX
    } else if q < i32::MIN as i128 {
        i32::MIN
    } else {
        q as i32
    };
    macro_.width = width;
    let (lo, hm) = (wi.min as i64, hi.max as i64);
    assert(-0x4000_0000_0000_0000 <= lo * hm <= 0x4000_0000_0000_0000) by (nonlinear_arith)
        requires
            -0x8000_0000 <= lo <= 0x7fff_ffff,
            -0x8000_0000 <= hm <= 0x7fff_ffff,
    ;
    let area = lo * hm;
    macro_.height = if width != 0 { div_trunc(area, width as i64) as i32 } else { 0 };
    area
}

/// A random resize's effect on the generator and the macro: nothing for an empty curve,
/// otherwise [`resized`] with the interval and the draw taken from the stream at `d`.
pub open spec fn random_resize(seed: u32, d: nat, o: SoftMacro, curve: ShapeCurve) -> (SoftMacro, nat) {
    if curve.width_intervals@.len() == 0 {
        (o, d)
    } else {
        let (index, d1) = uniform(seed, d, curve.width_intervals@.len() as u32);
        (resized(o, curve, index as int, canonical_units(mt_output(seed, d1))).0, d1 + 1)
    }
}

/// A macro's far edge on one axis: its right edge, or its top when `vertical`.
pub open spec fn far_edge(m: SoftMacro, vertical: bool) -> int {
    if vertical { m.y + m.height } else { m.x + m.width }
}

/// The nearest far edge strictly beyond `u` and strictly below `start` among the macros the
/// first `n` entries of `pos` name, or `start` when there is none.
pub open spec fn edge_beyond(ms: Seq<SoftMacro>, pos: Seq<usize>, n: int, vertical: bool, u: int, start: int) -> int
    decreases n,
{
    if n <= 0 {
        start
    } else {
        let acc = edge_beyond(ms, pos, n - 1, vertical, u, start);
        let e = far_edge(ms[pos[n - 1] as int], vertical);
        if e > u && e < acc { e } else { acc }
    }
}

/// The nearest far edge strictly short of `u` and strictly above `start` among the macros the
/// first `n` entries of `pos` name, or `start` when there is none.
pub open spec fn edge_short_of(ms: Seq<SoftMacro>, pos: Seq<usize>, n: int, vertical: bool, u: int, start: int) -> int
    decreases n,
{
    if n <= 0 {
        start
    } else {
        let acc = edge_short_of(ms, pos, n - 1, vertical, u, start);
        let e = far_edge(ms[pos[n - 1] as int], vertical);
        if e < u && e > acc { e } else { acc }
    }
}

/// The canonical draws below which a resize is random (0.4 in single precision), and at or
/// below which each of the first three options applies (0.25, 0.5, 0.75), scaled by 2^32.
pub open spec fn random_roll() -> int {
    1717986944
}

/// One resize step of the annealer, from the stream at `d`: the macro at a uniformly drawn
/// position is resized at random when it is a hard macro cluster, when it reaches the outline
/// (a far edge at or beyond it counts), or when a draw falls below 0.4; otherwise a second draw
/// picks one of four moves: widen to the nearest right edge beyond it (or the outline), narrow to
/// the nearest right edge inside it, heighten, or lower, the two shrinking moves only when such an
/// edge exists. The macros after the step, the stream position, and the index.
pub open spec fn one_resize(
    seed: u32,
    d: nat,
    ms: Seq<SoftMacro>,
    curves: Seq<ShapeCurve>,
    pos: Seq<usize>,
    ow: i32,
    oh: i32,
) -> (Seq<SoftMacro>, nat, int) {
    let (iu, d1) = uniform(seed, d, pos.len() as u32);
    let i = iu as int;
    let m = ms[i];
    let (lx, ly, ux, uy) = (m.x as int, m.y as int, m.x + m.width, m.y + m.height);
    if m.is_macro_cluster || ux >= ow || uy >= oh {
        let (r, d2) = random_resize(seed, d1, m, curves[i]);
        (ms.update(i, r), d2, i)
    } else if canonical_units(mt_output(seed, d1)) < random_roll() {
        let (r, d2) = random_resize(seed, d1 + 1, m, curves[i]);
        (ms.update(i, r), d2, i)
    } else {
        let option = canonical_units(mt_output(seed, d1 + 1));
        let d3 = d1 + 2;
        let n = pos.len() as int;
        if option <= 0x4000_0000 {
            let edge = edge_beyond(ms, pos, n, false, ux, ow as int);
            (ms.update(i, width_set(m, curves[i], (edge - lx) as i32)), d3, i)
        } else if option <= 0x8000_0000 {
            let edge = edge_short_of(ms, pos, n, false, ux, lx);
            if edge > lx {
                (ms.update(i, width_set(m, curves[i], (edge - lx) as i32)), d3, i)
            } else {
                (ms, d3, i)
            }
        } else if option <= 0xC000_0000 {
            let edge = edge_beyond(ms, pos, n, true, uy, oh as int);
            (ms.update(i, height_set(m, curves[i], (edge - ly) as i32)), d3, i)
        } else {
            let edge = edge_short_of(ms, pos, n, true, uy, ly);
            if edge > ly {
                (ms.update(i, height_set(m, curves[i], (edge - ly) as i32)), d3, i)
            } else {
                (ms, d3, i)
            }
        }
    }
}

/// What a resize step needs to hold: a macro and a curve for every sequence-pair entry (the
/// terminals and IO clusters may follow them), every position naming a macro, the curves the
/// draw can pick drawable, and every macro's far edges, and their distances and the outline's
/// from any macro's near edges, fitting 32 bits.
pub open spec fn resize_inputs_ok(ms: Seq<SoftMacro>, curves: Seq<ShapeCurve>, pos: Seq<usize>, ow: i32, oh: i32) -> bool {
    &&& 0 < pos.len() <= u32::MAX
    &&& pos.len() <= ms.len()
    &&& pos.len() <= curves.len()
    &&& forall|k: int| 0 <= k < pos.len() ==> #[trigger] pos[k] < ms.len()
    &&& forall|k: int| 0 <= k < pos.len() ==> drawable(#[trigger] curves[k])
    &&& forall|k: int|
        0 <= k < ms.len() ==> i32::MIN <= #[trigger] far_edge(ms[k], false) <= i32::MAX && i32::MIN
            <= far_edge(ms[k], true) <= i32::MAX
    &&& forall|a: int, b: int|
        0 <= a < ms.len() && 0 <= b < ms.len() ==> i32::MIN <= #[trigger] far_edge(ms[a], false) - #[trigger] ms[b].x
            <= i32::MAX && i32::MIN <= far_edge(ms[a], true) - ms[b].y <= i32::MAX
    &&& forall|b: int|
        0 <= b < ms.len() ==> i32::MIN <= ow - #[trigger] ms[b].x <= i32::MAX && i32::MIN <= oh - ms[b].y <= i32::MAX
}

fn edge_scan(macros: &Vec<SoftMacro>, sp: &SequencePair, vertical: bool, u: i32, start: i32, beyond: bool) -> (r: i32)
    requires
        forall|k: int| 0 <= k < sp.pos@.len() ==> #[trigger] sp.pos@[k] < macros@.len(),
        forall|k: int|
            0 <= k < macros@.len() ==> i32::MIN <= #[trigger] far_edge(macros@[k], false) <= i32::MAX && i32::MIN
                <= far_edge(macros@[k], true) <= i32::MAX,
    ensures
        beyond ==> r == edge_beyond(macros@, sp.pos@, sp.pos@.len() as int, vertical, u as int, start as int),
        !beyond ==> r == edge_short_of(macros@, sp.pos@, sp.pos@.len() as int, vertical, u as int, start as int),
        r == start || exists|k: int| 0 <= k < macros@.len() && r == far_edge(#[trigger] macros@[k], vertical),
{
    let mut edge = start;
    let mut k: usize = 0;
    while k < sp.pos.len()
        invariant
            k <= sp.pos@.len(),
            forall|q: int| 0 <= q < sp.pos@.len() ==> #[trigger] sp.pos@[q] < macros@.len(),
            forall|q: int|
                0 <= q < macros@.len() ==> i32::MIN <= #[trigger] far_edge(macros@[q], false) <= i32::MAX && i32::MIN
                    <= far_edge(macros@[q], true) <= i32::MAX,
            beyond ==> edge == edge_beyond(macros@, sp.pos@, k as int, vertical, u as int, start as int),
            !beyond ==> edge == edge_short_of(macros@, sp.pos@, k as int, vertical, u as int, start as int),
            edge == start || exists|q: int| 0 <= q < macros@.len() && edge == far_edge(#[trigger] macros@[q], vertical),
        decreases sp.pos@.len() - k,
    {
        let id = sp.pos[k];
        assert(id < macros@.len());
        let m = macros[id];
        assert(i32::MIN <= far_edge(macros@[id as int], false) <= i32::MAX && i32::MIN <= far_edge(macros@[id as int], true) <= i32::MAX);
        let e = if vertical { m.y + m.height } else { m.x + m.width };
        if beyond {
            if e > u && e < edge {
                edge = e;
            }
        } else {
            if e < u && e > edge {
                edge = e;
            }
        }
        k = k + 1;
    }
    edge
}

/// One resize step of the annealer, as [`one_resize`] states.
pub fn resize_one_cluster(
    rng: &mut Mt19937,
    macros: &mut Vec<SoftMacro>,
    curves: &[ShapeCurve],
    sp: &SequencePair,
    outline_width: i32,
    outline_height: i32,
) -> (r: usize)
    requires
        old(rng).wf(),
        resize_inputs_ok(old(macros)@, curves@, sp.pos@, outline_width, outline_height),
    ensures
        final(rng).wf(),
        final(rng)@.0 == old(rng)@.0,
        ({
            let (ms, d, i) = one_resize(
                old(rng)@.0,
                old(rng)@.1,
                old(macros)@,
                curves@,
                sp.pos@,
                outline_width,
                outline_height,
            );
            &&& final(macros)@ == ms
            &&& final(rng)@.1 == d
            &&& r == i
        }),
{
    let ghost seed = rng@.0;
    let ghost d0 = rng@.1;
    let ghost ms0 = macros@;
    let n = sp.len();
    let index = uniform_int(rng, n as u32) as usize;
    assert(index < n <= curves@.len());
    let m = macros[index];
    let curve = &curves[index];
    assert(drawable(curves@[index as int]));
    assert(i32::MIN <= far_edge(ms0[index as int], false) <= i32::MAX && i32::MIN <= far_edge(ms0[index as int], true) <= i32::MAX);
    let (lx, ly, ux, uy) = m.bbox();
    let mut target = m;
    if m.is_macro_cluster || ux >= outline_width || uy >= outline_height {
        resize_randomly(rng, curve, &mut target);
        macros.set(index, target);
        return index;
    }
    let roll = canonical_draw(rng);
    if roll < 1717986944 {
        resize_randomly(rng, curve, &mut target);
        macros.set(index, target);
        return index;
    }
    let option = canonical_draw(rng);
    if option <= 0x4000_0000 {
        let edge = edge_scan(macros, sp, false, ux, outline_width, true);
        proof {
            if edge != outline_width {
                let k = choose|k: int| 0 <= k < ms0.len() && edge == far_edge(#[trigger] ms0[k], false);
                assert(i32::MIN <= far_edge(ms0[k], false) - ms0[index as int].x <= i32::MAX);
            }
        }
        set_width(&mut target, curve, edge - lx);
        macros.set(index, target);
    } else if option <= 0x8000_0000 {
        let edge = edge_scan(macros, sp, false, ux, lx, false);
        proof {
            if edge != lx {
                let k = choose|k: int| 0 <= k < ms0.len() && edge == far_edge(#[trigger] ms0[k], false);
                assert(i32::MIN <= far_edge(ms0[k], false) - ms0[index as int].x <= i32::MAX);
            }
        }
        if edge > lx {
            set_width(&mut target, curve, edge - lx);
            macros.set(index, target);
        }
    } else if option <= 0xC000_0000 {
        let edge = edge_scan(macros, sp, true, uy, outline_height, true);
        proof {
            if edge != outline_height {
                let k = choose|k: int| 0 <= k < ms0.len() && edge == far_edge(#[trigger] ms0[k], true);
                assert(i32::MIN <= far_edge(ms0[k], false) - ms0[index as int].x <= i32::MAX);
                assert(i32::MIN <= far_edge(ms0[k], true) - ms0[index as int].y <= i32::MAX);
            }
        }
        set_height(&mut target, curve, edge - ly);
        macros.set(index, target);
    } else {
        let edge = edge_scan(macros, sp, true, uy, ly, false);
        proof {
            if edge != ly {
                let k = choose|k: int| 0 <= k < ms0.len() && edge == far_edge(#[trigger] ms0[k], true);
                assert(i32::MIN <= far_edge(ms0[k], false) - ms0[index as int].x <= i32::MAX);
                assert(i32::MIN <= far_edge(ms0[k], true) - ms0[index as int].y <= i32::MAX);
            }
        }
        if edge > ly {
            set_height(&mut target, curve, edge - ly);
            macros.set(index, target);
        }
    }
    index
}

} // verus!
