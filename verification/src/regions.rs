//! Where unconstrained IO pins may go: the die edges, minus what is blocked. Every region here
//! is a line, a rectangle with zero width or zero height lying on a die edge.

use crate::design::Rect;
use crate::halo::Boundary;
use vstd::prelude::*;

verus! {

/// The edge a region is taken to lie on: a zero-width region is `L` when it is at the left edge
/// and `R` otherwise; any other region is `B` when it is at the bottom edge and `T` otherwise.
pub open spec fn edge_of(die: Rect, region: Rect) -> Boundary {
    if region.x_max == region.x_min {
        if region.x_min == die.x_min { Boundary::L } else { Boundary::R }
    } else if region.y_min == die.y_min {
        Boundary::B
    } else {
        Boundary::T
    }
}

/// A line on a die edge, with the edge it lies on.
#[derive(Debug, Clone, Copy, PartialEq, Eq, Structural)]
pub struct BoundaryRegion {
    pub boundary: Boundary,
    pub line: Rect,
}

/// A region on a die edge that IO pins occupy, with how many pins it serves.
#[derive(Debug, Clone, Copy, PartialEq, Eq, Structural)]
pub struct IoRegion {
    pub region: BoundaryRegion,
    pub ios: i64,
}

/// Which edge a region lies on. Nothing checks that it lies on an edge at all.
pub fn boundary_of(die: &Rect, region: &Rect) -> (b: Boundary)
    ensures
        b == edge_of(*die, *region),
{
    if region.x_max == region.x_min {
        return if region.x_min == die.x_min { Boundary::L } else { Boundary::R };
    }
    if region.y_min == die.y_min {
        Boundary::B
    } else {
        Boundary::T
    }
}

/// The whole of one die edge, as a line.
pub open spec fn edge_rect(die: Rect, b: Boundary) -> Rect {
    match b {
        Boundary::L => Rect { x_max: die.x_min, ..die },
        Boundary::R => Rect { x_min: die.x_max, ..die },
        Boundary::T => Rect { y_min: die.y_max, ..die },
        Boundary::B => Rect { y_max: die.y_min, ..die },
    }
}

/// The whole of one die edge, as a line.
pub fn boundary_rect(die: &Rect, boundary: Boundary) -> (r: Rect)
    ensures
        r == edge_rect(*die, boundary),
{
    let mut r = *die;
    match boundary {
        Boundary::L => r.x_max = die.x_min,
        Boundary::R => r.x_min = die.x_max,
        Boundary::T => r.y_min = die.y_max,
        Boundary::B => r.y_max = die.y_min,
    }
    r
}

/// A piece of a line survives unless it collapsed to a single point.
pub open spec fn is_piece(r: Rect) -> bool {
    r.x_max != r.x_min || r.y_max != r.y_min
}

/// `base` with `overlay` cut out: the piece before it and the piece after it along the edge,
/// each kept when it is more than a point; nothing when the two lie on different edges.
pub open spec fn subtracted(die: Rect, base: Rect, overlay: Rect) -> Option<Seq<Rect>> {
    let b = edge_of(die, base);
    if b != edge_of(die, overlay) {
        None
    } else {
        let vertical = b == Boundary::L || b == Boundary::R;
        let a = if vertical { Rect { y_max: overlay.y_min, ..base } } else { Rect { x_max: overlay.x_min, ..base } };
        let c = if vertical { Rect { y_min: overlay.y_max, ..base } } else { Rect { x_min: overlay.x_max, ..base } };
        let first = if is_piece(a) { seq![a] } else { Seq::empty() };
        let second = if is_piece(c) { seq![c] } else { Seq::empty() };
        Some(first + second)
    }
}

/// `base` with `overlay` cut out of it, leaving the piece before and the piece after. `None`
/// when the two lie on different edges.
pub fn subtract_overlap(die: &Rect, base: &Rect, overlay: &Rect) -> (r: Option<Vec<Rect>>)
    ensures
        match r {
            Some(v) => subtracted(*die, *base, *overlay) == Some(v@),
            None => subtracted(*die, *base, *overlay) is None,
        },
{
    let boundary = boundary_of(die, base);
    if boundary != boundary_of(die, overlay) {
        return None;
    }
    let mut a = *base;
    let mut b = *base;
    if boundary.is_vertical() {
        a.y_max = overlay.y_min;
        b.y_min = overlay.y_max;
    } else {
        a.x_max = overlay.x_min;
        b.x_min = overlay.x_max;
    }
    let mut out: Vec<Rect> = Vec::new();
    if a.x_max != a.x_min || a.y_max != a.y_min {
        out.push(a);
    }
    if b.x_max != b.x_min || b.y_max != b.y_min {
        out.push(b);
    }
    proof {
        let ghost first = if is_piece(a) { seq![a] } else { Seq::<Rect>::empty() };
        let ghost second = if is_piece(b) { seq![b] } else { Seq::<Rect>::empty() };
        assert(out@ =~= first + second);
    }
    Some(out)
}

/// Whether `outer` wholly contains `inner`, inclusive on every side.
pub open spec fn rect_contains(outer: Rect, inner: Rect) -> bool {
    outer.x_min <= inner.x_min && outer.y_min <= inner.y_min && outer.x_max >= inner.x_max
        && outer.y_max >= inner.y_max
}

fn contains(outer: &Rect, inner: &Rect) -> (r: bool)
    ensures
        r == rect_contains(*outer, *inner),
{
    outer.x_min <= inner.x_min && outer.y_min <= inner.y_min && outer.x_max >= inner.x_max
        && outer.y_max >= inner.y_max
}

/// What one region becomes when a block is taken out: the pieces left, when the block lies
/// wholly inside it on the same edge, and the region unchanged otherwise.
pub open spec fn cut_one(die: Rect, region: Rect, block: Rect) -> Seq<Rect> {
    if rect_contains(region, block) && subtracted(die, region, block) is Some {
        subtracted(die, region, block)->Some_0
    } else {
        seq![region]
    }
}

/// A list of regions with one block taken out of each, in order.
pub open spec fn cut_regions(die: Rect, regions: Seq<Rect>, block: Rect) -> Seq<Rect>
    decreases regions.len(),
{
    if regions.len() == 0 {
        Seq::empty()
    } else {
        cut_regions(die, regions.drop_last(), block) + cut_one(die, regions.last(), block)
    }
}

/// The regions of edge `b` left after the first `n` blocks, each block on that edge cut out in
/// turn.
pub open spec fn edge_left(die: Rect, blocked: Seq<Rect>, b: Boundary, n: int) -> Seq<Rect>
    decreases n,
{
    if n <= 0 {
        seq![edge_rect(die, b)]
    } else {
        let prev = edge_left(die, blocked, b, n - 1);
        if edge_of(die, blocked[n - 1]) == b {
            cut_regions(die, prev, blocked[n - 1])
        } else {
            prev
        }
    }
}

/// What is left of every die edge, in the order `B, L, T, R`.
pub open spec fn available_of(die: Rect, blocked: Seq<Rect>) -> Seq<Rect> {
    let n = blocked.len() as int;
    edge_left(die, blocked, Boundary::B, n) + edge_left(die, blocked, Boundary::L, n) + edge_left(
        die,
        blocked,
        Boundary::T,
        n,
    ) + edge_left(die, blocked, Boundary::R, n)
}

fn cut_all(die: &Rect, regions: &Vec<Rect>, block: &Rect) -> (r: Vec<Rect>)
    ensures
        r@ == cut_regions(*die, regions@, *block),
{
    let mut next: Vec<Rect> = Vec::new();
    let mut i: usize = 0;
    while i < regions.len()
        invariant
            i <= regions@.len(),
            next@ == cut_regions(*die, regions@.take(i as int), *block),
        decreases regions@.len() - i,
    {
        let region = regions[i];
        proof {
            assert(regions@.take(i + 1).drop_last() =~= regions@.take(i as int));
        }
        let mut handled = false;
        if contains(&region, block) {
            match subtract_overlap(die, &region, block) {
                Some(pieces) => {
                    let mut p = pieces;
                    next.append(&mut p);
                    handled = true;
                },
                None => {},
            }
        }
        if !handled {
            next.push(region);
            proof {
                assert(next@ =~= cut_regions(*die, regions@.take(i as int), *block) + seq![region]);
            }
        }
        i = i + 1;
    }
    proof {
        assert(regions@.take(regions@.len() as int) =~= regions@);
    }
    next
}

fn edge_regions(die: &Rect, blocked: &[Rect], boundary: Boundary) -> (r: Vec<Rect>)
    ensures
        r@ == edge_left(*die, blocked@, boundary, blocked@.len() as int),
{
    let mut regions: Vec<Rect> = Vec::new();
    regions.push(boundary_rect(die, boundary));
    proof {
        assert(regions@ =~= seq![edge_rect(*die, boundary)]);
    }
    let mut k: usize = 0;
    while k < blocked.len()
        invariant
            k <= blocked@.len(),
            regions@ == edge_left(*die, blocked@, boundary, k as int),
        decreases blocked@.len() - k,
    {
        let block = blocked[k];
        if boundary_of(die, &block) == boundary {
            regions = cut_all(die, &regions, &block);
        }
        k = k + 1;
    }
    regions
}

/// Each die edge, minus the blocked regions on it, in the order `B, L, T, R`. A block is cut
/// out only of a region that wholly contains it; one that merely overlaps is left alone.
pub fn available_regions(die: &Rect, blocked: &[Rect]) -> (r: Vec<Rect>)
    ensures
        r@ == available_of(*die, blocked@),
{
    let mut out = edge_regions(die, blocked, Boundary::B);
    let mut l = edge_regions(die, blocked, Boundary::L);
    out.append(&mut l);
    let mut t = edge_regions(die, blocked, Boundary::T);
    out.append(&mut t);
    let mut r = edge_regions(die, blocked, Boundary::R);
    out.append(&mut r);
    out
}

/// With nothing blocked, each die edge is available whole.
pub proof fn lemma_nothing_blocked_leaves_whole_edges(die: Rect)
    ensures
        available_of(die, Seq::<Rect>::empty()) == seq![
            edge_rect(die, Boundary::B),
            edge_rect(die, Boundary::L),
            edge_rect(die, Boundary::T),
            edge_rect(die, Boundary::R),
        ],
{
    assert(available_of(die, Seq::<Rect>::empty()) =~= seq![
        edge_rect(die, Boundary::B),
        edge_rect(die, Boundary::L),
        edge_rect(die, Boundary::T),
        edge_rect(die, Boundary::R),
    ]);
}

} // verus!
