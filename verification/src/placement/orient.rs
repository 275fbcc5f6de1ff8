//! Orientation: the eight database orientations, where a pin lands in each, how a macro is
//! flipped, and how the flip pass groups macros into columns and rows.

use crate::arith::{div_trunc, quot};
use crate::halo::Orient;
use crate::placement::blockages::Bbox;
use vstd::prelude::*;

verus! {

/// How the orientation pass may flip macros.
#[derive(Debug, Clone, Copy, PartialEq, Eq, Structural)]
pub enum OrientationStrategy {
    /// Every unfixed macro on its own.
    Single,
    /// Whole columns and whole rows of a macro cluster, never one macro alone.
    ByCluster,
}

/// A full halo flips each macro alone; a pin-aware halo flips whole columns and rows, so that
/// no region of a cluster is left unreachable.
pub fn orientation_strategy(use_full_halo: bool) -> (r: OrientationStrategy)
    ensures
        r == if use_full_halo { OrientationStrategy::Single } else { OrientationStrategy::ByCluster },
{
    if use_full_halo {
        OrientationStrategy::Single
    } else {
        OrientationStrategy::ByCluster
    }
}

/// The keys of a grouping: strictly ascending, each taken by some entry, and every entry's
/// key among them.
pub open spec fn ascending_keys(keys: Seq<i32>, entries: Seq<(usize, i32)>) -> bool {
    &&& forall|a: int, b: int| 0 <= a < b < keys.len() ==> keys[a] < keys[b]
    &&& forall|i: int| 0 <= i < entries.len() ==> keys.contains(#[trigger] entries[i].1)
    &&& forall|k: int| 0 <= k < keys.len() ==> key_taken(entries, #[trigger] keys[k])
}

/// Some entry has this key.
pub open spec fn key_taken(entries: Seq<(usize, i32)>, key: i32) -> bool {
    exists|i: int| 0 <= i < entries.len() && #[trigger] entries[i].1 == key
}

/// The ids, among the first `n` entries, whose key is `key`, in entry order.
pub open spec fn ids_with_key(entries: Seq<(usize, i32)>, key: i32, n: int) -> Seq<usize>
    decreases n,
{
    if n <= 0 {
        Seq::empty()
    } else {
        let prev = ids_with_key(entries, key, n - 1);
        if entries[n - 1].1 == key { prev.push(entries[n - 1].0) } else { prev }
    }
}

/// A grouping of the entries by key: one group per key, ascending, each holding that key's
/// ids in entry order.
pub open spec fn grouped_by_key(groups: Seq<Vec<usize>>, entries: Seq<(usize, i32)>) -> bool {
    exists|keys: Seq<i32>|
        #![trigger ascending_keys(keys, entries)]
        ascending_keys(keys, entries) && keys.len() == groups.len() && forall|k: int|
            0 <= k < keys.len() ==> (#[trigger] groups[k])@ == ids_with_key(entries, keys[k], entries.len() as int)
}

/// The position of the first key at least `v`.
fn first_at_least(keys: &Vec<i32>, v: i32) -> (r: usize)
    ensures
        r <= keys@.len(),
        forall|j: int| 0 <= j < r ==> keys@[j] < v,
        r < keys@.len() ==> keys@[r as int] >= v,
{
    let mut i: usize = 0;
    while i < keys.len()
        invariant
            i <= keys@.len(),
            forall|j: int| 0 <= j < i ==> keys@[j] < v,
        decreases keys@.len() - i,
    {
        if keys[i] >= v {
            return i;
        }
        i = i + 1;
    }
    i
}

/// Entries grouped by key: the keys ascending, the ids of each in entry order.
fn group_by_key(entries: &Vec<(usize, i32)>) -> (r: Vec<Vec<usize>>)
    ensures
        grouped_by_key(r@, entries@),
{
    let mut keys: Vec<i32> = Vec::new();
    let mut i: usize = 0;
    while i < entries.len()
        invariant
            i <= entries@.len(),
            forall|a: int, b: int| 0 <= a < b < keys@.len() ==> keys@[a] < keys@[b],
            forall|j: int| 0 <= j < i ==> keys@.contains(#[trigger] entries@[j].1),
            forall|k: int| 0 <= k < keys@.len() ==> key_taken(entries@.take(i as int), #[trigger] keys@[k]),
        decreases entries@.len() - i,
    {
        let v = entries[i].1;
        let pos = first_at_least(&keys, v);
        let present = pos < keys.len() && keys[pos] == v;
        if !present {
            let ghost old_keys = keys@;
            keys.insert(pos, v);
            proof {
                assert(keys@ == old_keys.insert(pos as int, v));
                assert forall|a: int, b: int| 0 <= a < b < keys@.len() implies keys@[a] < keys@[b] by {
                    if b < pos {
                    } else if b == pos {
                        assert(keys@[a] == old_keys[a]);
                    } else if a < pos {
                        assert(keys@[b] == old_keys[b - 1]);
                        if pos < old_keys.len() {
                            assert(old_keys[pos as int] >= v);
                            assert(old_keys[pos as int] != v);
                        }
                        if b - 1 > pos {
                            assert(old_keys[pos as int] < old_keys[b - 1]);
                        }
                    } else if a == pos {
                        assert(old_keys[pos as int] >= v);
                        assert(old_keys[pos as int] != v);
                        if b - 1 > pos {
                            assert(old_keys[pos as int] < old_keys[b - 1]);
                        }
                    } else {
                        assert(old_keys[a - 1] < old_keys[b - 1]);
                    }
                }
                assert forall|j: int| 0 <= j < i + 1 implies keys@.contains(#[trigger] entries@[j].1) by {
                    if j < i {
                        let w = choose|w: int| 0 <= w < old_keys.len() && old_keys[w] == entries@[j].1;
                        if w < pos {
                            assert(keys@[w] == old_keys[w]);
                        } else {
                            assert(keys@[w + 1] == old_keys[w]);
                        }
                    } else {
                        assert(keys@[pos as int] == v);
                    }
                }
                assert forall|k: int| 0 <= k < keys@.len() implies key_taken(entries@.take(i + 1), #[trigger] keys@[k]) by {
                    let t = entries@.take(i + 1);
                    if k == pos {
                        assert(t[i as int].1 == keys@[k]);
                    } else {
                        let kk = if k < pos { k } else { k - 1 };
                        assert(keys@[k] == old_keys[kk]);
                        assert(key_taken(entries@.take(i as int), old_keys[kk]));
                        let j = choose|j: int| 0 <= j < i && #[trigger] entries@.take(i as int)[j].1 == old_keys[kk];
                        assert(t[j].1 == keys@[k]);
                    }
                }
            }
        } else {
            proof {
                assert forall|j: int| 0 <= j < i + 1 implies keys@.contains(#[trigger] entries@[j].1) by {
                    if j == i {
                        assert(keys@[pos as int] == v);
                    }
                }
                assert forall|k: int| 0 <= k < keys@.len() implies key_taken(entries@.take(i + 1), #[trigger] keys@[k]) by {
                    assert(key_taken(entries@.take(i as int), keys@[k]));
                    let j = choose|j: int| 0 <= j < i && #[trigger] entries@.take(i as int)[j].1 == keys@[k];
                    assert(entries@.take(i + 1)[j].1 == keys@[k]);
                }
            }
        }
        i = i + 1;
    }
    proof {
        assert(entries@.take(i as int) =~= entries@);
        assert(ascending_keys(keys@, entries@));
    }
    let mut groups: Vec<Vec<usize>> = Vec::new();
    let mut k: usize = 0;
    while k < keys.len()
        invariant
            k <= keys@.len(),
            groups@.len() == k,
            ascending_keys(keys@, entries@),
            forall|q: int| 0 <= q < k ==> (#[trigger] groups@[q])@ == ids_with_key(entries@, keys@[q], entries@.len() as int),
        decreases keys@.len() - k,
    {
        let key = keys[k];
        let mut ids: Vec<usize> = Vec::new();
        let mut j: usize = 0;
        while j < entries.len()
            invariant
                j <= entries@.len(),
                ids@ == ids_with_key(entries@, key, j as int),
            decreases entries@.len() - j,
        {
            if entries[j].1 == key {
                ids.push(entries[j].0);
            }
            j = j + 1;
        }
        groups.push(ids);
        k = k + 1;
    }
    groups
}

/// The columns and rows of a cluster's macros, keyed by their real x and y: each macro
/// belongs to one column and one row, the groups ascend by coordinate, and each lists its
/// macros in the order given.
pub fn orientation_groups(macros: &[(usize, (i32, i32))]) -> (r: (Vec<Vec<usize>>, Vec<Vec<usize>>))
    ensures
        grouped_by_key(r.0@, macros@.map_values(|m: (usize, (i32, i32))| (m.0, m.1.0))),
        grouped_by_key(r.1@, macros@.map_values(|m: (usize, (i32, i32))| (m.0, m.1.1))),
{
    let mut xs: Vec<(usize, i32)> = Vec::new();
    let mut ys: Vec<(usize, i32)> = Vec::new();
    let mut i: usize = 0;
    while i < macros.len()
        invariant
            i <= macros@.len(),
            xs@ == macros@.map_values(|m: (usize, (i32, i32))| (m.0, m.1.0)).take(i as int),
            ys@ == macros@.map_values(|m: (usize, (i32, i32))| (m.0, m.1.1)).take(i as int),
        decreases macros@.len() - i,
    {
        let (id, (x, y)) = macros[i];
        xs.push((id, x));
        ys.push((id, y));
        proof {
            assert(xs@ =~= macros@.map_values(|m: (usize, (i32, i32))| (m.0, m.1.0)).take(i + 1));
            assert(ys@ =~= macros@.map_values(|m: (usize, (i32, i32))| (m.0, m.1.1)).take(i + 1));
        }
        i = i + 1;
    }
    proof {
        assert(xs@ =~= macros@.map_values(|m: (usize, (i32, i32))| (m.0, m.1.0)));
        assert(ys@ =~= macros@.map_values(|m: (usize, (i32, i32))| (m.0, m.1.1)));
    }
    (group_by_key(&xs), group_by_key(&ys))
}

/// The database's eight orientations. Unlike the halo's orientation, it can express the
/// rotated ones, which a pad placed at `W` needs.
#[derive(Debug, Clone, Copy, PartialEq, Eq, Structural)]
pub enum DbOrient {
    R0,
    R90,
    R180,
    R270,
    MY,
    MYR90,
    MX,
    MXR90,
}

/// Two texts are the same characters.
pub(crate) fn text_is(a: &str, b: &str) -> (r: bool)
    ensures
        r == (a@ == b@),
{
    a.to_owned() == b.to_owned()
}

/// The orientation a DEF name spells.
pub open spec fn def_orient(name: Seq<char>) -> Option<DbOrient> {
    if name == "N"@ {
        Some(DbOrient::R0)
    } else if name == "W"@ {
        Some(DbOrient::R90)
    } else if name == "S"@ {
        Some(DbOrient::R180)
    } else if name == "E"@ {
        Some(DbOrient::R270)
    } else if name == "FN"@ {
        Some(DbOrient::MY)
    } else if name == "FW"@ {
        Some(DbOrient::MXR90)
    } else if name == "FS"@ {
        Some(DbOrient::MX)
    } else if name == "FE"@ {
        Some(DbOrient::MYR90)
    } else {
        None
    }
}

impl DbOrient {
    /// The DEF spelling: `FS` is `MX` and `FN` is `MY`, the flipped names naming the axis the
    /// cell was mirrored across. Any other name is no orientation.
    pub fn from_def(name: &str) -> (r: Option<DbOrient>)
        ensures
            r == def_orient(name@),
    {
        if text_is(name, "N") {
            Some(DbOrient::R0)
        } else if text_is(name, "W") {
            Some(DbOrient::R90)
        } else if text_is(name, "S") {
            Some(DbOrient::R180)
        } else if text_is(name, "E") {
            Some(DbOrient::R270)
        } else if text_is(name, "FN") {
            Some(DbOrient::MY)
        } else if text_is(name, "FW") {
            Some(DbOrient::MXR90)
        } else if text_is(name, "FS") {
            Some(DbOrient::MX)
        } else if text_is(name, "FE") {
            Some(DbOrient::MYR90)
        } else {
            None
        }
    }
}

/// A point turned about the origin: `rotate90` is `(x, y) -> (-y, x)`, and in the two
/// combined orientations the mirror comes before the rotation.
pub open spec fn oriented(x: int, y: int, o: DbOrient) -> (int, int) {
    match o {
        DbOrient::R0 => (x, y),
        DbOrient::R90 => (-y, x),
        DbOrient::R180 => (-x, -y),
        DbOrient::R270 => (y, -x),
        DbOrient::MY => (-x, y),
        DbOrient::MYR90 => (-y, -x),
        DbOrient::MX => (x, -y),
        DbOrient::MXR90 => (y, x),
    }
}

/// Within the 32-bit range.
pub open spec fn in_i32(v: int) -> bool {
    i32::MIN <= v <= i32::MAX
}

/// A point oriented about the origin and then translated.
pub open spec fn transformed(p: (i32, i32), o: DbOrient, off: (i32, i32)) -> (int, int) {
    let q = oriented(p.0 as int, p.1 as int, o);
    (q.0 + off.0, q.1 + off.1)
}

/// The transform of the point stays within 32 bits.
pub open spec fn transform_fits(p: (i32, i32), o: DbOrient, off: (i32, i32)) -> bool {
    &&& p.0 > i32::MIN
    &&& p.1 > i32::MIN
    &&& in_i32(transformed(p, o, off).0)
    &&& in_i32(transformed(p, o, off).1)
}

/// Orient a point about the master's origin, then translate it by the instance's offset.
pub fn transform_point(p: (i32, i32), orient: DbOrient, offset: (i32, i32)) -> (r: (i32, i32))
    requires
        transform_fits(p, orient, offset),
    ensures
        r.0 == transformed(p, orient, offset).0,
        r.1 == transformed(p, orient, offset).1,
{
    let (x, y) = p;
    let (x, y) = match orient {
        DbOrient::R0 => (x, y),
        DbOrient::R90 => (-y, x),
        DbOrient::R180 => (-x, -y),
        DbOrient::R270 => (y, -x),
        DbOrient::MY => (-x, y),
        DbOrient::MYR90 => (-y, -x),
        DbOrient::MX => (x, -y),
        DbOrient::MXR90 => (y, x),
    };
    (x + offset.0, y + offset.1)
}

/// The smaller of two.
pub open spec fn min_of(a: int, b: int) -> int {
    if a <= b { a } else { b }
}

/// The larger of two.
pub open spec fn max_of(a: int, b: int) -> int {
    if a >= b { a } else { b }
}

/// Both corners of the rectangle transform within 32 bits.
pub open spec fn rect_fits(r: Bbox, o: DbOrient, off: (i32, i32)) -> bool {
    transform_fits((r.0, r.1), o, off) && transform_fits((r.2, r.3), o, off)
}

/// A rectangle with both corners transformed and the result put back in order.
pub open spec fn transformed_rect(r: Bbox, o: DbOrient, off: (i32, i32)) -> Bbox {
    let ll = transformed((r.0, r.1), o, off);
    let ur = transformed((r.2, r.3), o, off);
    (min_of(ll.0, ur.0) as i32, min_of(ll.1, ur.1) as i32, max_of(ll.0, ur.0) as i32, max_of(ll.1, ur.1) as i32)
}

/// Transform both corners independently and re-normalise, so a mirrored box keeps a
/// positive extent.
pub fn transform_rect(r: Bbox, orient: DbOrient, offset: (i32, i32)) -> (t: Bbox)
    requires
        rect_fits(r, orient, offset),
    ensures
        t == transformed_rect(r, orient, offset),
        t.0 <= t.2,
        t.1 <= t.3,
{
    let ll = transform_point((r.0, r.1), orient, offset);
    let ur = transform_point((r.2, r.3), orient, offset);
    (
        if ll.0 <= ur.0 { ll.0 } else { ur.0 },
        if ll.1 <= ur.1 { ll.1 } else { ur.1 },
        if ll.0 >= ur.0 { ll.0 } else { ur.0 },
        if ll.1 >= ur.1 { ll.1 } else { ur.1 },
    )
}

/// Every box of a terminal transforms within 32 bits.
pub open spec fn boxes_fit(boxes: Seq<Bbox>, o: DbOrient, off: (i32, i32)) -> bool {
    forall|k: int| 0 <= k < boxes.len() ==> rect_fits(#[trigger] boxes[k], o, off)
}

/// The sum of each transformed box's two x coordinates, over the first `n` boxes.
pub open spec fn corner_sum_x(boxes: Seq<Bbox>, o: DbOrient, off: (i32, i32), n: int) -> int
    decreases n,
{
    if n <= 0 {
        0
    } else {
        let r = transformed_rect(boxes[n - 1], o, off);
        corner_sum_x(boxes, o, off, n - 1) + r.0 + r.2
    }
}

/// The sum of each transformed box's two y coordinates, over the first `n` boxes.
pub open spec fn corner_sum_y(boxes: Seq<Bbox>, o: DbOrient, off: (i32, i32), n: int) -> int
    decreases n,
{
    if n <= 0 {
        0
    } else {
        let r = transformed_rect(boxes[n - 1], o, off);
        corner_sum_y(boxes, o, off, n - 1) + r.1 + r.3
    }
}

/// A 32-bit truncated quotient of a sum that averages 32-bit values.
proof fn lemma_average_fits(sum: int, n: int)
    requires
        n > 0,
        n * i32::MIN <= sum <= n * i32::MAX,
    ensures
        in_i32(quot(sum, n)),
{
    if sum >= 0 {
        assert(sum / n <= i32::MAX) by (nonlinear_arith)
            requires
                n > 0,
                0 <= sum <= n * i32::MAX,
        ;
        assert(sum / n >= 0) by (nonlinear_arith)
            requires
                n > 0,
                0 <= sum,
        ;
    } else {
        assert((-sum) / n <= 0x8000_0000) by (nonlinear_arith)
            requires
                n > 0,
                0 < -sum <= n * 0x8000_0000,
        ;
        assert((-sum) / n >= 0) by (nonlinear_arith)
            requires
                n > 0,
                0 < -sum,
        ;
    }
}

/// The average position of a terminal: every geometry box adds both its corners, and the
/// sums over twice the number of boxes are truncated toward zero. None when the terminal has
/// no geometry.
pub fn iterm_avg_xy(boxes: &[Bbox], orient: DbOrient, offset: (i32, i32)) -> (r: Option<(i32, i32)>)
    requires
        boxes@.len() < 0x10_0000,
        boxes_fit(boxes@, orient, offset),
    ensures
        boxes@.len() == 0 ==> r is None,
        boxes@.len() > 0 ==> r == Some((
            quot(corner_sum_x(boxes@, orient, offset, boxes@.len() as int), 2 * (boxes@.len() as int)) as i32,
            quot(corner_sum_y(boxes@, orient, offset, boxes@.len() as int), 2 * (boxes@.len() as int)) as i32,
        )),
{
    if boxes.len() == 0 {
        return None;
    }
    let mut xx: i64 = 0;
    let mut yy: i64 = 0;
    let mut nn: i64 = 0;
    let mut k: usize = 0;
    while k < boxes.len()
        invariant
            k <= boxes@.len() < 0x10_0000,
            boxes_fit(boxes@, orient, offset),
            nn == 2 * k,
            xx == corner_sum_x(boxes@, orient, offset, k as int),
            yy == corner_sum_y(boxes@, orient, offset, k as int),
            nn * i32::MIN <= xx <= nn * i32::MAX,
            nn * i32::MIN <= yy <= nn * i32::MAX,
        decreases boxes@.len() - k,
    {
        proof {
            assert(rect_fits(boxes@[k as int], orient, offset));
        }
        let r = transform_rect(boxes[k], orient, offset);
        xx = xx + r.0 as i64 + r.2 as i64;
        yy = yy + r.1 as i64 + r.3 as i64;
        nn = nn + 2;
        k = k + 1;
    }
    proof {
        lemma_average_fits(xx as int, nn as int);
        lemma_average_fits(yy as int, nn as int);
    }
    let ax = div_trunc(xx, nn);
    let ay = div_trunc(yy, nn);
    Some((ax as i32, ay as i32))
}

/// The first `n` boxes, transformed and merged; None before the first.
pub open spec fn merged_rect(boxes: Seq<Bbox>, o: DbOrient, off: (i32, i32), n: int) -> Option<Bbox>
    decreases n,
{
    if n <= 0 {
        None
    } else {
        let r = transformed_rect(boxes[n - 1], o, off);
        match merged_rect(boxes, o, off, n - 1) {
            None => Some(r),
            Some(m) => Some((
                min_of(m.0 as int, r.0 as int) as i32,
                min_of(m.1 as int, r.1 as int) as i32,
                max_of(m.2 as int, r.2 as int) as i32,
                max_of(m.3 as int, r.3 as int) as i32,
            )),
        }
    }
}

/// The bounding box of a terminal's transformed geometry; None when it has none.
pub fn iterm_bbox(boxes: &[Bbox], orient: DbOrient, offset: (i32, i32)) -> (r: Option<Bbox>)
    requires
        boxes_fit(boxes@, orient, offset),
    ensures
        r == merged_rect(boxes@, orient, offset, boxes@.len() as int),
{
    let mut merged: Option<Bbox> = None;
    let mut k: usize = 0;
    while k < boxes.len()
        invariant
            k <= boxes@.len(),
            boxes_fit(boxes@, orient, offset),
            merged == merged_rect(boxes@, orient, offset, k as int),
        decreases boxes@.len() - k,
    {
        proof {
            assert(rect_fits(boxes@[k as int], orient, offset));
        }
        let r = transform_rect(boxes[k], orient, offset);
        merged = match merged {
            None => Some(r),
            Some(m) => Some((
                if m.0 <= r.0 { m.0 } else { r.0 },
                if m.1 <= r.1 { m.1 } else { r.1 },
                if m.2 >= r.2 { m.2 } else { r.2 },
                if m.3 >= r.3 { m.3 } else { r.3 },
            )),
        };
        k = k + 1;
    }
    merged
}

/// A mirror of the halo's orientations: a vertical flip mirrors about the vertical axis and
/// so moves the macro horizontally; the rotations are outside what placement produces and
/// flip to themselves.
pub open spec fn flipped(o: Orient, vertical: bool) -> Orient {
    if vertical {
        match o {
            Orient::R0 => Orient::My,
            Orient::My => Orient::R0,
            Orient::R180 => Orient::Mx,
            Orient::Mx => Orient::R180,
            Orient::Other => Orient::Other,
        }
    } else {
        match o {
            Orient::R0 => Orient::Mx,
            Orient::Mx => Orient::R0,
            Orient::R180 => Orient::My,
            Orient::My => Orient::R180,
            Orient::Other => Orient::Other,
        }
    }
}

/// How an orientation maps the master's axes, as the signs it puts on x and on y: R0 keeps
/// both, MX mirrors about the x axis and so negates y, MY mirrors about the y axis and so
/// negates x, R180 negates both.
pub open spec fn axis_signs(o: Orient) -> (int, int) {
    match o {
        Orient::R0 => (1, 1),
        Orient::Mx => (1, -1),
        Orient::My => (-1, 1),
        Orient::R180 => (-1, -1),
        Orient::Other => (0, 0),
    }
}

/// The orientation after a flip.
pub fn flip_orientation(orient: Orient, is_vertical_flip: bool) -> (r: Orient)
    ensures
        r == flipped(orient, is_vertical_flip),
        orient != Orient::Other ==> r != orient && axis_signs(r) == if is_vertical_flip {
            (-axis_signs(orient).0, axis_signs(orient).1)
        } else {
            (axis_signs(orient).0, -axis_signs(orient).1)
        },
{
    if is_vertical_flip {
        match orient {
            Orient::R0 => Orient::My,
            Orient::My => Orient::R0,
            Orient::R180 => Orient::Mx,
            Orient::Mx => Orient::R180,
            Orient::Other => Orient::Other,
        }
    } else {
        match orient {
            Orient::R0 => Orient::Mx,
            Orient::Mx => Orient::R0,
            Orient::R180 => Orient::My,
            Orient::My => Orient::R180,
            Orient::Other => Orient::Other,
        }
    }
}

/// A flipped macro: the new orientation, and the real location written back afterwards so
/// the mirror does not displace it.
pub fn flip_real_macro(orient: Orient, real_location: (i32, i32), is_vertical_flip: bool) -> (r: (Orient, (i32, i32)))
    ensures
        r == (flipped(orient, is_vertical_flip), real_location),
{
    (flip_orientation(orient, is_vertical_flip), real_location)
}

/// A mirror of the eight orientations: `flipY` for a vertical flip, `flipX` otherwise.
pub open spec fn db_flipped(o: DbOrient, vertical: bool) -> DbOrient {
    if vertical {
        match o {
            DbOrient::R0 => DbOrient::MY,
            DbOrient::MY => DbOrient::R0,
            DbOrient::R180 => DbOrient::MX,
            DbOrient::MX => DbOrient::R180,
            DbOrient::R90 => DbOrient::MXR90,
            DbOrient::MXR90 => DbOrient::R90,
            DbOrient::R270 => DbOrient::MYR90,
            DbOrient::MYR90 => DbOrient::R270,
        }
    } else {
        match o {
            DbOrient::R0 => DbOrient::MX,
            DbOrient::MX => DbOrient::R0,
            DbOrient::R180 => DbOrient::MY,
            DbOrient::MY => DbOrient::R180,
            DbOrient::R90 => DbOrient::MYR90,
            DbOrient::MYR90 => DbOrient::R90,
            DbOrient::R270 => DbOrient::MXR90,
            DbOrient::MXR90 => DbOrient::R270,
        }
    }
}

/// A flip over the eight database orientations.
pub fn flip_db_orientation(orient: DbOrient, is_vertical_flip: bool) -> (r: DbOrient)
    ensures
        r == db_flipped(orient, is_vertical_flip),
{
    if is_vertical_flip {
        match orient {
            DbOrient::R0 => DbOrient::MY,
            DbOrient::MY => DbOrient::R0,
            DbOrient::R180 => DbOrient::MX,
            DbOrient::MX => DbOrient::R180,
            DbOrient::R90 => DbOrient::MXR90,
            DbOrient::MXR90 => DbOrient::R90,
            DbOrient::R270 => DbOrient::MYR90,
            DbOrient::MYR90 => DbOrient::R270,
        }
    } else {
        match orient {
            DbOrient::R0 => DbOrient::MX,
            DbOrient::MX => DbOrient::R0,
            DbOrient::R180 => DbOrient::MY,
            DbOrient::MY => DbOrient::R180,
            DbOrient::R90 => DbOrient::MYR90,
            DbOrient::MYR90 => DbOrient::R90,
            DbOrient::R270 => DbOrient::MXR90,
            DbOrient::MXR90 => DbOrient::R270,
        }
    }
}

/// Where the instance origin sits for a haloed corner: the halo comes off the left and
/// bottom, but off the right at `R180` and `MY` and off the top at `R180` and `MX`.
pub open spec fn real_origin_of(haloed: (i32, i32), halo: Bbox, o: DbOrient) -> (int, int) {
    let x = if o == DbOrient::R180 || o == DbOrient::MY { haloed.0 + halo.2 } else { haloed.0 + halo.0 };
    let y = if o == DbOrient::R180 || o == DbOrient::MX { haloed.1 + halo.3 } else { haloed.1 + halo.1 };
    (x, y)
}

/// A macro's instance origin, from its haloed corner, its halo `(left, bottom, right, top)`
/// and its orientation.
pub fn real_origin(haloed: (i32, i32), halo: Bbox, orient: DbOrient) -> (r: (i32, i32))
    requires
        in_i32(real_origin_of(haloed, halo, orient).0),
        in_i32(real_origin_of(haloed, halo, orient).1),
    ensures
        r.0 == real_origin_of(haloed, halo, orient).0,
        r.1 == real_origin_of(haloed, halo, orient).1,
{
    let (left, bottom, right, top) = halo;
    let x = match orient {
        DbOrient::R180 | DbOrient::MY => haloed.0 + right,
        _ => haloed.0 + left,
    };
    let y = match orient {
        DbOrient::R180 | DbOrient::MX => haloed.1 + top,
        _ => haloed.1 + bottom,
    };
    (x, y)
}

/// The transform offset that puts an instance's box at a given lower-left corner: the
/// corner less the lower-left of the master box `(0, 0, w, h)` transformed in place.
pub fn instance_offset(bbox_min: (i32, i32), master: (i32, i32), orient: DbOrient) -> (r: (i32, i32))
    requires
        rect_fits((0, 0, master.0, master.1), orient, (0, 0)),
        in_i32(bbox_min.0 - transformed_rect((0, 0, master.0, master.1), orient, (0, 0)).0),
        in_i32(bbox_min.1 - transformed_rect((0, 0, master.0, master.1), orient, (0, 0)).1),
    ensures
        r.0 == bbox_min.0 - transformed_rect((0, 0, master.0, master.1), orient, (0, 0)).0,
        r.1 == bbox_min.1 - transformed_rect((0, 0, master.0, master.1), orient, (0, 0)).1,
{
    let t = transform_rect((0, 0, master.0, master.1), orient, (0, 0));
    (bbox_min.0 - t.0, bbox_min.1 - t.1)
}

/// One terminal on a net, as the wirelength of a flip sees it.
#[derive(Debug, Clone, Copy, PartialEq, Eq)]
pub enum NetTerminal {
    /// An instance pin, at its average position; one without geometry is skipped.
    Instance(Option<(i32, i32)>),
    /// A fixed block terminal, at its box's centre.
    FixedPin((i32, i32)),
    /// An unfixed block terminal, at the nearest point of its region.
    UnplacedPin((i32, i32)),
}

/// The point a terminal contributes, if any.
pub open spec fn terminal_point(t: NetTerminal) -> Option<(i32, i32)> {
    match t {
        NetTerminal::Instance(p) => p,
        NetTerminal::FixedPin(p) => Some(p),
        NetTerminal::UnplacedPin(p) => Some(p),
    }
}

/// The box spanned by the points of the first `n` terminals; None before the first point.
pub open spec fn terminal_box(ts: Seq<NetTerminal>, n: int) -> Option<Bbox>
    decreases n,
{
    if n <= 0 {
        None
    } else {
        let prev = terminal_box(ts, n - 1);
        match terminal_point(ts[n - 1]) {
            None => prev,
            Some(p) => match prev {
                None => Some((p.0, p.1, p.0, p.1)),
                Some(m) => Some((
                    min_of(m.0 as int, p.0 as int) as i32,
                    min_of(m.1 as int, p.1 as int) as i32,
                    max_of(m.2 as int, p.0 as int) as i32,
                    max_of(m.3 as int, p.1 as int) as i32,
                )),
            },
        }
    }
}

/// The bounding box of a net's terminals, each a point; None when no terminal has one.
pub fn net_terminal_bbox(terminals: &[NetTerminal]) -> (r: Option<Bbox>)
    ensures
        r == terminal_box(terminals@, terminals@.len() as int),
{
    let mut merged: Option<Bbox> = None;
    let mut k: usize = 0;
    while k < terminals.len()
        invariant
            k <= terminals@.len(),
            merged == terminal_box(terminals@, k as int),
        decreases terminals@.len() - k,
    {
        let point = match terminals[k] {
            NetTerminal::Instance(p) => p,
            NetTerminal::FixedPin(p) => Some(p),
            NetTerminal::UnplacedPin(p) => Some(p),
        };
        match point {
            None => {},
            Some(p) => {
                merged = match merged {
                    None => Some((p.0, p.1, p.0, p.1)),
                    Some(m) => Some((
                        if m.0 <= p.0 { m.0 } else { p.0 },
                        if m.1 <= p.1 { m.1 } else { p.1 },
                        if m.2 >= p.0 { m.2 } else { p.0 },
                        if m.3 >= p.1 { m.3 } else { p.1 },
                    )),
                };
            },
        }
        k = k + 1;
    }
    merged
}

/// One hard macro, as the orientation pass sees it: the cluster it was mapped to, its haloed
/// corner, which the trace prints, and its real corner, which the grouping keys on.
#[derive(Debug, PartialEq, Eq)]
pub struct FlipMacro {
    pub name: String,
    pub cluster_name: String,
    pub location: (i32, i32),
    pub real_location: (i32, i32),
}

/// One cluster the orientation pass visits, its macros as indices into the flat list.
#[derive(Debug, PartialEq, Eq)]
pub struct FlipCluster {
    pub id: i32,
    pub name: String,
    pub macros: Vec<usize>,
}

/// One terminal on a net, as the flip wirelength positions it.
#[derive(Debug, PartialEq, Eq)]
pub enum FlipNetTerm {
    /// An instance pin: the instance's index and its terminal's name.
    Instance { inst: usize, term: String },
    /// A block port, by its index into the pin list.
    Port(usize),
}

/// What a block port contributes once its kind is known: fixed or not, and its box, used
/// only when it is fixed.
#[derive(Debug, Clone, Copy, PartialEq, Eq)]
pub struct FlipPort {
    pub is_fixed: bool,
    pub bbox: Bbox,
}

/// Flipping a macro twice about the same axis gives back its orientation, over the halo's
/// orientations and over the database's eight.
pub proof fn lemma_flip_twice_is_identity(o: Orient, d: DbOrient, vertical: bool)
    ensures
        flipped(flipped(o, vertical), vertical) == o,
        db_flipped(db_flipped(d, vertical), vertical) == d,
{
}

/// A flip mirrors exactly one axis of a placed macro: a vertical flip (about the vertical axis)
/// negates x, a horizontal flip (about the horizontal axis) negates y, and the other axis is
/// kept. So a flip always changes the orientation, the two flips differ, and the horizontal
/// flip of R180 is MY while its vertical flip is MX.
pub proof fn lemma_flip_mirrors_one_axis(o: Orient, vertical: bool)
    requires
        o != Orient::Other,
    ensures
        flipped(o, vertical) != Orient::Other,
        axis_signs(flipped(o, vertical)) == if vertical {
            (-axis_signs(o).0, axis_signs(o).1)
        } else {
            (axis_signs(o).0, -axis_signs(o).1)
        },
        flipped(o, vertical) != o,
        flipped(o, true) != flipped(o, false),
{
}

/// Over the database's eight orientations, a flip mirrors the placed master: a vertical flip
/// negates every oriented point's x, a horizontal flip its y, the other coordinate kept; so
/// a flip never leaves the orientation as it was.
pub proof fn lemma_db_flip_mirrors_one_axis(o: DbOrient, vertical: bool, x: int, y: int)
    ensures
        oriented(x, y, db_flipped(o, vertical)) == if vertical {
            (-oriented(x, y, o).0, oriented(x, y, o).1)
        } else {
            (oriented(x, y, o).0, -oriented(x, y, o).1)
        },
        db_flipped(o, vertical) != o,
{
}

/// The instance offset puts the transformed master box's lower-left corner exactly at the
/// requested corner, in every orientation.
pub proof fn lemma_offset_places_box(bbox_min: (i32, i32), master: (i32, i32), o: DbOrient)
    requires
        rect_fits((0, 0, master.0, master.1), o, (0, 0)),
        in_i32(bbox_min.0 - transformed_rect((0, 0, master.0, master.1), o, (0, 0)).0),
        in_i32(bbox_min.1 - transformed_rect((0, 0, master.0, master.1), o, (0, 0)).1),
        in_i32(bbox_min.0 + transformed_rect((0, 0, master.0, master.1), o, (0, 0)).2
            - transformed_rect((0, 0, master.0, master.1), o, (0, 0)).0),
        in_i32(bbox_min.1 + transformed_rect((0, 0, master.0, master.1), o, (0, 0)).3
            - transformed_rect((0, 0, master.0, master.1), o, (0, 0)).1),
    ensures
        ({
            let t = transformed_rect((0, 0, master.0, master.1), o, (0, 0));
            let off = ((bbox_min.0 - t.0) as i32, (bbox_min.1 - t.1) as i32);
            rect_fits((0, 0, master.0, master.1), o, off)
                && transformed_rect((0, 0, master.0, master.1), o, off).0 == bbox_min.0
                && transformed_rect((0, 0, master.0, master.1), o, off).1 == bbox_min.1
        }),
{
}

} // verus!
