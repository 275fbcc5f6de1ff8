//! One parent's placement problem, assembled from its children: the macro list in id order,
//! what a utilization does to each macro, the sequence-pair count, the outline and the fixed
//! boxes the fixed-macro penalty scores against.

use crate::anneal::SoftMacro;
use crate::cluster::{std_cells_of, Cluster, ClusterType};
use crate::placement::assembly::{appended_macros, assemble, assembly_walk, AssemblyChild, NamedId, names_of};
use crate::placement::blockages::{
    area_kind_of, array_count, blockage_macro, extents_fit, kind_of, max_i32, min_i32,
    single_array_single_std_cell_cluster, soft_macros_for_blockages, AreaKind, Bbox,
};
use crate::shaping::Tiling;
use vstd::prelude::*;

verus! {

/// What the utilization needs to know about one macro's cluster.
#[derive(Debug, Clone, PartialEq)]
pub struct ReshapeInput {
    pub kind: Option<AreaKind>,
    /// The cluster's whole area.
    pub cluster_area: i64,
    /// The standard-cell part only, which a mixed cluster inflates.
    pub cluster_std_cell_area: i64,
    pub num_std_cell: i32,
    /// The cluster's tilings, as extents.
    pub tilings: Vec<(i32, i32)>,
}

/// One parent's placement problem. The float weights, the nets and the macro attributes are
/// attached beside it by the caller.
#[derive(Debug)]
pub struct ParentProblem {
    /// The macro list in id order.
    pub macros: Vec<SoftMacro>,
    /// One entry per macro.
    pub reshape: Vec<ReshapeInput>,
    /// `0..number_of_sequence_pair_macros` is what the annealer permutes.
    pub number_of_sequence_pair_macros: usize,
    pub fences: Vec<(usize, Bbox)>,
    pub guides: Vec<(usize, Bbox)>,
    /// Name to macro id, in insertion order.
    pub id_of: Vec<(String, usize)>,
    pub outline_origin: (i32, i32),
    /// The outline's width and height.
    pub outline: (i32, i32),
    /// The boxes of the fixed macros the sequence pair holds.
    pub fixed_bboxes: Vec<Bbox>,
    /// Exactly one macro array and one standard-cell cluster: centralization sticks.
    pub force_centralization: bool,
    /// Each macro's name, in id order; empty for a blockage.
    pub names: Vec<String>,
}

/// The soft macro a cluster reports when it has none: everything zero.
pub open spec fn zero_macro() -> SoftMacro {
    SoftMacro { x: 0, y: 0, width: 0, height: 0, fixed: false, area: 0, is_macro_cluster: false }
}

/// A cluster's own soft macro, or the zero one.
pub open spec fn own_macro(c: Cluster) -> SoftMacro {
    match c.soft_macro {
        Some(m) => m,
        None => zero_macro(),
    }
}

/// A cluster's whole area.
pub open spec fn whole_area(c: Cluster) -> int {
    c.metrics.std_cell_area + c.metrics.macro_area
}

/// The length of `lo..hi`, or nothing when it is empty.
pub open spec fn span(lo: i32, hi: i32) -> int {
    if hi - lo > 0 { hi - lo } else { 0 }
}

/// The soft macro a child contributes: a fixed macro clipped to the outline and rebased on its
/// corner; an IO cluster rebased, unclipped and arealess; anything else at the origin in its
/// first tiling, or shapeless with its whole area when it has none.
pub open spec fn child_macro(c: Cluster, kind: AreaKind, outline: Bbox) -> SoftMacro {
    let own = own_macro(c);
    if kind == AreaKind::FixedMacro {
        let x0 = max_i32(own.x, outline.0);
        let y0 = max_i32(own.y, outline.1);
        let w = span(x0, min_i32((own.x + own.width) as i32, outline.2));
        let h = span(y0, min_i32((own.y + own.height) as i32, outline.3));
        SoftMacro {
            x: (x0 - outline.0) as i32,
            y: (y0 - outline.1) as i32,
            width: w as i32,
            height: h as i32,
            fixed: true,
            area: (w * h) as i64,
            is_macro_cluster: true,
        }
    } else if kind == AreaKind::IoCluster {
        SoftMacro {
            x: (own.x - outline.0) as i32,
            y: (own.y - outline.1) as i32,
            width: own.width,
            height: own.height,
            fixed: true,
            area: 0,
            is_macro_cluster: false,
        }
    } else if c.tilings@.len() > 0 {
        let t = c.tilings@[0];
        SoftMacro {
            x: 0,
            y: 0,
            width: t.width as i32,
            height: t.height as i32,
            fixed: false,
            area: (t.width * t.height) as i64,
            is_macro_cluster: kind == AreaKind::HardMacroCluster,
        }
    } else {
        SoftMacro {
            x: 0,
            y: 0,
            width: 0,
            height: 0,
            fixed: false,
            area: whole_area(c) as i64,
            is_macro_cluster: kind == AreaKind::HardMacroCluster,
        }
    }
}

/// The sums a child's soft macro and its reshape entry form fit their types.
pub open spec fn child_fits(c: Cluster, outline: Bbox) -> bool {
    let own = own_macro(c);
    let kind = kind_of(c);
    &&& i64::MIN <= whole_area(c) <= i64::MAX
    &&& kind == AreaKind::FixedMacro ==> {
        let x0 = max_i32(own.x, outline.0);
        let y0 = max_i32(own.y, outline.1);
        &&& i32::MIN <= own.x + own.width <= i32::MAX
        &&& i32::MIN <= own.y + own.height <= i32::MAX
        &&& x0 - outline.0 <= i32::MAX
        &&& y0 - outline.1 <= i32::MAX
        &&& i32::MIN <= min_i32((own.x + own.width) as i32, outline.2) - x0
        &&& i32::MIN <= min_i32((own.y + own.height) as i32, outline.3) - y0
    }
    &&& kind == AreaKind::IoCluster ==> {
        &&& i32::MIN <= own.x - outline.0 <= i32::MAX
        &&& i32::MIN <= own.y - outline.1 <= i32::MAX
    }
    &&& (kind != AreaKind::FixedMacro && kind != AreaKind::IoCluster && c.tilings@.len() > 0) ==> i64::MIN
        <= c.tilings@[0].width * c.tilings@[0].height <= i64::MAX
}

/// The soft macro one child contributes to its parent's annealer.
pub fn child_soft_macro(child: &Cluster, kind: AreaKind, outline: Bbox) -> (r: SoftMacro)
    requires
        kind == kind_of(*child),
        child_fits(*child, outline),
        outline.2 - outline.0 <= i32::MAX,
        outline.3 - outline.1 <= i32::MAX,
    ensures
        r == child_macro(*child, kind, outline),
{
    let own = match child.soft_macro {
        Some(m) => m,
        None => SoftMacro { x: 0, y: 0, width: 0, height: 0, fixed: false, area: 0, is_macro_cluster: false },
    };
    match kind {
        AreaKind::FixedMacro => {
            let x0 = if own.x >= outline.0 { own.x } else { outline.0 };
            let y0 = if own.y >= outline.1 { own.y } else { outline.1 };
            let right = own.x + own.width;
            let top = own.y + own.height;
            let x1 = if right <= outline.2 { right } else { outline.2 };
            let y1 = if top <= outline.3 { top } else { outline.3 };
            let dx = x1 - x0;
            let dy = y1 - y0;
            let w = if dx > 0 { dx } else { 0 };
            let h = if dy > 0 { dy } else { 0 };
            assert(0 <= w as i64 * h as i64 <= 0x4000_0000_0000_0000) by (nonlinear_arith)
                requires 0 <= w <= 0x7fff_ffff, 0 <= h <= 0x7fff_ffff;
            SoftMacro {
                x: x0 - outline.0,
                y: y0 - outline.1,
                width: w,
                height: h,
                fixed: true,
                area: w as i64 * h as i64,
                is_macro_cluster: true,
            }
        },
        AreaKind::IoCluster => SoftMacro {
            x: own.x - outline.0,
            y: own.y - outline.1,
            width: own.width,
            height: own.height,
            fixed: true,
            area: 0,
            is_macro_cluster: false,
        },
        _ => {
            let hard = match kind {
                AreaKind::HardMacroCluster => true,
                _ => false,
            };
            if child.tilings.len() > 0 {
                let t: Tiling = child.tilings[0];
                SoftMacro {
                    x: 0,
                    y: 0,
                    width: #[verifier::truncate] (t.width as i32),
                    height: #[verifier::truncate] (t.height as i32),
                    fixed: false,
                    area: t.area(),
                    is_macro_cluster: hard,
                }
            } else {
                SoftMacro { x: 0, y: 0, width: 0, height: 0, fixed: false, area: child.area(), is_macro_cluster: hard }
            }
        },
    }
}

/// The first child at or after `k` with the given name, if any.
pub open spec fn first_named(children: Seq<Cluster>, name: Seq<char>, k: int) -> Option<int>
    decreases children.len() - k,
{
    if k < 0 || k >= children.len() {
        None
    } else if children[k].name@ == name {
        Some(k)
    } else {
        first_named(children, name, k + 1)
    }
}

/// A tiling's extents, as the annealer reads them.
pub open spec fn tiling_dims(tilings: Seq<Tiling>) -> Seq<(i32, i32)> {
    tilings.map_values(|t: Tiling| (t.width as i32, t.height as i32))
}

/// The reshape entry describes the cluster: its kind, its areas, its standard-cell count and
/// its tilings.
pub open spec fn describes(r: ReshapeInput, c: Cluster, kind: AreaKind) -> bool {
    &&& r.kind == Some(kind)
    &&& r.cluster_area == whole_area(c)
    &&& r.cluster_std_cell_area == c.metrics.std_cell_area
    &&& r.num_std_cell == std_cells_of(c)
    &&& r.tilings@ == tiling_dims(c.tilings@)
}

/// The reshape entry of a macro with nothing to reshape: the given kind, all else empty.
pub open spec fn empty_reshape(r: ReshapeInput, kind: Option<AreaKind>) -> bool {
    &&& r.kind == kind
    &&& r.cluster_area == 0
    &&& r.cluster_std_cell_area == 0
    &&& r.num_std_cell == 0
    &&& r.tilings@.len() == 0
}

/// The reshape entry for the child named `name`: the first child of that name describes it.
pub fn reshape_input_for(parent: &Cluster, name: &str, kind: AreaKind) -> (r: ReshapeInput)
    requires
        forall|k: int| 0 <= k < parent.children@.len() ==> i64::MIN <= #[trigger] whole_area(parent.children@[k]) <= i64::MAX,
    ensures
        match first_named(parent.children@, name@, 0) {
            Some(j) => describes(r, parent.children@[j], kind),
            None => empty_reshape(r, Some(kind)),
        },
{
    let key = String::from_str(name);
    let mut i: usize = 0;
    while i < parent.children.len()
        invariant
            i <= parent.children@.len(),
            key@ == name@,
            forall|k: int| 0 <= k < parent.children@.len() ==> i64::MIN <= #[trigger] whole_area(parent.children@[k]) <= i64::MAX,
            first_named(parent.children@, name@, 0) == first_named(parent.children@, name@, i as int),
        decreases parent.children@.len() - i,
    {
        let child = &parent.children[i];
        assert(i64::MIN <= whole_area(parent.children@[i as int]) <= i64::MAX);
        if child.name == key {
            let mut tilings: Vec<(i32, i32)> = Vec::new();
            let mut t: usize = 0;
            while t < child.tilings.len()
                invariant
                    t <= child.tilings@.len(),
                    tilings@ == tiling_dims(child.tilings@.take(t as int)),
                decreases child.tilings@.len() - t,
            {
                let tl: Tiling = child.tilings[t];
                tilings.push((#[verifier::truncate] (tl.width as i32), #[verifier::truncate] (tl.height as i32)));
                proof {
                    assert(tiling_dims(child.tilings@.take(t + 1)) =~= tiling_dims(child.tilings@.take(t as int)).push(
                        (tl.width as i32, tl.height as i32),
                    ));
                }
                t = t + 1;
            }
            proof {
                assert(child.tilings@.take(t as int) =~= child.tilings@);
            }
            return ReshapeInput {
                kind: Some(kind),
                cluster_area: child.area(),
                cluster_std_cell_area: child.std_cell_area(),
                num_std_cell: child.num_std_cell(),
                tilings,
            };
        }
        i = i + 1;
    }
    ReshapeInput { kind: Some(kind), cluster_area: 0, cluster_std_cell_area: 0, num_std_cell: 0, tilings: Vec::new() }
}

/// The indices of the first `n` children that are not IO clusters, in order.
pub open spec fn placed_first(kinds: Seq<AreaKind>, n: int) -> Seq<int>
    decreases n,
{
    if n <= 0 {
        Seq::empty()
    } else if kinds[n - 1] == AreaKind::IoCluster {
        placed_first(kinds, n - 1)
    } else {
        placed_first(kinds, n - 1).push(n - 1)
    }
}

/// The indices of the first `n` children that are IO clusters, in order.
pub open spec fn held_back(kinds: Seq<AreaKind>, n: int) -> Seq<int>
    decreases n,
{
    if n <= 0 {
        Seq::empty()
    } else if kinds[n - 1] == AreaKind::IoCluster {
        held_back(kinds, n - 1).push(n - 1)
    } else {
        held_back(kinds, n - 1)
    }
}

/// The children in macro-id order: those the sequence pair moves, then the IO clusters.
pub open spec fn child_order(kinds: Seq<AreaKind>) -> Seq<int> {
    placed_first(kinds, kinds.len() as int) + held_back(kinds, kinds.len() as int)
}

/// The assembly walk places exactly the children that are not IO clusters, in order, and
/// holds back exactly the IO clusters.
pub proof fn lemma_walk_order(base: Seq<SoftMacro>, entries: Seq<AssemblyChild>, outline: Bbox, n: int)
    requires
        0 <= n <= entries.len(),
    ensures
        ({
            let kinds = entries.map_values(|e: AssemblyChild| e.kind);
            let w = assembly_walk(base, entries, outline, n);
            &&& w.0 == base + placed_first(kinds, n).map_values(|k: int| entries[k].macro_)
            &&& w.4 == held_back(kinds, n)
        }),
    decreases n,
{
    let kinds = entries.map_values(|e: AssemblyChild| e.kind);
    if n > 0 {
        lemma_walk_order(base, entries, outline, n - 1);
        let prev = placed_first(kinds, n - 1).map_values(|k: int| entries[k].macro_);
        if kinds[n - 1] != AreaKind::IoCluster {
            assert(placed_first(kinds, n).map_values(|k: int| entries[k].macro_) =~= prev.push(entries[n - 1].macro_));
            assert(base + prev.push(entries[n - 1].macro_) =~= (base + prev).push(entries[n - 1].macro_));
        }
    } else {
        assert(base + Seq::<SoftMacro>::empty() =~= base);
    }
}

/// The cluster type and array flag the collapse test reads off a reshape entry: IO clusters
/// and mixed clusters answer mixed, fixed macros and macro clusters answer hard macro; a
/// terminal `t` answers mixed only when it has a size, which marks a cluster of unplaced IO
/// pins; a blockage has no cluster.
pub open spec fn entry_of(r: ReshapeInput, terminals: Seq<(String, SoftMacro)>, t: int) -> (Option<ClusterType>, bool) {
    let ct = match r.kind {
        Some(AreaKind::Blockage) => None,
        Some(AreaKind::IoCluster) => Some(ClusterType::Mixed),
        Some(AreaKind::FixedMacro) => Some(ClusterType::HardMacro),
        Some(AreaKind::HardMacroCluster) => Some(ClusterType::HardMacro),
        Some(AreaKind::StdCellCluster) => Some(ClusterType::StdCell),
        Some(AreaKind::MixedCluster) => Some(ClusterType::Mixed),
        None => if 0 <= t < terminals.len() && (terminals[t].1.width > 0 || terminals[t].1.height > 0) {
            Some(ClusterType::Mixed)
        } else {
            None
        },
    };
    (ct, r.tilings@.len() > 1)
}

/// Every reshape entry's type and array flag, the terminals counted from the end.
pub open spec fn entries_of(reshape: Seq<ReshapeInput>, terminals: Seq<(String, SoftMacro)>) -> Seq<(Option<ClusterType>, bool)> {
    Seq::new(reshape.len(), |id: int| entry_of(reshape[id], terminals, id - (reshape.len() - terminals.len())))
}

/// A soft macro's box.
pub open spec fn box_of(m: SoftMacro) -> Bbox {
    (m.x, m.y, (m.x + m.width) as i32, (m.y + m.height) as i32)
}

/// A soft macro is fixed.
pub open spec fn is_fixed(m: SoftMacro) -> bool {
    m.fixed
}

/// The boxes of the fixed macros among the first `n`, in order.
pub open spec fn fixed_boxes(macros: Seq<SoftMacro>, n: int) -> Seq<Bbox> {
    macros.take(n).filter(|m: SoftMacro| is_fixed(m)).map_values(|m: SoftMacro| box_of(m))
}

/// Each id's name after the first `n` bindings: the last binding of an id wins, an unbound id
/// stays empty.
pub open spec fn names_upto(id_of: Seq<NamedId>, len: nat, n: int) -> Seq<Seq<char>>
    decreases n,
{
    if n <= 0 {
        Seq::new(len, |i: int| Seq::<char>::empty())
    } else {
        let prev = names_upto(id_of, len, n - 1);
        let (name, id) = id_of[n - 1];
        if (id as int) < len { prev.update(id as int, name) } else { prev }
    }
}

/// The child as the assembly reads it: its kind, its soft macro, its fence and its guide.
pub open spec fn child_entry(c: Cluster, outline: Bbox, fence: Option<Bbox>, guide: Option<Bbox>) -> AssemblyChild {
    AssemblyChild { name: c.name, kind: kind_of(c), macro_: child_macro(c, kind_of(c), outline), fence, guide }
}

/// Every child as the assembly reads it, in order.
pub open spec fn child_entries(
    children: Seq<Cluster>,
    outline: Bbox,
    fences: Seq<Option<Bbox>>,
    guides: Seq<Option<Bbox>>,
) -> Seq<AssemblyChild> {
    Seq::new(children.len(), |k: int| child_entry(children[k], outline, fences[k], guides[k]))
}

/// The children's kinds, in order.
pub open spec fn kinds_of(children: Seq<Cluster>) -> Seq<AreaKind> {
    children.map_values(|c: Cluster| kind_of(c))
}

/// The inputs fit what the assembly computes: the outline's extents, the blockages' extents,
/// each child's macro and areas, and the macro count.
pub open spec fn parent_fits(
    parent: Cluster,
    outline: Bbox,
    blockages: Seq<Bbox>,
    fences: Seq<Option<Bbox>>,
    guides: Seq<Option<Bbox>>,
    terminals: Seq<(String, SoftMacro)>,
) -> bool {
    &&& i32::MIN <= outline.2 - outline.0 <= i32::MAX
    &&& i32::MIN <= outline.3 - outline.1 <= i32::MAX
    &&& extents_fit(blockages)
    &&& forall|k: int| 0 <= k < parent.children@.len() ==> #[trigger] child_fits(parent.children@[k], outline)
    &&& fences.len() == parent.children@.len()
    &&& guides.len() == parent.children@.len()
    &&& blockages.len() + parent.children@.len() + terminals.len() <= usize::MAX
}

/// Build one parent's placement problem from its children. The blockages come first as fixed
/// macros; then each child that is not an IO cluster, in order, which the sequence pair moves;
/// then the IO clusters and the fixed terminals. Each macro gets one reshape entry in the same
/// order. The fixed boxes are those of the fixed macros the sequence pair holds.
pub fn build_parent_problem(
    parent: &Cluster,
    outline: Bbox,
    blockages: &[Bbox],
    fences: &[Option<Bbox>],
    guides: &[Option<Bbox>],
    terminals: &[(String, SoftMacro)],
) -> (r: ParentProblem)
    requires
        parent_fits(*parent, outline, blockages@, fences@, guides@, terminals@),
    ensures
        ({
            let cs = parent.children@;
            let kinds = kinds_of(cs);
            let order = child_order(kinds);
            let placed = placed_first(kinds, cs.len() as int);
            let nb = blockages@.len();
            let entries = child_entries(cs, outline, fences@, guides@);
            let walked = assembly_walk(blockages@.map_values(|b: Bbox| blockage_macro(b)), entries, outline, cs.len() as int);
            &&& r.macros@ == blockages@.map_values(|b: Bbox| blockage_macro(b))
                + order.map_values(|k: int| child_macro(cs[k], kinds[k], outline))
                + terminals@.map_values(|t: (String, SoftMacro)| t.1)
            &&& r.macros@.len() == nb + cs.len() + terminals@.len()
            &&& r.reshape@.len() == r.macros@.len()
            &&& r.number_of_sequence_pair_macros == nb + placed.len()
            &&& forall|b: int| 0 <= b < nb ==> #[trigger] empty_reshape(r.reshape@[b], Some(AreaKind::Blockage))
            &&& forall|j: int|
                0 <= j < order.len() ==> match #[trigger] first_named(cs, cs[order[j]].name@, 0) {
                    Some(f) => describes(r.reshape@[nb + j], cs[f], kinds[order[j]]),
                    None => empty_reshape(r.reshape@[nb + j], Some(kinds[order[j]])),
                }
            &&& forall|t: int|
                nb + cs.len() <= t < r.reshape@.len() ==> #[trigger] empty_reshape(r.reshape@[t], None)
            &&& r.fences@ == walked.2
            &&& r.guides@ == walked.3
            &&& r.outline_origin == (outline.0, outline.1)
            &&& r.outline == ((outline.2 - outline.0) as i32, (outline.3 - outline.1) as i32)
            &&& r.fixed_bboxes@ == fixed_boxes(r.macros@, r.number_of_sequence_pair_macros as int)
            &&& r.force_centralization == (array_count(
                entries_of(r.reshape@, terminals@),
                r.reshape@.len() as int,
            ) == Some((1int, 1int)))
            &&& r.names@.map_values(|s: String| s@) == names_upto(names_of(r.id_of@), r.macros@.len(), r.id_of@.len() as int)
        }),
{
    let ghost cs = parent.children@;
    let ghost kinds = kinds_of(cs);
    let blockage_macros = soft_macros_for_blockages(blockages);
    let mut reshape: Vec<ReshapeInput> = Vec::new();
    let mut b: usize = 0;
    while b < blockage_macros.len()
        invariant
            b <= blockage_macros@.len(),
            reshape@.len() == b,
            forall|q: int| 0 <= q < b ==> #[trigger] empty_reshape(reshape@[q], Some(AreaKind::Blockage)),
        decreases blockage_macros@.len() - b,
    {
        reshape.push(
            ReshapeInput {
                kind: Some(AreaKind::Blockage),
                cluster_area: 0,
                cluster_std_cell_area: 0,
                num_std_cell: 0,
                tilings: Vec::new(),
            },
        );
        b = b + 1;
    }
    let ghost entries = child_entries(cs, outline, fences@, guides@);
    let mut children: Vec<AssemblyChild> = Vec::new();
    let mut k: usize = 0;
    while k < parent.children.len()
        invariant
            k <= cs.len(),
            cs == parent.children@,
            parent_fits(*parent, outline, blockages@, fences@, guides@, terminals@),
            entries == child_entries(cs, outline, fences@, guides@),
            children@ == entries.take(k as int),
        decreases cs.len() - k,
    {
        let child = &parent.children[k];
        let kind = area_kind_of(child);
        assert(child_fits(cs[k as int], outline));
        let macro_ = child_soft_macro(child, kind, outline);
        children.push(AssemblyChild { name: child.name.clone(), kind, macro_, fence: fences[k], guide: guides[k] });
        proof {
            assert(children@ =~= entries.take(k + 1));
        }
        k = k + 1;
    }
    proof {
        assert(children@ =~= entries);
        assert(entries.map_values(|e: AssemblyChild| e.kind) =~= kinds);
    }
    let ghost nb = blockages@.len();
    let mut c: usize = 0;
    while c < children.len()
        invariant
            c <= children@.len(),
            children@ == entries,
            entries == child_entries(cs, outline, fences@, guides@),
            entries.len() == cs.len(),
            cs == parent.children@,
            kinds == kinds_of(cs),
            nb == blockages@.len(),
            parent_fits(*parent, outline, blockages@, fences@, guides@, terminals@),
            reshape@.len() == nb + placed_first(kinds, c as int).len(),
            forall|q: int| 0 <= q < nb ==> #[trigger] empty_reshape(reshape@[q], Some(AreaKind::Blockage)),
            forall|j: int|
                0 <= j < placed_first(kinds, c as int).len() ==> match #[trigger] first_named(
                    cs,
                    cs[placed_first(kinds, c as int)[j]].name@,
                    0,
                ) {
                    Some(f) => describes(reshape@[nb + j], cs[f], kinds[placed_first(kinds, c as int)[j]]),
                    None => empty_reshape(reshape@[nb + j], Some(kinds[placed_first(kinds, c as int)[j]])),
                },
        decreases children@.len() - c,
    {
        let ghost before = reshape@;
        let kind = children[c].kind;
        match kind {
            AreaKind::IoCluster => {},
            _ => {
                proof {
                    assert forall|q: int| 0 <= q < cs.len() implies i64::MIN <= #[trigger] whole_area(cs[q]) <= i64::MAX by {
                        assert(child_fits(cs[q], outline));
                    }
                }
                let ri = reshape_input_for(parent, children[c].name.as_str(), kind);
                reshape.push(ri);
            },
        }
        proof {
            let pf = placed_first(kinds, c as int);
            let pf2 = placed_first(kinds, c + 1);
            assert(children@[c as int] == child_entry(cs[c as int], outline, fences@[c as int], guides@[c as int]));
            assert(kinds[c as int] == kind);
            if kind != AreaKind::IoCluster {
                assert(pf2 == pf.push(c as int));
                assert(reshape@ == before.push(reshape@[(nb + pf.len()) as int]));
            } else {
                assert(pf2 == pf);
                assert(reshape@ == before);
            }
            assert forall|j: int| 0 <= j < pf2.len() implies match #[trigger] first_named(cs, cs[pf2[j]].name@, 0) {
                Some(f) => describes(reshape@[nb + j], cs[f], kinds[pf2[j]]),
                None => empty_reshape(reshape@[nb + j], Some(kinds[pf2[j]])),
            } by {
                if j < pf.len() {
                    assert(pf2[j] == pf[j]);
                    assert(reshape@[nb + j] == before[nb + j]);
                } else {
                    assert(pf2[j] == c as int);
                }
            }
        }
        c = c + 1;
    }
    let ghost placed = placed_first(kinds, cs.len() as int);
    proof {
        lemma_placed_len(kinds, cs.len() as int);
    }
    let mut d: usize = 0;
    while d < children.len()
        invariant
            d <= children@.len(),
            children@ == entries,
            entries == child_entries(cs, outline, fences@, guides@),
            entries.len() == cs.len(),
            cs == parent.children@,
            kinds == kinds_of(cs),
            nb == blockages@.len(),
            placed == placed_first(kinds, cs.len() as int),
            parent_fits(*parent, outline, blockages@, fences@, guides@, terminals@),
            reshape@.len() == nb + placed.len() + held_back(kinds, d as int).len(),
            forall|q: int| 0 <= q < nb ==> #[trigger] empty_reshape(reshape@[q], Some(AreaKind::Blockage)),
            forall|j: int|
                0 <= j < placed.len() + held_back(kinds, d as int).len() ==> match #[trigger] first_named(
                    cs,
                    cs[(placed + held_back(kinds, d as int))[j]].name@,
                    0,
                ) {
                    Some(f) => describes(reshape@[nb + j], cs[f], kinds[(placed + held_back(kinds, d as int))[j]]),
                    None => empty_reshape(reshape@[nb + j], Some(kinds[(placed + held_back(kinds, d as int))[j]])),
                },
        decreases children@.len() - d,
    {
        let ghost before = reshape@;
        let ghost ord = placed + held_back(kinds, d as int);
        let kind = children[d].kind;
        match kind {
            AreaKind::IoCluster => {
                proof {
                    assert forall|q: int| 0 <= q < cs.len() implies i64::MIN <= #[trigger] whole_area(cs[q]) <= i64::MAX by {
                        assert(child_fits(cs[q], outline));
                    }
                }
                let ri = reshape_input_for(parent, children[d].name.as_str(), kind);
                reshape.push(ri);
            },
            _ => {},
        }
        proof {
            let ord2 = placed + held_back(kinds, d + 1);
            assert(children@[d as int] == child_entry(cs[d as int], outline, fences@[d as int], guides@[d as int]));
            assert(kinds[d as int] == kind);
            if kind == AreaKind::IoCluster {
                assert(ord2 =~= ord.push(d as int));
                assert(reshape@ == before.push(reshape@[(nb + ord.len()) as int]));
            } else {
                assert(ord2 =~= ord);
                assert(reshape@ == before);
            }
            assert forall|j: int| 0 <= j < ord2.len() implies match #[trigger] first_named(cs, cs[ord2[j]].name@, 0) {
                Some(f) => describes(reshape@[nb + j], cs[f], kinds[ord2[j]]),
                None => empty_reshape(reshape@[nb + j], Some(kinds[ord2[j]])),
            } by {
                if j < ord.len() {
                    assert(ord2[j] == ord[j]);
                    assert(reshape@[nb + j] == before[nb + j]);
                } else {
                    assert(ord2[j] == d as int);
                }
            }
        }
        d = d + 1;
    }
    let ghost after_children = reshape@.len();
    let ghost prefix = reshape@;
    let mut t: usize = 0;
    while t < terminals.len()
        invariant
            t <= terminals@.len(),
            reshape@.len() == after_children + t,
            prefix.len() == after_children,
            forall|q: int| 0 <= q < after_children ==> #[trigger] reshape@[q] == prefix[q],
            forall|q: int| after_children <= q < reshape@.len() ==> #[trigger] empty_reshape(reshape@[q], None),
        decreases terminals@.len() - t,
    {
        let ghost before = reshape@;
        reshape.push(ReshapeInput { kind: None, cluster_area: 0, cluster_std_cell_area: 0, num_std_cell: 0, tilings: Vec::new() });
        proof {
            assert forall|q: int| 0 <= q < before.len() implies reshape@[q] == before[q] by {}
        }
        t = t + 1;
    }
    proof {
        let order = child_order(kinds);
        assert(order =~= placed + held_back(kinds, cs.len() as int));
        lemma_placed_len(kinds, cs.len() as int);
        assert forall|q: int| 0 <= q < nb implies #[trigger] empty_reshape(reshape@[q], Some(AreaKind::Blockage)) by {
            assert(reshape@[q] == prefix[q]);
        }
        assert forall|j: int| 0 <= j < order.len() implies match #[trigger] first_named(cs, cs[order[j]].name@, 0) {
            Some(f) => describes(reshape@[nb + j], cs[f], kinds[order[j]]),
            None => empty_reshape(reshape@[nb + j], Some(kinds[order[j]])),
        } by {
            assert(reshape@[nb + j] == prefix[nb + j]);
        }
    }
    let assembly = assemble(blockage_macros.as_slice(), children.as_slice(), outline, terminals);
    proof {
        lemma_walk_order(blockages@.map_values(|b: Bbox| blockage_macro(b)), entries, outline, cs.len() as int);
    }
    let ghost walked = assembly_walk(blockages@.map_values(|b: Bbox| blockage_macro(b)), entries, outline, cs.len() as int);
    let ghost order = child_order(kinds);
    proof {
        let bm = blockages@.map_values(|b: Bbox| blockage_macro(b));
        let held = held_back(kinds, cs.len() as int);
        let tm = terminals@.map_values(|p: (String, SoftMacro)| p.1);
        assert(walked.4 == held);
        assert forall|j: int| 0 <= j < placed.len() implies #[trigger] entries[placed[j]].macro_ == child_macro(cs[placed[j]], kinds[placed[j]], outline) by {
            assert(0 <= placed[j] < cs.len());
        }
        assert forall|j: int| 0 <= j < held.len() implies #[trigger] entries[held[j]].macro_ == child_macro(cs[held[j]], kinds[held[j]], outline) by {
            assert(0 <= held[j] < cs.len());
        }
        assert(placed.map_values(|q: int| entries[q].macro_) =~= placed.map_values(|q: int| child_macro(cs[q], kinds[q], outline)));
        assert(held.map_values(|q: int| children@[q].macro_) =~= held.map_values(|q: int| child_macro(cs[q], kinds[q], outline)));
        assert(order.map_values(|q: int| child_macro(cs[q], kinds[q], outline)) =~= placed.map_values(
            |q: int| child_macro(cs[q], kinds[q], outline),
        ) + held.map_values(|q: int| child_macro(cs[q], kinds[q], outline)));
        assert(assembly.macros@ =~= bm + order.map_values(|q: int| child_macro(cs[q], kinds[q], outline)) + tm);
    }
    // Single array, single standard-cell cluster: read off the reshape entries.
    let first_terminal = reshape.len() - terminals.len();
    let mut entries_vec: Vec<(Option<ClusterType>, bool)> = Vec::new();
    let mut id: usize = 0;
    while id < reshape.len()
        invariant
            id <= reshape@.len(),
            first_terminal == reshape@.len() - terminals@.len(),
            entries_vec@ == entries_of(reshape@, terminals@).take(id as int),
        decreases reshape@.len() - id,
    {
        let r = &reshape[id];
        let is_array = r.tilings.len() > 1;
        let cluster_type = match r.kind {
            Some(AreaKind::Blockage) => None,
            Some(AreaKind::IoCluster) => Some(ClusterType::Mixed),
            Some(AreaKind::FixedMacro) => Some(ClusterType::HardMacro),
            Some(AreaKind::HardMacroCluster) => Some(ClusterType::HardMacro),
            Some(AreaKind::StdCellCluster) => Some(ClusterType::StdCell),
            Some(AreaKind::MixedCluster) => Some(ClusterType::Mixed),
            None => {
                if id >= first_terminal && id - first_terminal < terminals.len() {
                    let m = terminals[id - first_terminal].1;
                    if m.width > 0 || m.height > 0 {
                        Some(ClusterType::Mixed)
                    } else {
                        None
                    }
                } else {
                    None
                }
            },
        };
        entries_vec.push((cluster_type, is_array));
        proof {
            assert(entries_vec@ =~= entries_of(reshape@, terminals@).take(id + 1));
        }
        id = id + 1;
    }
    proof {
        assert(entries_vec@ =~= entries_of(reshape@, terminals@));
    }
    let force_centralization = single_array_single_std_cell_cluster(entries_vec.as_slice());
    // The fixed macros the sequence pair holds.
    let n = assembly.number_of_sequence_pair_macros;
    let mut fixed_bboxes: Vec<Bbox> = Vec::new();
    let mut q: usize = 0;
    while q < n
        invariant
            q <= n,
            n == nb + placed.len(),
            nb == blockages@.len(),
            assembly.macros@.len() == nb + cs.len() + terminals@.len(),
            placed.len() <= cs.len(),
            cs == parent.children@,
            kinds == kinds_of(cs),
            placed == placed_first(kinds, cs.len() as int),
            parent_fits(*parent, outline, blockages@, fences@, guides@, terminals@),
            forall|i: int| 0 <= i < nb ==> #[trigger] assembly.macros@[i] == blockage_macro(blockages@[i]),
            forall|j: int| 0 <= j < placed.len() ==> #[trigger] assembly.macros@[nb + j] == child_macro(cs[placed[j]], kinds[placed[j]], outline),
            forall|j: int| 0 <= j < placed.len() ==> 0 <= #[trigger] placed[j] < cs.len() && kinds[placed[j]] != AreaKind::IoCluster,
            fixed_bboxes@ == fixed_boxes(assembly.macros@, q as int),
        decreases n - q,
    {
        let m = assembly.macros[q];
        let ghost all = assembly.macros@;
        proof {
            assert(all.take(q + 1) =~= all.take(q as int).push(m));
            all.take(q as int).lemma_filter_push(m, |m: SoftMacro| is_fixed(m));
        }
        if m.fixed {
            proof {
                if q < nb {
                    assert(m == blockage_macro(blockages@[q as int]));
                    assert(extents_fit(blockages@));
                    assert(i32::MIN <= blockages@[q as int].2 - blockages@[q as int].0 <= i32::MAX);
                    assert(i32::MIN <= blockages@[q as int].3 - blockages@[q as int].1 <= i32::MAX);
                } else {
                    let j: int = q - nb;
                    assert(assembly.macros@[nb + j] == child_macro(cs[placed[j]], kinds[placed[j]], outline));
                    let ch = cs[placed[j]];
                    assert(m == child_macro(ch, kinds[placed[j]], outline));
                    assert(child_fits(ch, outline));
                    assert(kinds[placed[j]] == kind_of(ch));
                    assert(kinds[placed[j]] != AreaKind::IoCluster);
                    assert(kind_of(ch) == AreaKind::FixedMacro);
                }
            }
            let bx = m.bbox();
            fixed_bboxes.push(bx);
        }
        proof {
            assert(fixed_bboxes@ =~= fixed_boxes(all, q + 1));
        }
        q = q + 1;
    }
    // Each id's name, the last binding winning.
    let len = assembly.macros.len();
    let mut names: Vec<String> = Vec::new();
    let mut z: usize = 0;
    while z < len
        invariant
            z <= len,
            names@.len() == z,
            forall|i: int| 0 <= i < z ==> (#[trigger] names@[i])@ == Seq::<char>::empty(),
        decreases len - z,
    {
        names.push(String::new());
        z = z + 1;
    }
    proof {
        assert(names@.map_values(|s: String| s@) =~= names_upto(names_of(assembly.id_of@), len as nat, 0));
    }
    let mut e: usize = 0;
    while e < assembly.id_of.len()
        invariant
            e <= assembly.id_of@.len(),
            names@.len() == len,
            names@.map_values(|s: String| s@) == names_upto(names_of(assembly.id_of@), len as nat, e as int),
        decreases assembly.id_of@.len() - e,
    {
        let slot = assembly.id_of[e].1;
        if slot < len {
            let ghost before = names@;
            names.set(slot, assembly.id_of[e].0.clone());
            proof {
                assert(names@.map_values(|s: String| s@) =~= before.map_values(|s: String| s@).update(
                    slot as int,
                    assembly.id_of@[e as int].0@,
                ));
            }
        }
        e = e + 1;
    }
    proof {
        assert(placed.len() <= cs.len()) by {
            lemma_placed_len(kinds, cs.len() as int);
        }
    }
    ParentProblem {
        macros: assembly.macros,
        reshape,
        number_of_sequence_pair_macros: n,
        fences: assembly.fences,
        guides: assembly.guides,
        id_of: assembly.id_of,
        outline_origin: (outline.0, outline.1),
        outline: (outline.2 - outline.0, outline.3 - outline.1),
        fixed_bboxes,
        force_centralization,
        names,
    }
}

/// Together the placed and the held-back children are all of them.
pub proof fn lemma_placed_len(kinds: Seq<AreaKind>, n: int)
    requires
        0 <= n <= kinds.len(),
    ensures
        placed_first(kinds, n).len() + held_back(kinds, n).len() == n,
        forall|j: int| 0 <= j < placed_first(kinds, n).len() ==> 0 <= #[trigger] placed_first(kinds, n)[j] < n
            && kinds[placed_first(kinds, n)[j]] != AreaKind::IoCluster,
        forall|j: int| 0 <= j < held_back(kinds, n).len() ==> 0 <= #[trigger] held_back(kinds, n)[j] < n,
    decreases n,
{
    if n > 0 {
        lemma_placed_len(kinds, n - 1);
    }
}

} // verus!
