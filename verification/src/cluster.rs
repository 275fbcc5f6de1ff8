//! The physical hierarchy: the cluster tree, its counts, and how a subtree is collapsed.

use crate::anneal::SoftMacro;
use crate::design::Rect;
use crate::shaping::Tiling;
use vstd::prelude::*;

verus! {

pub type ClusterId = i32;

pub type InstId = usize;

pub type ModuleId = usize;

/// What a cluster holds.
#[derive(Debug, Clone, Copy, PartialEq, Eq, Structural)]
pub enum ClusterType {
    StdCell,
    HardMacro,
    Mixed,
}

/// What a module or cluster contains: the two counts the tree logic consults, and the areas
/// the hierarchy dump prints.
#[derive(Debug, Clone, Copy, PartialEq, Eq, Default, Structural)]
pub struct Metrics {
    pub num_std_cell: i32,
    pub num_macro: i32,
    pub std_cell_area: i64,
    pub macro_area: i64,
}

/// One node of the physical hierarchy. A cluster owns its children.
#[derive(Debug, PartialEq)]
pub struct Cluster {
    pub id: ClusterId,
    pub name: String,
    pub cluster_type: ClusterType,
    pub db_modules: Vec<ModuleId>,
    pub leaf_std_cells: Vec<InstId>,
    pub leaf_macros: Vec<InstId>,
    pub children: Vec<Cluster>,
    pub metrics: Metrics,
    pub is_cluster_of_unplaced_io_pins: bool,
    pub is_io_pad_cluster: bool,
    pub is_io_bundle: bool,
    /// Affects only the printed type string, not `is_io_cluster`.
    pub is_cluster_of_unconstrained_io_pins: bool,
    pub is_fixed_macro: bool,
    pub num_io_pins: usize,
    /// The region an unplaced-IO cluster is restricted to.
    pub constraint_region: Option<Rect>,
    /// The outlines this cluster may take; empty means not shaped yet.
    pub tilings: Vec<Tiling>,
    /// The fixed soft macro an IO cluster stands as in its parent's annealer.
    pub soft_macro: Option<SoftMacro>,
    /// The line on a die edge an IO cluster marks, as the pin-access builders read it.
    pub io_region: Option<Rect>,
}

/// The fixed, arealess soft macro an IO cluster is placed as.
pub open spec fn io_soft_macro(x: i32, y: i32, width: i32, height: i32) -> SoftMacro {
    SoftMacro { x, y, width, height, fixed: true, area: 0, is_macro_cluster: false }
}

/// The standard-cell count as the tree logic reads it: a macro cluster has none.
pub open spec fn std_cells_of(c: Cluster) -> int {
    if c.cluster_type == ClusterType::HardMacro { 0 } else { c.metrics.num_std_cell as int }
}

/// The macro count as the tree logic reads it: a standard-cell cluster has none.
pub open spec fn macros_of(c: Cluster) -> int {
    if c.cluster_type == ClusterType::StdCell { 0 } else { c.metrics.num_macro as int }
}

/// The three flags that make a cluster an IO cluster.
pub open spec fn io_cluster(c: Cluster) -> bool {
    c.is_cluster_of_unplaced_io_pins || c.is_io_pad_cluster || c.is_io_bundle
}

/// The printed type of a cluster: the IO and fixed-macro cases first, in this order, then the
/// ordinary type.
pub open spec fn type_word(c: Cluster) -> Seq<char> {
    if c.is_io_bundle {
        "IO Bundle"@
    } else if c.is_cluster_of_unconstrained_io_pins {
        "Unconstrained IOs"@
    } else if c.is_cluster_of_unplaced_io_pins {
        "Unplaced IOs"@
    } else if c.is_io_pad_cluster {
        "IO Pad"@
    } else if c.is_fixed_macro {
        "Fixed Macro"@
    } else {
        match c.cluster_type {
            ClusterType::StdCell => "StdCell"@,
            ClusterType::Mixed => "Mixed"@,
            ClusterType::HardMacro => "Macro"@,
        }
    }
}

/// Two clusters agree in everything but their children.
pub open spec fn same_but_children(a: Cluster, b: Cluster) -> bool {
    &&& a.id == b.id
    &&& a.name == b.name
    &&& a.cluster_type == b.cluster_type
    &&& a.db_modules == b.db_modules
    &&& a.leaf_std_cells == b.leaf_std_cells
    &&& a.leaf_macros == b.leaf_macros
    &&& a.metrics == b.metrics
    &&& a.is_cluster_of_unplaced_io_pins == b.is_cluster_of_unplaced_io_pins
    &&& a.is_io_pad_cluster == b.is_io_pad_cluster
    &&& a.is_io_bundle == b.is_io_bundle
    &&& a.is_cluster_of_unconstrained_io_pins == b.is_cluster_of_unconstrained_io_pins
    &&& a.is_fixed_macro == b.is_fixed_macro
    &&& a.num_io_pins == b.num_io_pins
    &&& a.constraint_region == b.constraint_region
    &&& a.tilings == b.tilings
    &&& a.soft_macro == b.soft_macro
    &&& a.io_region == b.io_region
}

impl Cluster {
    /// A fresh mixed cluster with nothing in it.
    pub fn new(id: ClusterId, name: &str) -> (c: Cluster)
        ensures
            c.id == id,
            c.name@ == name@,
            c.cluster_type == ClusterType::Mixed,
            c.db_modules@.len() == 0,
            c.leaf_std_cells@.len() == 0,
            c.leaf_macros@.len() == 0,
            c.children@.len() == 0,
            c.metrics == (Metrics { num_std_cell: 0, num_macro: 0, std_cell_area: 0, macro_area: 0 }),
            !c.is_cluster_of_unplaced_io_pins,
            !c.is_io_pad_cluster,
            !c.is_io_bundle,
            !c.is_cluster_of_unconstrained_io_pins,
            !c.is_fixed_macro,
            c.num_io_pins == 0,
            c.constraint_region is None,
            c.tilings@.len() == 0,
            c.soft_macro is None,
            c.io_region is None,
    {
        Cluster {
            id,
            name: String::from_str(name),
            cluster_type: ClusterType::Mixed,
            db_modules: Vec::new(),
            leaf_std_cells: Vec::new(),
            leaf_macros: Vec::new(),
            children: Vec::new(),
            metrics: Metrics { num_std_cell: 0, num_macro: 0, std_cell_area: 0, macro_area: 0 },
            is_cluster_of_unplaced_io_pins: false,
            is_io_pad_cluster: false,
            is_io_bundle: false,
            is_cluster_of_unconstrained_io_pins: false,
            is_fixed_macro: false,
            num_io_pins: 0,
            constraint_region: None,
            tilings: Vec::new(),
            soft_macro: None,
            io_region: None,
        }
    }

    /// Mark the cluster an IO bundle, standing as a fixed soft macro at `pos`.
    pub fn set_as_io_bundle(&mut self, pos: (i32, i32), width: i32, height: i32)
        ensures
            *final(self) == (Cluster {
                is_io_bundle: true,
                soft_macro: Some(io_soft_macro(pos.0, pos.1, width, height)),
                ..*old(self)
            }),
    {
        self.is_io_bundle = true;
        self.soft_macro = Some(SoftMacro {
            x: pos.0,
            y: pos.1,
            width,
            height,
            fixed: true,
            area: 0,
            is_macro_cluster: false,
        });
    }

    /// Mark the cluster one of unplaced IO pins, unconstrained or not, standing as a fixed soft
    /// macro at `pos`.
    pub fn set_as_cluster_of_unplaced_io_pins(
        &mut self,
        pos: (i32, i32),
        width: i32,
        height: i32,
        is_unconstrained: bool,
    )
        ensures
            *final(self) == (Cluster {
                is_cluster_of_unplaced_io_pins: true,
                is_cluster_of_unconstrained_io_pins: is_unconstrained,
                soft_macro: Some(io_soft_macro(pos.0, pos.1, width, height)),
                ..*old(self)
            }),
    {
        self.is_cluster_of_unplaced_io_pins = true;
        self.is_cluster_of_unconstrained_io_pins = is_unconstrained;
        self.soft_macro = Some(SoftMacro {
            x: pos.0,
            y: pos.1,
            width,
            height,
            fixed: true,
            area: 0,
            is_macro_cluster: false,
        });
    }

    /// Mark the cluster an IO pad, standing as a fixed soft macro at `pos`.
    pub fn set_as_io_pad_cluster(&mut self, pos: (i32, i32), width: i32, height: i32)
        ensures
            *final(self) == (Cluster {
                is_io_pad_cluster: true,
                soft_macro: Some(io_soft_macro(pos.0, pos.1, width, height)),
                ..*old(self)
            }),
    {
        self.is_io_pad_cluster = true;
        self.soft_macro = Some(SoftMacro {
            x: pos.0,
            y: pos.1,
            width,
            height,
            fixed: true,
            area: 0,
            is_macro_cluster: false,
        });
    }

    /// The standard-cell count, masked by type: a macro cluster reports none.
    pub fn num_std_cell(&self) -> (r: i32)
        ensures
            r == std_cells_of(*self),
    {
        if self.cluster_type == ClusterType::HardMacro {
            return 0;
        }
        self.metrics.num_std_cell
    }

    /// The macro count, masked by type: a standard-cell cluster reports none.
    pub fn num_macro(&self) -> (r: i32)
        ensures
            r == macros_of(*self),
    {
        if self.cluster_type == ClusterType::StdCell {
            return 0;
        }
        self.metrics.num_macro
    }

    /// The standard-cell area; areas are not masked by type.
    pub fn std_cell_area(&self) -> (r: i64)
        ensures
            r == self.metrics.std_cell_area,
    {
        self.metrics.std_cell_area
    }

    /// The whole area: the standard cells' and the macros', summed.
    pub fn area(&self) -> (r: i64)
        requires
            i64::MIN <= self.metrics.std_cell_area + self.metrics.macro_area <= i64::MAX,
        ensures
            r == self.metrics.std_cell_area + self.metrics.macro_area,
    {
        self.metrics.std_cell_area + self.metrics.macro_area
    }

    /// The macro area; areas are not masked by type.
    pub fn macro_area(&self) -> (r: i64)
        ensures
            r == self.metrics.macro_area,
    {
        self.metrics.macro_area
    }

    /// The printed type of the cluster.
    pub fn type_string(&self) -> (r: &'static str)
        ensures
            r@ == type_word(*self),
    {
        if self.is_io_bundle {
            return "IO Bundle";
        }
        if self.is_cluster_of_unconstrained_io_pins {
            return "Unconstrained IOs";
        }
        if self.is_cluster_of_unplaced_io_pins {
            return "Unplaced IOs";
        }
        if self.is_io_pad_cluster {
            return "IO Pad";
        }
        if self.is_fixed_macro {
            return "Fixed Macro";
        }
        match self.cluster_type {
            ClusterType::StdCell => "StdCell",
            ClusterType::Mixed => "Mixed",
            ClusterType::HardMacro => "Macro",
        }
    }

    /// `"Leaf"` for a childless cluster that is not an IO cluster, otherwise empty.
    pub fn is_leaf_string(&self) -> (r: &'static str)
        ensures
            r@ == (if !io_cluster(*self) && self.children@.len() == 0 { "Leaf"@ } else { ""@ }),
    {
        if !self.is_io_cluster() && self.children.len() == 0 {
            "Leaf"
        } else {
            ""
        }
    }

    /// No leaves and no modules.
    pub fn is_empty(&self) -> (r: bool)
        ensures
            r == (self.leaf_std_cells@.len() == 0 && self.leaf_macros@.len() == 0
                && self.db_modules@.len() == 0),
    {
        self.leaf_std_cells.len() == 0 && self.leaf_macros.len() == 0 && self.db_modules.len() == 0
    }

    /// Exactly one module and no loose leaves.
    pub fn corresponds_to_logical_module(&self) -> (r: bool)
        ensures
            r == (self.leaf_std_cells@.len() == 0 && self.leaf_macros@.len() == 0
                && self.db_modules@.len() == 1),
    {
        self.leaf_std_cells.len() == 0 && self.leaf_macros.len() == 0 && self.db_modules.len() == 1
    }

    /// A cluster without children.
    pub fn is_leaf(&self) -> (r: bool)
        ensures
            r == (self.children@.len() == 0),
    {
        self.children.len() == 0
    }

    /// Unplaced IO pins, an IO pad cluster, or an IO bundle.
    pub fn is_io_cluster(&self) -> (r: bool)
        ensures
            r == io_cluster(*self),
    {
        self.is_cluster_of_unplaced_io_pins || self.is_io_pad_cluster || self.is_io_bundle
    }

    /// Hand the children out, leaving the cluster childless.
    pub fn release_children(&mut self) -> (r: Vec<Cluster>)
        ensures
            r@ == old(self).children@,
            final(self).children@.len() == 0,
            same_but_children(*final(self), *old(self)),
    {
        let mut out: Vec<Cluster> = Vec::new();
        std::mem::swap(&mut out, &mut self.children);
        out
    }

    /// Adopt the given clusters after the existing children.
    pub fn add_children(&mut self, children: Vec<Cluster>)
        ensures
            final(self).children@ == old(self).children@ + children@,
            same_but_children(*final(self), *old(self)),
    {
        let mut more = children;
        self.children.append(&mut more);
    }
}

/// Either count exceeds its maximum.
pub fn should_break(cluster: &Cluster, max_std_cell: i32, max_macro: i32) -> (r: bool)
    ensures
        r == (std_cells_of(*cluster) > max_std_cell || macros_of(*cluster) > max_macro),
{
    cluster.num_std_cell() > max_std_cell || cluster.num_macro() > max_macro
}

/// A small child eligible for merging: not an IO cluster, and both counts under their minimum.
pub fn is_merge_candidate(cluster: &Cluster, min_std_cell: i32, min_macro: i32) -> (r: bool)
    ensures
        r == (!io_cluster(*cluster) && std_cells_of(*cluster) < min_std_cell && macros_of(*cluster)
            < min_macro),
{
    !cluster.is_io_cluster() && cluster.num_std_cell() < min_std_cell && cluster.num_macro()
        < min_macro
}

/// No module children, and more loose leaves of either kind than its maximum.
pub open spec fn large_flat(c: Cluster, max_std_cell: i32, max_macro: i32) -> bool {
    c.db_modules@.len() == 0 && (c.leaf_std_cells@.len() > max_std_cell || c.leaf_macros@.len()
        > max_macro)
}

/// Whether a cluster calls for partitioning: no module left to split on, and more loose
/// leaves than allowed. It reads the leaf lists, not the masked counts.
pub fn is_large_flat_cluster(cluster: &Cluster, max_std_cell: i32, max_macro: i32) -> (r: bool)
    ensures
        r == large_flat(*cluster, max_std_cell, max_macro),
{
    let few_cells = max_std_cell >= 0 && cluster.leaf_std_cells.len() <= max_std_cell as usize;
    let few_macros = max_macro >= 0 && cluster.leaf_macros.len() <= max_macro as usize;
    cluster.db_modules.len() == 0 && (!few_cells || !few_macros)
}

/// What `update_sub_tree` did, and whether the caller must refuse.
#[derive(Debug, Clone, PartialEq, Eq, Default)]
pub struct SubTreeUpdate {
    /// Ids of the intermediate clusters that were dissolved, in the order they were met.
    pub dissolved: Vec<ClusterId>,
    /// Ids of the resulting children that would need a partitioner.
    pub needs_partitioning: Vec<ClusterId>,
}

/// How many clusters a cluster's subtree holds, itself included.
pub open spec fn cluster_size(c: Cluster) -> nat
    decreases c,
{
    1 + forest_size(c.children@)
}

/// How many clusters a list of subtrees holds.
pub open spec fn forest_size(s: Seq<Cluster>) -> nat
    decreases s,
{
    if s.len() == 0 {
        0
    } else {
        forest_size(s.subrange(0, s.len() - 1)) + cluster_size(s[s.len() - 1])
    }
}

/// The next level down: the children of each cluster of a level, in order.
pub open spec fn next_level(s: Seq<Cluster>) -> Seq<Cluster>
    decreases s.len(),
{
    if s.len() == 0 {
        Seq::empty()
    } else {
        next_level(s.drop_last()) + s.last().children@
    }
}

/// The childless clusters of a level, in order.
pub open spec fn leaves_of(s: Seq<Cluster>) -> Seq<Cluster> {
    s.filter(|c: Cluster| c.children@.len() == 0)
}

/// The ids of the clusters of a level that have children, in order.
pub open spec fn inner_ids_of(s: Seq<Cluster>) -> Seq<ClusterId> {
    s.filter(|c: Cluster| c.children@.len() > 0).map_values(|c: Cluster| c.id)
}

pub proof fn lemma_forest_size_add(a: Seq<Cluster>, b: Seq<Cluster>)
    ensures
        forest_size(a + b) == forest_size(a) + forest_size(b),
    decreases b.len(),
{
    if b.len() == 0 {
        assert(a + b =~= a);
    } else {
        let ab = a + b;
        assert(ab.subrange(0, ab.len() - 1) =~= a + b.subrange(0, b.len() - 1));
        assert(ab[ab.len() - 1] == b[b.len() - 1]);
        lemma_forest_size_add(a, b.subrange(0, b.len() - 1));
    }
}

pub proof fn lemma_next_level_size(s: Seq<Cluster>)
    ensures
        forest_size(next_level(s)) + s.len() == forest_size(s),
    decreases s.len(),
{
    if s.len() > 0 {
        assert(s.drop_last() =~= s.subrange(0, s.len() - 1));
        lemma_next_level_size(s.drop_last());
        lemma_forest_size_add(next_level(s.drop_last()), s.last().children@);
        assert(s.last() == s[s.len() - 1]);
        assert(forest_size(s) == forest_size(s.drop_last()) + cluster_size(s.last()));
        assert(cluster_size(s.last()) == 1 + forest_size(s.last().children@));
    }
}

/// The subtree collapsed level by level: the leaves of each level, breadth first, in order.
pub open spec fn collapsed_leaves(s: Seq<Cluster>) -> Seq<Cluster>
    decreases forest_size(s),
{
    if s.len() == 0 {
        Seq::empty()
    } else {
        proof {
            lemma_next_level_size(s);
        }
        leaves_of(s) + collapsed_leaves(next_level(s))
    }
}

/// The ids of the clusters dissolved by the collapse, breadth first, in order.
pub open spec fn collapsed_inner_ids(s: Seq<Cluster>) -> Seq<ClusterId>
    decreases forest_size(s),
{
    if s.len() == 0 {
        Seq::empty()
    } else {
        proof {
            lemma_next_level_size(s);
        }
        inner_ids_of(s) + collapsed_inner_ids(next_level(s))
    }
}

/// The ids of the large flat clusters of a list, in order.
pub open spec fn large_flat_ids(s: Seq<Cluster>, max_std_cell: i32, max_macro: i32) -> Seq<ClusterId> {
    s.filter(|c: Cluster| large_flat(c, max_std_cell, max_macro)).map_values(|c: Cluster| c.id)
}

/// Collapse the parent's whole subtree into the flat list of its leaves, breadth first: every
/// descendant with children is dissolved and its children promoted, level by level, and the
/// leaves become the parent's direct children in that order. The result lists the dissolved
/// clusters and the new children that are large flat clusters.
pub fn update_sub_tree(parent: &mut Cluster, max_std_cell: i32, max_macro: i32) -> (r: SubTreeUpdate)
    ensures
        final(parent).children@ == collapsed_leaves(old(parent).children@),
        same_but_children(*final(parent), *old(parent)),
        r.dissolved@ == collapsed_inner_ids(old(parent).children@),
        r.needs_partitioning@ == large_flat_ids(final(parent).children@, max_std_cell, max_macro),
{
    let ghost start = parent.children@;
    let mut leaves: Vec<Cluster> = Vec::new();
    let mut dissolved: Vec<ClusterId> = Vec::new();
    let mut current = parent.release_children();
    while current.len() > 0
        invariant
            leaves@ + collapsed_leaves(current@) == collapsed_leaves(start),
            dissolved@ + collapsed_inner_ids(current@) == collapsed_inner_ids(start),
        decreases forest_size(current@),
    {
        let ghost level = current@;
        let mut next: Vec<Cluster> = Vec::new();
        let ghost leaves0 = leaves@;
        let ghost dissolved0 = dissolved@;
        let ghost mut j: int = 0;
        while current.len() > 0
            invariant
                0 <= j <= level.len(),
                current@ == level.subrange(j, level.len() as int),
                leaves@ == leaves0 + leaves_of(level.take(j)),
                dissolved@ == dissolved0 + inner_ids_of(level.take(j)),
                next@ == next_level(level.take(j)),
            decreases current@.len(),
        {
            let mut c = current.remove(0);
            let ghost orig = c;
            proof {
                assert(orig == level[j]);
                assert(level.take(j + 1).drop_last() =~= level.take(j));
                assert(level.take(j + 1).last() == orig);
                reveal_with_fuel(Seq::<_>::filter, 1);
            }
            if c.children.len() == 0 {
                leaves.push(c);
                proof {
                    assert(leaves_of(level.take(j + 1)) =~= leaves_of(level.take(j)).push(orig));
                    assert(inner_ids_of(level.take(j + 1)) =~= inner_ids_of(level.take(j)));
                    assert(next_level(level.take(j + 1)) =~= next_level(level.take(j)) + orig.children@);
                }
            } else {
                let mut kids = c.release_children();
                dissolved.push(c.id);
                next.append(&mut kids);
                proof {
                    assert(leaves_of(level.take(j + 1)) =~= leaves_of(level.take(j)));
                    let f = level.take(j + 1).filter(|c: Cluster| c.children@.len() > 0);
                    let g = level.take(j).filter(|c: Cluster| c.children@.len() > 0);
                    assert(f =~= g.push(orig));
                    assert(f.map_values(|c: Cluster| c.id) =~= g.map_values(|c: Cluster| c.id).push(orig.id));
                    assert(inner_ids_of(level.take(j + 1)) =~= inner_ids_of(level.take(j)).push(orig.id));
                }
            }
            proof {
                j = j + 1;
                assert(current@ =~= level.subrange(j, level.len() as int));
            }
        }
        proof {
            assert(level.take(level.len() as int) =~= level);
            lemma_next_level_size(level);
            assert(collapsed_leaves(level) == leaves_of(level) + collapsed_leaves(next_level(level)));
            assert(collapsed_inner_ids(level) == inner_ids_of(level) + collapsed_inner_ids(next_level(level)));
            assert(leaves@ + collapsed_leaves(next@) =~= leaves0 + collapsed_leaves(level));
            assert(dissolved@ + collapsed_inner_ids(next@) =~= dissolved0 + collapsed_inner_ids(level));
        }
        current = next;
    }
    proof {
        assert(collapsed_leaves(current@) =~= Seq::<Cluster>::empty());
        assert(collapsed_inner_ids(current@) =~= Seq::<ClusterId>::empty());
        assert(leaves@ =~= collapsed_leaves(start));
        assert(dissolved@ =~= collapsed_inner_ids(start));
    }
    parent.add_children(leaves);
    let mut needs: Vec<ClusterId> = Vec::new();
    let mut k: usize = 0;
    while k < parent.children.len()
        invariant
            k <= parent.children@.len(),
            needs@ == large_flat_ids(parent.children@.take(k as int), max_std_cell, max_macro),
        decreases parent.children@.len() - k,
    {
        let ghost all = parent.children@;
        proof {
            assert(all.take(k + 1).drop_last() =~= all.take(k as int));
            reveal_with_fuel(Seq::<_>::filter, 1);
        }
        if is_large_flat_cluster(&parent.children[k], max_std_cell, max_macro) {
            needs.push(parent.children[k].id);
            proof {
                let f = all.take(k + 1).filter(|c: Cluster| large_flat(c, max_std_cell, max_macro));
                let g = all.take(k as int).filter(|c: Cluster| large_flat(c, max_std_cell, max_macro));
                assert(f =~= g.push(all[k as int]));
                assert(f.map_values(|c: Cluster| c.id) =~= g.map_values(|c: Cluster| c.id).push(all[k as int].id));
            }
        } else {
            proof {
                let f = all.take(k + 1).filter(|c: Cluster| large_flat(c, max_std_cell, max_macro));
                let g = all.take(k as int).filter(|c: Cluster| large_flat(c, max_std_cell, max_macro));
                assert(f =~= g);
            }
        }
        k = k + 1;
    }
    proof {
        assert(parent.children@.take(parent.children@.len() as int) =~= parent.children@);
    }
    SubTreeUpdate { dissolved, needs_partitioning: needs }
}

/// Collapsing a subtree leaves only childless clusters behind.
pub proof fn lemma_collapse_leaves_are_leaves(s: Seq<Cluster>)
    ensures
        forall|i: int| 0 <= i < collapsed_leaves(s).len() ==> (#[trigger] collapsed_leaves(s)[i]).children@.len() == 0,
    decreases forest_size(s),
{
    if s.len() > 0 {
        lemma_next_level_size(s);
        lemma_collapse_leaves_are_leaves(next_level(s));
        let l = leaves_of(s);
        let rest = collapsed_leaves(next_level(s));
        assert(collapsed_leaves(s) == l + rest);
        assert forall|i: int| 0 <= i < collapsed_leaves(s).len() implies (#[trigger] collapsed_leaves(s)[i]).children@.len() == 0 by {
            if i < l.len() {
                s.filter_lemma(|c: Cluster| c.children@.len() == 0);
                assert(l[i] == collapsed_leaves(s)[i]);
            } else {
                assert(rest[i - l.len()] == collapsed_leaves(s)[i]);
            }
        }
    }
}

/// Collapsing a list of leaves keeps it as it is.
pub proof fn lemma_collapse_of_leaves_is_identity(s: Seq<Cluster>)
    requires
        forall|i: int| 0 <= i < s.len() ==> (#[trigger] s[i]).children@.len() == 0,
    ensures
        collapsed_leaves(s) == s,
        collapsed_inner_ids(s) == Seq::<ClusterId>::empty(),
{
    if s.len() > 0 {
        lemma_next_level_size(s);
        assert(next_level(s) =~= Seq::<Cluster>::empty()) by {
            lemma_next_level_empty(s);
        }
        assert(collapsed_leaves(next_level(s)) =~= Seq::<Cluster>::empty());
        assert(collapsed_inner_ids(next_level(s)) =~= Seq::<ClusterId>::empty());
        assert(leaves_of(s) =~= s) by {
            lemma_filter_all(s);
        }
        assert(s.filter(|c: Cluster| c.children@.len() > 0) =~= Seq::<Cluster>::empty()) by {
            lemma_filter_none(s);
        }
        assert(collapsed_leaves(s) =~= s);
        assert(collapsed_inner_ids(s) =~= Seq::<ClusterId>::empty());
    }
}

proof fn lemma_next_level_empty(s: Seq<Cluster>)
    requires
        forall|i: int| 0 <= i < s.len() ==> (#[trigger] s[i]).children@.len() == 0,
    ensures
        next_level(s) =~= Seq::<Cluster>::empty(),
    decreases s.len(),
{
    if s.len() > 0 {
        lemma_next_level_empty(s.drop_last());
        assert(s.last() == s[s.len() - 1]);
    }
}

proof fn lemma_filter_all(s: Seq<Cluster>)
    requires
        forall|i: int| 0 <= i < s.len() ==> (#[trigger] s[i]).children@.len() == 0,
    ensures
        s.filter(|c: Cluster| c.children@.len() == 0) =~= s,
    decreases s.len(),
{
    reveal_with_fuel(Seq::<_>::filter, 1);
    if s.len() > 0 {
        lemma_filter_all(s.drop_last());
        assert(s.drop_last().push(s.last()) =~= s);
    }
}

proof fn lemma_filter_none(s: Seq<Cluster>)
    requires
        forall|i: int| 0 <= i < s.len() ==> (#[trigger] s[i]).children@.len() == 0,
    ensures
        s.filter(|c: Cluster| c.children@.len() > 0) =~= Seq::<Cluster>::empty(),
    decreases s.len(),
{
    reveal_with_fuel(Seq::<_>::filter, 1);
    if s.len() > 0 {
        lemma_filter_none(s.drop_last());
    }
}

} // verus!
