//! Walks over the cluster tree and the module hierarchy, each node given by its index into a
//! list and its children as indices.

use crate::cluster::ClusterType;
use crate::arith::{div_trunc32, quot};
use crate::placement::blockages::AreaKind;
use crate::placement::orient::in_i32;
use crate::placement::wirelength::{centre, pin_center};
use vstd::prelude::*;

verus! {

/// Every node listed, and every node below it within `fuel` levels, indexes the tree; deeper
/// than that there are no children.
pub open spec fn within(children: Seq<Vec<usize>>, list: Seq<usize>, fuel: nat) -> bool
    decreases fuel,
{
    forall|k: int|
        0 <= k < list.len() ==> {
            &&& #[trigger] list[k] < children.len()
            &&& fuel > 0 && within(children, children[list[k] as int]@, (fuel - 1) as nat)
        }
}

/// The macro clusters under the listed children, depth first in child order: a macro
/// cluster is taken, a mixed cluster is entered, a standard-cell cluster is passed over.
pub open spec fn fetched(types: Seq<ClusterType>, children: Seq<Vec<usize>>, list: Seq<usize>, fuel: nat) -> Seq<usize>
    decreases fuel, list.len(),
{
    if list.len() == 0 {
        Seq::empty()
    } else {
        let prev = fetched(types, children, list.drop_last(), fuel);
        let c = list.last();
        let more = if types[c as int] == ClusterType::HardMacro {
            seq![c]
        } else if types[c as int] == ClusterType::Mixed && fuel > 0 {
            fetched(types, children, children[c as int]@, (fuel - 1) as nat)
        } else {
            Seq::empty()
        };
        prev + more
    }
}

proof fn lemma_within_prefix(children: Seq<Vec<usize>>, list: Seq<usize>, fuel: nat, n: int)
    requires
        within(children, list, fuel),
        0 <= n <= list.len(),
    ensures
        within(children, list.take(n), fuel),
{
    assert forall|k: int| 0 <= k < list.take(n).len() implies {
        &&& #[trigger] list.take(n)[k] < children.len()
        &&& fuel > 0 && within(children, children[list.take(n)[k] as int]@, (fuel - 1) as nat)
    } by {
        assert(list.take(n)[k] == list[k]);
    }
}

fn fetch_into(types: &[ClusterType], children: &[Vec<usize>], list: &Vec<usize>, Ghost(fuel): Ghost<nat>, out: &mut Vec<usize>)
    requires
        types@.len() == children@.len(),
        within(children@, list@, fuel),
    ensures
        final(out)@ == old(out)@ + fetched(types@, children@, list@, fuel),
    decreases fuel, 0nat,
{
    let ghost start = out@;
    let mut k: usize = 0;
    while k < list.len()
        invariant
            k <= list@.len(),
            types@.len() == children@.len(),
            within(children@, list@, fuel),
            out@ == start + fetched(types@, children@, list@.take(k as int), fuel),
        decreases list@.len() - k,
    {
        let c = list[k];
        proof {
            assert(list@.take(k + 1).drop_last() =~= list@.take(k as int));
            assert(list@[k as int] < children@.len());
        }
        match types[c] {
            ClusterType::HardMacro => {
                out.push(c);
            },
            ClusterType::Mixed => {
                proof {
                    assert(fuel > 0 && within(children@, children@[c as int]@, (fuel - 1) as nat));
                }
                fetch_into(types, children, &children[c], Ghost((fuel - 1) as nat), out);
            },
            ClusterType::StdCell => {},
        }
        proof {
            assert(out@ =~= start + fetched(types@, children@, list@.take(k + 1), fuel));
        }
        k = k + 1;
    }
    proof {
        assert(list@.take(list@.len() as int) =~= list@);
    }
}

/// The macro clusters the boundary push considers: depth first from the root's children, a
/// macro cluster taken, a mixed cluster entered, a standard-cell cluster not entered, so a
/// macro cluster beneath one is never fetched.
pub fn fetch_macro_clusters(root: usize, types: &[ClusterType], children: &[Vec<usize>]) -> (r: Vec<usize>)
    requires
        root < children@.len(),
        types@.len() == children@.len(),
        within(children@, children@[root as int]@, children@.len() as nat),
    ensures
        r@ == fetched(types@, children@, children@[root as int]@, children@.len() as nat),
{
    let mut out: Vec<usize> = Vec::new();
    fetch_into(types, children, &children[root], Ghost(children@.len() as nat), &mut out);
    proof {
        assert(out@ =~= fetched(types@, children@, children@[root as int]@, children@.len() as nat));
    }
    out
}

/// The macros of the listed modules: each module's macro instances, then its child modules
/// in turn, recursively.
pub open spec fn module_macros(insts: Seq<Vec<usize>>, subs: Seq<Vec<usize>>, is_macro: Seq<bool>, list: Seq<usize>, fuel: nat) -> Seq<usize>
    decreases fuel, list.len(),
{
    if list.len() == 0 {
        Seq::empty()
    } else {
        let prev = module_macros(insts, subs, is_macro, list.drop_last(), fuel);
        let m = list.last() as int;
        let own = insts[m]@.filter(|i: usize| is_macro[i as int]);
        let below = if fuel > 0 {
            module_macros(insts, subs, is_macro, subs[m]@, (fuel - 1) as nat)
        } else {
            Seq::empty()
        };
        prev + own + below
    }
}

/// Every instance a module holds is known.
pub open spec fn insts_known(insts: Seq<Vec<usize>>, is_macro: Seq<bool>) -> bool {
    forall|m: int, k: int| 0 <= m < insts.len() && 0 <= k < insts[m]@.len() ==> #[trigger] insts[m]@[k] < is_macro.len()
}

fn module_macros_into(
    insts: &[Vec<usize>],
    subs: &[Vec<usize>],
    is_macro: &[bool],
    list: &Vec<usize>,
    Ghost(fuel): Ghost<nat>,
    out: &mut Vec<usize>,
)
    requires
        insts@.len() == subs@.len(),
        insts_known(insts@, is_macro@),
        within(subs@, list@, fuel),
    ensures
        final(out)@ == old(out)@ + module_macros(insts@, subs@, is_macro@, list@, fuel),
    decreases fuel, 0nat,
{
    let ghost start = out@;
    let mut k: usize = 0;
    while k < list.len()
        invariant
            k <= list@.len(),
            insts@.len() == subs@.len(),
            insts_known(insts@, is_macro@),
            within(subs@, list@, fuel),
            out@ == start + module_macros(insts@, subs@, is_macro@, list@.take(k as int), fuel),
        decreases list@.len() - k,
    {
        let m = list[k];
        proof {
            assert(list@.take(k + 1).drop_last() =~= list@.take(k as int));
            assert(list@[k as int] < subs@.len());
        }
        let ghost before = out@;
        let own = &insts[m];
        let mut j: usize = 0;
        while j < own.len()
            invariant
                j <= own@.len(),
                m < insts@.len(),
                own == &insts@[m as int],
                insts_known(insts@, is_macro@),
                out@ == before + own@.take(j as int).filter(|i: usize| is_macro@[i as int]),
            decreases own@.len() - j,
        {
            let inst = own[j];
            proof {
                assert(own@.take(j + 1).drop_last() =~= own@.take(j as int));
                reveal_with_fuel(Seq::filter, 1);
                assert(insts@[m as int]@[j as int] < is_macro@.len());
            }
            if is_macro[inst] {
                out.push(inst);
            }
            proof {
                assert(out@ =~= before + own@.take(j + 1).filter(|i: usize| is_macro@[i as int]));
            }
            j = j + 1;
        }
        proof {
            assert(own@.take(own@.len() as int) =~= own@);
            assert(fuel > 0 && within(subs@, subs@[m as int]@, (fuel - 1) as nat));
        }
        module_macros_into(insts, subs, is_macro, &subs[m], Ghost((fuel - 1) as nat), out);
        proof {
            assert(out@ =~= start + module_macros(insts@, subs@, is_macro@, list@.take(k + 1), fuel));
        }
        k = k + 1;
    }
    proof {
        assert(list@.take(list@.len() as int) =~= list@);
    }
}

/// A cluster's hard macros: nothing for a standard-cell cluster; otherwise its own leaf
/// macros, in order, then every macro reached through the modules it holds, walked into
/// their child modules.
pub fn cluster_hard_macros(
    cluster_type: ClusterType,
    leaf_macros: &[usize],
    db_modules: &Vec<usize>,
    module_insts: &[Vec<usize>],
    module_children: &[Vec<usize>],
    is_macro: &[bool],
) -> (r: Vec<usize>)
    requires
        module_insts@.len() == module_children@.len(),
        insts_known(module_insts@, is_macro@),
        within(module_children@, db_modules@, module_children@.len() as nat),
    ensures
        cluster_type == ClusterType::StdCell ==> r@.len() == 0,
        cluster_type != ClusterType::StdCell ==> r@ == leaf_macros@ + module_macros(
            module_insts@,
            module_children@,
            is_macro@,
            db_modules@,
            module_children@.len() as nat,
        ),
{
    let mut out: Vec<usize> = Vec::new();
    if cluster_type == ClusterType::StdCell {
        return out;
    }
    let mut k: usize = 0;
    while k < leaf_macros.len()
        invariant
            k <= leaf_macros@.len(),
            out@ == leaf_macros@.take(k as int),
        decreases leaf_macros@.len() - k,
    {
        out.push(leaf_macros[k]);
        proof {
            assert(out@ =~= leaf_macros@.take(k + 1));
        }
        k = k + 1;
    }
    proof {
        assert(out@ =~= leaf_macros@);
    }
    module_macros_into(module_insts, module_children, is_macro, db_modules, Ghost(module_children@.len() as nat), &mut out);
    out
}

/// Where one standard cell of a cluster goes: its centre on the soft macro's centre, the
/// cell's half-extent truncated; nothing without a soft macro.
pub open spec fn cell_spot(soft_macro: ((i32, i32), (i32, i32)), cell_extent: (i32, i32)) -> (int, int) {
    let ((x, y), (w, h)) = soft_macro;
    (centre(x as int, w as int) - quot(cell_extent.0 as int, 2), centre(y as int, h as int) - quot(cell_extent.1 as int, 2))
}

/// Every standard cell of a cluster goes to the same point, the cluster's centre offset by
/// the cell's own half-size; they overlap on purpose, to give the orientation pass something
/// to measure from. A cluster without a soft macro places nothing.
pub fn temporary_std_cell_location(cluster_soft_macro: Option<((i32, i32), (i32, i32))>, cell_extent: (i32, i32)) -> (r: Option<(i32, i32)>)
    requires
        cluster_soft_macro matches Some(m) ==> in_i32(cell_spot(m, cell_extent).0) && in_i32(cell_spot(m, cell_extent).1),
    ensures
        cluster_soft_macro is None ==> r is None,
        cluster_soft_macro matches Some(m) ==> r matches Some(p) && p.0 == cell_spot(m, cell_extent).0 && p.1 == cell_spot(m, cell_extent).1,
{
    match cluster_soft_macro {
        None => None,
        Some(((x, y), (width, height))) => {
            let cx = pin_center(x, width);
            let cy = pin_center(y, height);
            Some((cx - div_trunc32(cell_extent.0, 2), cy - div_trunc32(cell_extent.1, 2)))
        },
    }
}

/// A cluster, as the temporary standard-cell placement walks it.
#[derive(Debug, PartialEq, Eq)]
pub struct StdCellPlacementCluster {
    pub is_leaf: bool,
    pub num_std_cell: i32,
    /// Every core instance reachable through the cluster's modules, nested ones included.
    pub module_core_insts: Vec<usize>,
    pub leaf_std_cells: Vec<usize>,
    pub children: Vec<usize>,
}

/// The children of each cluster.
pub open spec fn placement_children(cs: Seq<StdCellPlacementCluster>) -> Seq<Vec<usize>> {
    cs.map_values(|c: StdCellPlacementCluster| c.children)
}

/// Each instance paired with the cluster that places it.
pub open spec fn paired(insts: Seq<usize>, id: usize) -> Seq<(usize, usize)> {
    insts.map_values(|i: usize| (i, id))
}

/// What the listed clusters place, in visit order: a leaf with standard cells places its
/// modules' core instances and then its own cells, all at its centre; any other cluster
/// places nothing itself and lets its children place theirs.
pub open spec fn placed(cs: Seq<StdCellPlacementCluster>, list: Seq<usize>, fuel: nat) -> Seq<(usize, usize)>
    decreases fuel, list.len(),
{
    if list.len() == 0 {
        Seq::empty()
    } else {
        let prev = placed(cs, list.drop_last(), fuel);
        let id = list.last();
        let c = cs[id as int];
        let more = if c.is_leaf && c.num_std_cell != 0 {
            paired(c.module_core_insts@, id) + paired(c.leaf_std_cells@, id)
        } else if fuel > 0 {
            placed(cs, c.children@, (fuel - 1) as nat)
        } else {
            Seq::empty()
        };
        prev + more
    }
}

fn push_paired(out: &mut Vec<(usize, usize)>, insts: &Vec<usize>, id: usize)
    ensures
        final(out)@ == old(out)@ + paired(insts@, id),
{
    let ghost start = out@;
    let mut k: usize = 0;
    while k < insts.len()
        invariant
            k <= insts@.len(),
            out@ == start + paired(insts@, id).take(k as int),
        decreases insts@.len() - k,
    {
        out.push((insts[k], id));
        proof {
            assert(out@ =~= start + paired(insts@, id).take(k + 1));
        }
        k = k + 1;
    }
    proof {
        assert(paired(insts@, id).take(insts@.len() as int) =~= paired(insts@, id));
    }
}

fn place_into(cs: &[StdCellPlacementCluster], list: &Vec<usize>, Ghost(fuel): Ghost<nat>, out: &mut Vec<(usize, usize)>)
    requires
        within(placement_children(cs@), list@, fuel),
    ensures
        final(out)@ == old(out)@ + placed(cs@, list@, fuel),
    decreases fuel, 0nat,
{
    let ghost start = out@;
    let mut k: usize = 0;
    while k < list.len()
        invariant
            k <= list@.len(),
            within(placement_children(cs@), list@, fuel),
            out@ == start + placed(cs@, list@.take(k as int), fuel),
        decreases list@.len() - k,
    {
        let id = list[k];
        proof {
            assert(list@.take(k + 1).drop_last() =~= list@.take(k as int));
            assert(list@[k as int] < placement_children(cs@).len());
        }
        let c = &cs[id];
        if c.is_leaf && c.num_std_cell != 0 {
            push_paired(out, &c.module_core_insts, id);
            push_paired(out, &c.leaf_std_cells, id);
        } else {
            proof {
                assert(fuel > 0 && within(placement_children(cs@), placement_children(cs@)[id as int]@, (fuel - 1) as nat));
                assert(placement_children(cs@)[id as int] == cs@[id as int].children);
            }
            place_into(cs, &c.children, Ghost((fuel - 1) as nat), out);
        }
        proof {
            assert(out@ =~= start + placed(cs@, list@.take(k + 1), fuel));
        }
        k = k + 1;
    }
    proof {
        assert(list@.take(list@.len() as int) =~= list@);
    }
}

/// Where every standard cell goes before the orientation pass, in the order the database is
/// written: each placed instance with the leaf cluster that places it. Only a leaf with
/// standard cells places anything, its modules' core instances first and then its own cells;
/// a cell reachable both ways is placed twice.
pub fn temporary_std_cell_placement(clusters: &[StdCellPlacementCluster], root: usize) -> (r: Vec<(usize, usize)>)
    requires
        within(placement_children(clusters@), seq![root], clusters@.len() as nat),
    ensures
        r@ == placed(clusters@, seq![root], clusters@.len() as nat),
{
    let mut out: Vec<(usize, usize)> = Vec::new();
    let list: Vec<usize> = vec![root];
    proof {
        assert(list@ =~= seq![root]);
    }
    place_into(clusters, &list, Ghost(clusters@.len() as nat), &mut out);
    proof {
        assert(out@ =~= placed(clusters@, seq![root], clusters@.len() as nat));
    }
    out
}

/// One cluster, as the group builder sees it.
#[derive(Debug, PartialEq, Eq)]
pub struct GroupCluster {
    pub name: String,
    pub kind: AreaKind,
    pub leaf_std_cells: Vec<usize>,
    pub leaf_macros: Vec<usize>,
    /// Every leaf instance of the cluster's modules, and whether it is a block.
    pub module_insts: Vec<(usize, bool)>,
    pub children: Vec<usize>,
}

/// The children of each cluster.
pub open spec fn group_children(cs: Seq<GroupCluster>) -> Seq<Vec<usize>> {
    cs.map_values(|c: GroupCluster| c.children)
}

/// Claim the first `n` listed instances that nobody has claimed yet, in order.
pub open spec fn claim_fold(claimed: Seq<usize>, members: Seq<usize>, list: Seq<usize>, n: int) -> (Seq<usize>, Seq<usize>)
    decreases n,
{
    if n <= 0 {
        (claimed, members)
    } else {
        let (c, m) = claim_fold(claimed, members, list, n - 1);
        let x = list[n - 1];
        if c.contains(x) { (c, m) } else { (c.push(x), m.push(x)) }
    }
}

/// Sweep the first `n` module instances: skip what is claimed, and in a standard-cell
/// cluster skip blocks; claim the rest.
pub open spec fn sweep_fold(claimed: Seq<usize>, members: Seq<usize>, mods: Seq<(usize, bool)>, std_cell: bool, n: int) -> (Seq<usize>, Seq<usize>)
    decreases n,
{
    if n <= 0 {
        (claimed, members)
    } else {
        let (c, m) = sweep_fold(claimed, members, mods, std_cell, n - 1);
        let (x, is_block) = mods[n - 1];
        if c.contains(x) || (is_block && std_cell) { (c, m) } else { (c.push(x), m.push(x)) }
    }
}

/// The claimed instances and the groups after the listed clusters: an IO cluster makes no
/// group and is not entered; any other claims its leaf cells and macros, opens its group,
/// lets its children claim theirs, then sweeps its modules.
pub open spec fn grouped(
    cs: Seq<GroupCluster>,
    list: Seq<usize>,
    claimed: Seq<usize>,
    out: Seq<(Seq<char>, Seq<usize>)>,
    fuel: nat,
) -> (Seq<usize>, Seq<(Seq<char>, Seq<usize>)>)
    decreases fuel, list.len(),
{
    if list.len() == 0 {
        (claimed, out)
    } else {
        let (c0, o0) = grouped(cs, list.drop_last(), claimed, out, fuel);
        let g = cs[list.last() as int];
        if g.kind == AreaKind::IoCluster {
            (c0, o0)
        } else {
            let (c1, m1) = claim_fold(c0, Seq::empty(), g.leaf_std_cells@, g.leaf_std_cells@.len() as int);
            let (c2, m2) = claim_fold(c1, m1, g.leaf_macros@, g.leaf_macros@.len() as int);
            let slot = o0.len() as int;
            let o1 = o0.push((g.name@, Seq::<usize>::empty()));
            let (c3, o2) = if fuel > 0 { grouped(cs, g.children@, c2, o1, (fuel - 1) as nat) } else { (c2, o1) };
            let (c4, m3) = sweep_fold(c3, m2, g.module_insts@, g.kind == AreaKind::StdCellCluster, g.module_insts@.len() as int);
            (c4, o2.update(slot, (g.name@, m3)))
        }
    }
}

/// The groups as text and instance lists.
pub open spec fn groups_view(out: Seq<(String, Vec<usize>)>) -> Seq<(Seq<char>, Seq<usize>)> {
    out.map_values(|e: (String, Vec<usize>)| (e.0@, e.1@))
}

fn listed_in(v: &Vec<usize>, x: usize) -> (r: bool)
    ensures
        r == v@.contains(x),
{
    let mut k: usize = 0;
    while k < v.len()
        invariant
            k <= v@.len(),
            forall|j: int| 0 <= j < k ==> v@[j] != x,
        decreases v@.len() - k,
    {
        if v[k] == x {
            proof {
                assert(v@[k as int] == x);
            }
            return true;
        }
        k = k + 1;
    }
    false
}

fn claim_into(claimed: &mut Vec<usize>, members: &mut Vec<usize>, list: &Vec<usize>)
    ensures
        (final(claimed)@, final(members)@) == claim_fold(old(claimed)@, old(members)@, list@, list@.len() as int),
{
    let ghost c0 = claimed@;
    let ghost m0 = members@;
    let mut k: usize = 0;
    while k < list.len()
        invariant
            k <= list@.len(),
            (claimed@, members@) == claim_fold(c0, m0, list@, k as int),
        decreases list@.len() - k,
    {
        let x = list[k];
        if !listed_in(claimed, x) {
            claimed.push(x);
            members.push(x);
        }
        k = k + 1;
    }
}

fn sweep_into(claimed: &mut Vec<usize>, members: &mut Vec<usize>, mods: &Vec<(usize, bool)>, std_cell: bool)
    ensures
        (final(claimed)@, final(members)@) == sweep_fold(old(claimed)@, old(members)@, mods@, std_cell, mods@.len() as int),
{
    let ghost c0 = claimed@;
    let ghost m0 = members@;
    let mut k: usize = 0;
    while k < mods.len()
        invariant
            k <= mods@.len(),
            (claimed@, members@) == sweep_fold(c0, m0, mods@, std_cell, k as int),
        decreases mods@.len() - k,
    {
        let (x, is_block) = mods[k];
        if !(listed_in(claimed, x) || (is_block && std_cell)) {
            claimed.push(x);
            members.push(x);
        }
        k = k + 1;
    }
}

fn group_into(
    cs: &[GroupCluster],
    list: &Vec<usize>,
    Ghost(fuel): Ghost<nat>,
    claimed: &mut Vec<usize>,
    out: &mut Vec<(String, Vec<usize>)>,
)
    requires
        within(group_children(cs@), list@, fuel),
    ensures
        (final(claimed)@, groups_view(final(out)@)) == grouped(cs@, list@, old(claimed)@, groups_view(old(out)@), fuel),
        final(out)@.len() >= old(out)@.len(),
    decreases fuel, 0nat,
{
    let ghost c_start = claimed@;
    let ghost o_start = groups_view(out@);
    let ghost len_start = out@.len();
    let mut k: usize = 0;
    while k < list.len()
        invariant
            k <= list@.len(),
            within(group_children(cs@), list@, fuel),
            (claimed@, groups_view(out@)) == grouped(cs@, list@.take(k as int), c_start, o_start, fuel),
            out@.len() >= len_start,
        decreases list@.len() - k,
    {
        let id = list[k];
        proof {
            assert(list@.take(k + 1).drop_last() =~= list@.take(k as int));
            assert(list@[k as int] < group_children(cs@).len());
        }
        let g = &cs[id];
        if g.kind != AreaKind::IoCluster {
            let ghost o0 = groups_view(out@);
            let mut members: Vec<usize> = Vec::new();
            claim_into(claimed, &mut members, &g.leaf_std_cells);
            claim_into(claimed, &mut members, &g.leaf_macros);
            let slot = out.len();
            let ghost before_push = out@;
            out.push((g.name.clone(), Vec::new()));
            proof {
                assert(groups_view(out@) =~= groups_view(before_push).push((g.name@, Seq::<usize>::empty())));
                assert(fuel > 0 && within(group_children(cs@), group_children(cs@)[id as int]@, (fuel - 1) as nat));
                assert(group_children(cs@)[id as int] == cs@[id as int].children);
            }
            group_into(cs, &g.children, Ghost((fuel - 1) as nat), claimed, out);
            sweep_into(claimed, &mut members, &g.module_insts, g.kind == AreaKind::StdCellCluster);
            let ghost before_set = out@;
            out.set(slot, (g.name.clone(), members));
            proof {
                assert(groups_view(out@) =~= groups_view(before_set).update(slot as int, (g.name@, members@)));
            }
        }
        proof {
            assert((claimed@, groups_view(out@)) == grouped(cs@, list@.take(k + 1), c_start, o_start, fuel));
        }
        k = k + 1;
    }
    proof {
        assert(list@.take(list@.len() as int) =~= list@);
    }
}

/// The groups made from the cluster tree, nested as the tree is, each with the instances it
/// claims: a cluster claims its leaf cells and macros, its children claim theirs, and only
/// then does it sweep its modules' instances, skipping what is claimed and, in a
/// standard-cell cluster, blocks. An IO cluster gets no group and is not entered. An
/// instance is claimed once.
pub fn create_groups(clusters: &[GroupCluster], root: usize) -> (r: Vec<(String, Vec<usize>)>)
    requires
        within(group_children(clusters@), seq![root], clusters@.len() as nat),
    ensures
        groups_view(r@) == grouped(clusters@, seq![root], Seq::empty(), Seq::empty(), clusters@.len() as nat).1,
{
    let mut claimed: Vec<usize> = Vec::new();
    let mut out: Vec<(String, Vec<usize>)> = Vec::new();
    let list: Vec<usize> = vec![root];
    proof {
        assert(list@ =~= seq![root]);
        assert(groups_view(out@) =~= Seq::<(Seq<char>, Seq<usize>)>::empty());
    }
    group_into(clusters, &list, Ghost(clusters@.len() as nat), &mut claimed, &mut out);
    out
}

/// Everything the fetch returns is a macro cluster.
pub proof fn lemma_fetched_are_macro_clusters(types: Seq<ClusterType>, children: Seq<Vec<usize>>, list: Seq<usize>, fuel: nat)
    requires
        types.len() == children.len(),
        within(children, list, fuel),
    ensures
        forall|k: int| 0 <= k < fetched(types, children, list, fuel).len()
            ==> types[#[trigger] fetched(types, children, list, fuel)[k] as int] == ClusterType::HardMacro,
    decreases fuel, list.len(),
{
    if list.len() > 0 {
        let prev_list = list.drop_last();
        assert forall|k: int| 0 <= k < prev_list.len() implies {
            &&& #[trigger] prev_list[k] < children.len()
            &&& fuel > 0 && within(children, children[prev_list[k] as int]@, (fuel - 1) as nat)
        } by {
            assert(prev_list[k] == list[k]);
        }
        lemma_fetched_are_macro_clusters(types, children, prev_list, fuel);
        let c = list.last();
        assert(list[list.len() - 1] == c);
        if types[c as int] == ClusterType::Mixed && fuel > 0 {
            lemma_fetched_are_macro_clusters(types, children, children[c as int]@, (fuel - 1) as nat);
        }
        let prev = fetched(types, children, prev_list, fuel);
        let r = fetched(types, children, list, fuel);
        assert forall|k: int| 0 <= k < r.len() implies types[#[trigger] r[k] as int] == ClusterType::HardMacro by {
            if k < prev.len() {
                assert(r[k] == prev[k]);
            }
        }
    }
}

/// Every placed cell is placed by a leaf that has standard cells.
pub proof fn lemma_placed_by_leaves(cs: Seq<StdCellPlacementCluster>, list: Seq<usize>, fuel: nat)
    requires
        within(placement_children(cs), list, fuel),
    ensures
        forall|k: int| 0 <= k < placed(cs, list, fuel).len() ==> {
            let c = cs[(#[trigger] placed(cs, list, fuel)[k]).1 as int];
            c.is_leaf && c.num_std_cell != 0
        },
    decreases fuel, list.len(),
{
    if list.len() > 0 {
        let prev_list = list.drop_last();
        lemma_within_prefix(placement_children(cs), list, fuel, list.len() - 1);
        assert(list.take(list.len() - 1) =~= prev_list);
        lemma_placed_by_leaves(cs, prev_list, fuel);
        let id = list.last();
        assert(list[list.len() - 1] == id);
        let c = cs[id as int];
        if !(c.is_leaf && c.num_std_cell != 0) && fuel > 0 {
            assert(placement_children(cs)[id as int] == c.children);
            lemma_placed_by_leaves(cs, c.children@, (fuel - 1) as nat);
        }
        let prev = placed(cs, prev_list, fuel);
        let r = placed(cs, list, fuel);
        assert forall|k: int| 0 <= k < r.len() implies ({
            let cc = cs[(#[trigger] r[k]).1 as int];
            cc.is_leaf && cc.num_std_cell != 0
        }) by {
            if k < prev.len() {
                assert(r[k] == prev[k]);
            } else if c.is_leaf && c.num_std_cell != 0 {
                let own = paired(c.module_core_insts@, id) + paired(c.leaf_std_cells@, id);
                assert(r[k] == own[k - prev.len()]);
                assert(own[k - prev.len()].1 == id);
            } else {
                let sub = placed(cs, c.children@, (fuel - 1) as nat);
                assert(r[k] == sub[k - prev.len()]);
            }
        }
    }
}

} // verus!
