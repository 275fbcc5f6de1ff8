//! Assembling one parent's placement problem: the macro list in the order every net, fence
//! and guide indexes it, and writing the annealed macros back.

use crate::anneal::SoftMacro;
use crate::options::MplError;
use crate::placement::blockages::{AreaKind, Bbox, merged_region, merged_region_of};
use crate::text::{dec_int, push_signed};
use vstd::prelude::*;

verus! {

/// The error when no run produced a valid solution: MPL-40 at the root, which blames the core
/// utilization; MPL-8 below it, naming the cluster.
pub fn no_valid_solution_error(is_root: bool, cluster_id: i32, cluster_name: &str) -> (e: MplError)
    ensures
        is_root ==> e.code == 40 && e.message@ == "Annealing engine failed to find a valid solution. Core utilization is probably too high. Please, reduce it and try again."@,
        !is_root ==> e.code == 8 && e.message@ == "Annealing engine failed to find a valid solution. Please, report this internal error.\nFailed at cluster ("@
            + dec_int(cluster_id as int) + "): "@ + cluster_name@,
{
    if is_root {
        MplError::new(
            40,
            "Annealing engine failed to find a valid solution. Core utilization is probably too high. Please, reduce it and try again.",
        )
    } else {
        let mut message = String::from_str(
            "Annealing engine failed to find a valid solution. Please, report this internal error.\nFailed at cluster (",
        );
        push_signed(&mut message, cluster_id as i64);
        message.append("): ");
        message.append(cluster_name);
        MplError { code: 8, message }
    }
}

/// One child of the parent being placed: its name, kind, soft macro, and the fence and guide
/// merged over its hard macros, in the die's coordinates.
#[derive(Debug)]
pub struct AssemblyChild {
    pub name: String,
    pub kind: AreaKind,
    pub macro_: SoftMacro,
    pub fence: Option<Bbox>,
    pub guide: Option<Bbox>,
}

/// The placement problem for one parent.
#[derive(Debug)]
pub struct Assembly {
    pub macros: Vec<SoftMacro>,
    /// Name to macro id, in insertion order.
    pub id_of: Vec<(String, usize)>,
    /// The macros before this count are the ones the sequence pair moves.
    pub number_of_sequence_pair_macros: usize,
    pub fences: Vec<(usize, Bbox)>,
    pub guides: Vec<(usize, Bbox)>,
}

/// A name paired with an id, as text.
pub type NamedId = (Seq<char>, usize);

/// The problem after the first `n` children: the macros, the names bound so far, the fences,
/// the guides, and the IO clusters held back, by child index.
pub open spec fn assembly_walk(
    base: Seq<SoftMacro>,
    children: Seq<AssemblyChild>,
    outline: Bbox,
    n: int,
) -> (Seq<SoftMacro>, Seq<NamedId>, Seq<(usize, Bbox)>, Seq<(usize, Bbox)>, Seq<int>)
    decreases n,
{
    if n <= 0 {
        (base, Seq::empty(), Seq::empty(), Seq::empty(), Seq::empty())
    } else {
        let (ms, names, fences, guides, deferred) = assembly_walk(base, children, outline, n - 1);
        let child = children[n - 1];
        if child.kind == AreaKind::IoCluster {
            (ms, names, fences, guides, deferred.push(n - 1))
        } else {
            let id = ms.len() as usize;
            let ms2 = ms.push(child.macro_);
            let names2 = names.push((child.name@, id));
            if child.kind == AreaKind::FixedMacro || child.kind == AreaKind::StdCellCluster {
                (ms2, names2, fences, guides, deferred)
            } else {
                let fences2 = match child.fence {
                    Some(f) => match merged_region_of(seq![f], outline) {
                        Some(c) => fences.push((id, c)),
                        None => fences,
                    },
                    None => fences,
                };
                let guides2 = match child.guide {
                    Some(g) => match merged_region_of(seq![g], outline) {
                        Some(c) => guides.push((id, c)),
                        None => guides,
                    },
                    None => guides,
                };
                (ms2, names2, fences2, guides2, deferred)
            }
        }
    }
}

/// The held-back IO clusters and then the terminals appended after the sequence-pair macros.
pub open spec fn appended_macros(children: Seq<AssemblyChild>, deferred: Seq<int>, terminals: Seq<(String, SoftMacro)>) -> Seq<SoftMacro> {
    deferred.map_values(|k: int| children[k].macro_) + terminals.map_values(|t: (String, SoftMacro)| t.1)
}

/// The names of the held-back IO clusters and the terminals, as text.
pub open spec fn appended_names(children: Seq<AssemblyChild>, deferred: Seq<int>, terminals: Seq<(String, SoftMacro)>) -> Seq<Seq<char>> {
    deferred.map_values(|k: int| children[k].name@) + terminals.map_values(|t: (String, SoftMacro)| t.0@)
}

/// The names bound in an assembly, as text with their ids.
pub open spec fn names_of(a: Seq<(String, usize)>) -> Seq<NamedId> {
    a.map_values(|p: (String, usize)| (p.0@, p.1))
}

/// The outline's extents fit 32 bits, so the regions clipped to it rebase on its corner.
pub open spec fn outline_ok(outline: Bbox) -> bool {
    &&& outline.2 - outline.0 <= i32::MAX
    &&& outline.3 - outline.1 <= i32::MAX
}

/// Build one parent's macro list: the blockages first, then the children in order with the IO
/// clusters held back, the sequence-pair count taken there, then the held-back IO clusters and
/// the fixed terminals. A fixed macro cluster or a standard-cell cluster gets an id but no fence
/// and no guide; blockages get ids but no names.
pub fn assemble(
    blockages: &[SoftMacro],
    children: &[AssemblyChild],
    outline: Bbox,
    terminals: &[(String, SoftMacro)],
) -> (a: Assembly)
    requires
        outline_ok(outline),
        blockages@.len() + children@.len() + terminals@.len() <= usize::MAX,
    ensures
        ({
            let (ms, names, fences, guides, deferred) = assembly_walk(blockages@, children@, outline, children@.len() as int);
            let tail = appended_names(children@, deferred, terminals@);
            &&& a.macros@ == ms + appended_macros(children@, deferred, terminals@)
            &&& a.number_of_sequence_pair_macros == ms.len()
            &&& a.fences@ == fences
            &&& a.guides@ == guides
            &&& a.id_of@.len() == names.len() + tail.len()
            &&& forall|k: int| 0 <= k < names.len() ==> #[trigger] names_of(a.id_of@)[k] == names[k]
            &&& forall|k: int| 0 <= k < tail.len() ==> #[trigger] names_of(a.id_of@)[names.len() + k] == (tail[k], (ms.len() + k) as usize)
        }),
{
    let mut macros: Vec<SoftMacro> = Vec::new();
    let mut b: usize = 0;
    while b < blockages.len()
        invariant
            b <= blockages@.len(),
            macros@ == blockages@.take(b as int),
        decreases blockages@.len() - b,
    {
        macros.push(blockages[b]);
        proof {
            assert(macros@ =~= blockages@.take(b + 1));
        }
        b = b + 1;
    }
    proof {
        assert(blockages@.take(blockages@.len() as int) =~= blockages@);
    }
    let mut id_of: Vec<(String, usize)> = Vec::new();
    let mut fences: Vec<(usize, Bbox)> = Vec::new();
    let mut guides: Vec<(usize, Bbox)> = Vec::new();
    let mut deferred: Vec<usize> = Vec::new();
    let mut k: usize = 0;
    while k < children.len()
        invariant
            k <= children@.len(),
            outline_ok(outline),
            blockages@.len() + children@.len() + terminals@.len() <= usize::MAX,
            deferred@.len() <= k,
            macros@.len() == blockages@.len() + k - deferred@.len(),
            ({
                let (ms, names, fs, gs, dd) = assembly_walk(blockages@, children@, outline, k as int);
                &&& macros@ == ms
                &&& names_of(id_of@) == names
                &&& fences@ == fs
                &&& guides@ == gs
                &&& deferred@.map_values(|d: usize| d as int) == dd
            }),
            forall|d: int| 0 <= d < deferred@.len() ==> #[trigger] deferred@[d] < k,
        decreases children@.len() - k,
    {
        let child = &children[k];
        match child.kind {
            AreaKind::IoCluster => {
                deferred.push(k);
                proof {
                    let (ms, names, fs, gs, dd) = assembly_walk(blockages@, children@, outline, k as int);
                    assert(deferred@.map_values(|d: usize| d as int) =~= dd.push(k as int));
                }
            },
            _ => {
                let id = macros.len();
                let ghost names_before = id_of@;
                id_of.push((child.name.clone(), id));
                macros.push(child.macro_);
                proof {
                    assert(names_of(id_of@) =~= names_of(names_before).push((child.name@, id)));
                }
                let skip = match child.kind {
                    AreaKind::FixedMacro | AreaKind::StdCellCluster => true,
                    _ => false,
                };
                if !skip {
                    match child.fence {
                        Some(fence) => {
                            let one = [fence];
                            proof {
                                assert(one@ =~= seq![fence]);
                            }
                            match merged_region(&one, outline) {
                                Some(clipped) => fences.push((id, clipped)),
                                None => {},
                            }
                        },
                        None => {},
                    }
                    match child.guide {
                        Some(guide) => {
                            let one = [guide];
                            proof {
                                assert(one@ =~= seq![guide]);
                            }
                            match merged_region(&one, outline) {
                                Some(clipped) => guides.push((id, clipped)),
                                None => {},
                            }
                        },
                        None => {},
                    }
                }
            },
        }
        k = k + 1;
    }
    let ghost walked = assembly_walk(blockages@, children@, outline, children@.len() as int);
    let number_of_sequence_pair_macros = macros.len();
    let ghost ms_done = macros@;
    let ghost names_done = id_of@;
    let mut d: usize = 0;
    while d < deferred.len()
        invariant
            d <= deferred@.len(),
            deferred@.map_values(|e: usize| e as int) == walked.4,
            forall|e: int| 0 <= e < deferred@.len() ==> #[trigger] deferred@[e] < children@.len(),
            macros@ == ms_done + walked.4.take(d as int).map_values(|e: int| children@[e].macro_),
            ms_done.len() + deferred@.len() == blockages@.len() + children@.len(),
            blockages@.len() + children@.len() + terminals@.len() <= usize::MAX,
            id_of@.len() == names_done.len() + d,
            forall|j: int| 0 <= j < names_done.len() ==> #[trigger] names_of(id_of@)[j] == names_of(names_done)[j],
            forall|j: int| 0 <= j < d ==> #[trigger] names_of(id_of@)[names_done.len() + j] == (children@[walked.4[j]].name@, (ms_done.len() + j) as usize),
        decreases deferred@.len() - d,
    {
        let e = deferred[d];
        let child = &children[e];
        let id = macros.len();
        let ghost names_before = id_of@;
        id_of.push((child.name.clone(), id));
        macros.push(child.macro_);
        proof {
            assert(names_of(id_of@) =~= names_of(names_before).push((child.name@, id)));
            assert(walked.4[d as int] == e as int);
            assert(walked.4.take(d + 1) =~= walked.4.take(d as int).push(e as int));
            assert(macros@ =~= ms_done + walked.4.take(d + 1).map_values(|e: int| children@[e].macro_));
        }
        d = d + 1;
    }
    proof {
        assert(walked.4.take(d as int) =~= walked.4);
    }
    let ghost ms_io = macros@;
    let ghost names_io = id_of@;
    let mut t: usize = 0;
    while t < terminals.len()
        invariant
            t <= terminals@.len(),
            macros@ == ms_io + terminals@.take(t as int).map_values(|p: (String, SoftMacro)| p.1),
            ms_io.len() == blockages@.len() + children@.len(),
            blockages@.len() + children@.len() + terminals@.len() <= usize::MAX,
            id_of@.len() == names_io.len() + t,
            forall|j: int| 0 <= j < names_io.len() ==> #[trigger] names_of(id_of@)[j] == names_of(names_io)[j],
            forall|j: int| 0 <= j < t ==> #[trigger] names_of(id_of@)[names_io.len() + j] == (terminals@[j].0@, (ms_io.len() + j) as usize),
        decreases terminals@.len() - t,
    {
        let id = macros.len();
        let ghost names_before = id_of@;
        id_of.push((terminals[t].0.clone(), id));
        macros.push(terminals[t].1);
        proof {
            assert(names_of(id_of@) =~= names_of(names_before).push((terminals@[t as int].0@, id)));
            assert(macros@ =~= ms_io + terminals@.take(t + 1).map_values(|p: (String, SoftMacro)| p.1));
        }
        t = t + 1;
    }
    proof {
        assert(terminals@.take(terminals@.len() as int) =~= terminals@);
        let tail = appended_names(children@, walked.4, terminals@);
        let dl = walked.4.len() as int;
        assert(names_of(names_done).len() == names_done.len());
        assert(names_done.len() == walked.1.len());
        assert(ms_done == walked.0);
        assert(ms_io.len() == ms_done.len() + dl);
        assert(names_io.len() == names_done.len() + dl);
        assert forall|j: int| 0 <= j < tail.len() implies #[trigger] names_of(id_of@)[walked.1.len() + j] == (tail[j], (walked.0.len() + j) as usize) by {
            if j < dl {
                assert(names_of(id_of@)[names_done.len() + j] == names_of(names_io)[names_done.len() + j]);
                assert(names_of(names_io)[names_done.len() + j] == (children@[walked.4[j]].name@, (ms_done.len() + j) as usize));
                assert(tail[j] == children@[walked.4[j]].name@);
            } else {
                let t2 = j - dl;
                assert(names_of(id_of@)[names_io.len() + t2] == (terminals@[t2].0@, (ms_io.len() + t2) as usize));
                assert(tail[j] == terminals@[t2].0@);
            }
        }
    }
    Assembly { macros, id_of, number_of_sequence_pair_macros, fences, guides }
}

/// The id of the last binding of `name` among the first `n`, if any.
pub open spec fn last_binding(names: Seq<NamedId>, name: Seq<char>, n: int) -> Option<usize>
    decreases n,
{
    if n <= 0 {
        None
    } else if names[n - 1].0 == name {
        Some(names[n - 1].1)
    } else {
        last_binding(names, name, n - 1)
    }
}

impl Assembly {
    /// The id a name was given, the last binding winning, or `None`.
    pub fn id(&self, name: &str) -> (r: Option<usize>)
        ensures
            r == last_binding(names_of(self.id_of@), name@, self.id_of@.len() as int),
    {
        let key = String::from_str(name);
        let mut k = self.id_of.len();
        while k > 0
            invariant
                k <= self.id_of@.len(),
                key@ == name@,
                last_binding(names_of(self.id_of@), name@, self.id_of@.len() as int) == last_binding(names_of(self.id_of@), name@, k as int),
            decreases k,
        {
            let same = self.id_of[k - 1].0 == key;
            if same {
                return Some(self.id_of[k - 1].1);
            }
            k = k - 1;
        }
        None
    }
}

/// What `placeChildren` does when handed a cluster.
#[derive(Debug, Clone, Copy, PartialEq, Eq, Structural)]
pub enum PlacementAction {
    /// A hard-macro cluster: hand it to macro placement.
    PlaceMacros,
    /// A fixed macro cluster: it reaches macro placement and is refused there.
    PlaceMacrosButRefused,
    /// A leaf: nothing to place.
    Nothing,
    /// Place this cluster's children, then recurse into each of them.
    PlaceChildren,
}

/// The macro-cluster test comes first, then the leaf test.
pub fn placement_action(kind: AreaKind, is_fixed_macro: bool, is_leaf: bool) -> (r: PlacementAction)
    ensures
        r == if kind == AreaKind::HardMacroCluster || is_fixed_macro {
            if is_fixed_macro { PlacementAction::PlaceMacrosButRefused } else { PlacementAction::PlaceMacros }
        } else if is_leaf {
            PlacementAction::Nothing
        } else {
            PlacementAction::PlaceChildren
        },
{
    let hard = match kind {
        AreaKind::HardMacroCluster => true,
        _ => false,
    };
    if hard || is_fixed_macro {
        return if is_fixed_macro { PlacementAction::PlaceMacrosButRefused } else { PlacementAction::PlaceMacros };
    }
    if is_leaf {
        return PlacementAction::Nothing;
    }
    PlacementAction::PlaceChildren
}

/// A child named in the tree but not in the assembled problem.
#[derive(Debug, Clone, PartialEq, Eq)]
pub struct UnknownChild(pub String);

/// The annealed macro of each child that is not an IO cluster, by its id in the assembly, in
/// child order; the first child missing from the assembly is refused.
pub open spec fn shaped_walk(children: Seq<(String, AreaKind)>, shaped: Seq<SoftMacro>, names: Seq<NamedId>, n: int) -> Result<Seq<(Seq<char>, SoftMacro)>, Seq<char>>
    decreases n,
{
    if n <= 0 {
        Ok(Seq::empty())
    } else {
        match shaped_walk(children, shaped, names, n - 1) {
            Err(e) => Err(e),
            Ok(out) => {
                let (name, kind) = children[n - 1];
                if kind == AreaKind::IoCluster {
                    Ok(out)
                } else {
                    match last_binding(names, name@, names.len() as int) {
                        None => Err(name@),
                        Some(id) => Ok(out.push((name@, shaped[id as int]))),
                    }
                }
            },
        }
    }
}

/// Every id the assembly binds indexes the annealed macros.
pub open spec fn ids_in_range(names: Seq<NamedId>, n_shaped: int) -> bool {
    forall|k: int| 0 <= k < names.len() ==> #[trigger] names[k].1 < n_shaped
}

proof fn lemma_last_binding_in(names: Seq<NamedId>, name: Seq<char>, n: int)
    requires
        0 <= n <= names.len(),
    ensures
        last_binding(names, name, n) matches Some(id) ==> exists|k: int| 0 <= k < n && #[trigger] names[k].1 == id,
    decreases n,
{
    if n > 0 {
        lemma_last_binding_in(names, name, n - 1);
        if names[n - 1].0 == name {
            assert(names[n - 1].1 == names[n - 1].1);
        }
    }
}

/// Write each annealed macro back: every child but the IO clusters, whose own soft macros are
/// authoritative, takes the macro its name was bound to, the whole macro.
pub fn update_children_shapes_and_locations(
    children: &[(String, AreaKind)],
    shaped: &[SoftMacro],
    assembly: &Assembly,
) -> (r: Result<Vec<(String, SoftMacro)>, UnknownChild>)
    requires
        ids_in_range(names_of(assembly.id_of@), shaped@.len() as int),
    ensures
        match r {
            Ok(v) => shaped_walk(children@, shaped@, names_of(assembly.id_of@), children@.len() as int) == Ok::<Seq<(Seq<char>, SoftMacro)>, Seq<char>>(
                v@.map_values(|p: (String, SoftMacro)| (p.0@, p.1)),
            ),
            Err(UnknownChild(n)) => shaped_walk(children@, shaped@, names_of(assembly.id_of@), children@.len() as int) == Err::<Seq<(Seq<char>, SoftMacro)>, Seq<char>>(n@),
        },
{
    let mut out: Vec<(String, SoftMacro)> = Vec::new();
    let mut k: usize = 0;
    proof {
        assert(out@.map_values(|p: (String, SoftMacro)| (p.0@, p.1)) =~= Seq::<(Seq<char>, SoftMacro)>::empty());
    }
    while k < children.len()
        invariant
            k <= children@.len(),
            ids_in_range(names_of(assembly.id_of@), shaped@.len() as int),
            shaped_walk(children@, shaped@, names_of(assembly.id_of@), k as int) == Ok::<Seq<(Seq<char>, SoftMacro)>, Seq<char>>(
                out@.map_values(|p: (String, SoftMacro)| (p.0@, p.1)),
            ),
        decreases children@.len() - k,
    {
        let is_io = match children[k].1 {
            AreaKind::IoCluster => true,
            _ => false,
        };
        if !is_io {
            let found = assembly.id(children[k].0.as_str());
            match found {
                None => {
                    proof {
                        lemma_shaped_err_stays(children@, shaped@, names_of(assembly.id_of@), k + 1, children@.len() as int);
                    }
                    return Err(UnknownChild(children[k].0.clone()));
                },
                Some(id) => {
                    proof {
                        let names = names_of(assembly.id_of@);
                        lemma_last_binding_in(names, children@[k as int].0@, names.len() as int);
                        let j = choose|j: int| 0 <= j < names.len() && #[trigger] names[j].1 == id;
                        assert(id < shaped@.len());
                    }
                    let ghost before = out@;
                    out.push((children[k].0.clone(), shaped[id]));
                    proof {
                        assert(out@.map_values(|p: (String, SoftMacro)| (p.0@, p.1)) =~= before.map_values(|p: (String, SoftMacro)| (p.0@, p.1)).push((children@[k as int].0@, shaped@[id as int])));
                    }
                },
            }
        }
        k = k + 1;
    }
    Ok(out)
}

proof fn lemma_shaped_err_stays(children: Seq<(String, AreaKind)>, shaped: Seq<SoftMacro>, names: Seq<NamedId>, k: int, n: int)
    requires
        0 <= k <= n,
        shaped_walk(children, shaped, names, k) is Err,
    ensures
        shaped_walk(children, shaped, names, n) == shaped_walk(children, shaped, names, k),
    decreases n - k,
{
    if k < n {
        lemma_shaped_err_stays(children, shaped, names, k, n - 1);
    }
}

/// The cluster placement rule: at least as many perturbations as there are macros.
pub fn cluster_perturbations_per_step(num_perturb_per_step: i32, macro_count: i32) -> (r: i32)
    ensures
        r == if macro_count >= num_perturb_per_step { macro_count } else { num_perturb_per_step },
{
    if macro_count >= num_perturb_per_step { macro_count } else { num_perturb_per_step }
}

/// The macro placement rule: a tenth of the configured count as the floor; a cluster with more
/// macros than that is perturbed once per macro, and a large macro array gets the full count.
pub fn macro_perturbations_per_step(num_perturb_per_step: i32, macro_count: i32, is_macro_array: bool) -> (r: i32)
    ensures
        ({
            let minimum = crate::arith::quot(num_perturb_per_step as int, 10);
            r == if is_macro_array && macro_count > minimum {
                num_perturb_per_step as int
            } else if macro_count > minimum {
                macro_count as int
            } else {
                minimum
            }
        }),
{
    let minimum = crate::arith::div_trunc32(num_perturb_per_step, 10);
    let large = macro_count > minimum;
    if is_macro_array && large {
        return num_perturb_per_step;
    }
    if large {
        macro_count
    } else {
        minimum
    }
}

} // verus!
