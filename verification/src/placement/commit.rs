//! What is written back to the database once macros are placed, and the temporary
//! one-macro clusters that macro placement works on.

use vstd::prelude::*;

verus! {

/// What writing a macro back does, in order: orientation before location, since setting the
/// orientation mirrors the macro and moves its corner; left placed, not locked, so the
/// orientation pass can still move it.
#[derive(Debug, Clone, Copy, PartialEq, Eq)]
pub struct MacroCommit {
    pub orientation_first: bool,
    pub location: (i32, i32),
    pub locked: bool,
}

/// A macro written back at its real location, without the halo; a fixed instance is not
/// written at all.
pub fn commit_macro(inst_is_fixed: bool, real_location: (i32, i32)) -> (r: Option<MacroCommit>)
    ensures
        inst_is_fixed ==> r is None,
        !inst_is_fixed ==> r == Some(MacroCommit { orientation_first: true, location: real_location, locked: false }),
{
    if inst_is_fixed {
        return None;
    }
    Some(MacroCommit { orientation_first: true, location: real_location, locked: false })
}

/// The halo a macro carries, as the final commit sees it.
#[derive(Debug, Clone, Copy, PartialEq, Eq, Structural)]
pub enum HaloKind {
    NoHalo,
    Soft,
    Hard,
}

/// A soft halo gets no blockage, since placers already honour soft halos; a hard halo or none
/// does.
pub fn needs_halo_blockage(halo: HaloKind) -> (r: bool)
    ensures
        r == (halo != HaloKind::Soft),
{
    match halo {
        HaloKind::Soft => false,
        _ => true,
    }
}

/// What the final commit does to one macro.
#[derive(Debug, Clone, Copy, PartialEq, Eq, Structural)]
pub struct FinalCommit {
    pub snapped: bool,
    pub locked: bool,
    pub blockage: bool,
}

/// A movable macro is snapped and locked; a fixed one is neither. The blockage does not
/// depend on being fixed: every macro without a soft halo casts one.
pub fn final_commit(inst_is_fixed: bool, halo: HaloKind) -> (r: FinalCommit)
    ensures
        r == (FinalCommit { snapped: !inst_is_fixed, locked: !inst_is_fixed, blockage: halo != HaloKind::Soft }),
{
    FinalCommit { snapped: !inst_is_fixed, locked: !inst_is_fixed, blockage: needs_halo_blockage(halo) }
}

/// One temporary cluster: named after its macro, with an id from the engine's counter, and
/// the index the macro takes in the annealer's list.
#[derive(Debug, PartialEq, Eq)]
pub struct TempMacroCluster {
    pub name: String,
    pub cluster_id: i32,
    pub macro_id: usize,
}

/// The temporary clusters, the number of distinct masters among their macros, and the
/// counter's value afterwards.
#[derive(Debug, PartialEq, Eq)]
pub struct TempMacroClusters {
    pub clusters: Vec<TempMacroCluster>,
    pub distinct_masters: usize,
    pub next_cluster_id: i32,
}

/// The smaller of two counts.
pub open spec fn min_len(a: nat, b: nat) -> nat {
    if a <= b { a } else { b }
}

/// One temporary cluster per macro, with consecutive ids from the engine's counter, which is
/// never rewound; each macro's index is its position. The masters of the macros that have one
/// are counted once each.
pub fn temp_macro_clusters(macro_names: &[String], masters: &[usize], first_id: i32) -> (r: TempMacroClusters)
    requires
        first_id + macro_names@.len() <= i32::MAX,
    ensures
        r.clusters@.len() == macro_names@.len(),
        forall|k: int| 0 <= k < macro_names@.len() ==> {
            &&& (#[trigger] r.clusters@[k]).name@ == macro_names@[k]@
            &&& r.clusters@[k].cluster_id == first_id + k
            &&& r.clusters@[k].macro_id == k
        },
        r.next_cluster_id == first_id + macro_names@.len(),
        r.distinct_masters == masters@.take(min_len(macro_names@.len(), masters@.len()) as int).to_set().len(),
{
    let mut clusters: Vec<TempMacroCluster> = Vec::new();
    let mut seen: Vec<usize> = Vec::new();
    let mut next: i32 = first_id;
    let mut index: usize = 0;
    while index < macro_names.len()
        invariant
            index <= macro_names@.len(),
            first_id + macro_names@.len() <= i32::MAX,
            next == first_id + index,
            clusters@.len() == index,
            forall|k: int| 0 <= k < index ==> {
                &&& (#[trigger] clusters@[k]).name@ == macro_names@[k]@
                &&& clusters@[k].cluster_id == first_id + k
                &&& clusters@[k].macro_id == k
            },
            seen@.no_duplicates(),
            seen@.to_set() == masters@.take(min_len(index as nat, masters@.len()) as int).to_set(),
        decreases macro_names@.len() - index,
    {
        clusters.push(TempMacroCluster { name: macro_names[index].clone(), cluster_id: next, macro_id: index });
        if index < masters.len() {
            let master = masters[index];
            let mut present = false;
            let mut j: usize = 0;
            while j < seen.len()
                invariant
                    j <= seen@.len(),
                    present == seen@.take(j as int).contains(master),
                decreases seen@.len() - j,
            {
                if seen[j] == master {
                    present = true;
                }
                proof {
                    assert(seen@.take(j + 1) =~= seen@.take(j as int).push(seen@[j as int]));
                    vstd::seq_lib::lemma_seq_contains_after_push(seen@.take(j as int), seen@[j as int], master);
                }
                j = j + 1;
            }
            proof {
                assert(seen@.take(seen@.len() as int) =~= seen@);
                assert(masters@.take(index + 1) =~= masters@.take(index as int).push(master));
                masters@.take(index as int).lemma_push_to_set_commute(master);
            }
            if !present {
                let ghost before = seen@;
                seen.push(master);
                proof {
                    before.lemma_push_to_set_commute(master);
                    assert forall|a: int, b: int| 0 <= a < seen@.len() && 0 <= b < seen@.len() && a != b implies seen@[a] != seen@[b] by {
                        if a == before.len() as int {
                            assert(!before.contains(master));
                            assert(before[b] == seen@[b]);
                        } else if b == before.len() as int {
                            assert(!before.contains(master));
                            assert(before[a] == seen@[a]);
                        }
                    }
                }
            } else {
                proof {
                    assert(seen@.to_set().contains(master));
                    assert(seen@.to_set() =~= seen@.to_set().insert(master));
                }
            }
        } else {
            proof {
                assert(min_len((index + 1) as nat, masters@.len()) == min_len(index as nat, masters@.len()));
            }
        }
        next = next + 1;
        index = index + 1;
    }
    proof {
        seen@.unique_seq_to_set();
    }
    TempMacroClusters { clusters, distinct_masters: seen.len(), next_cluster_id: next }
}

} // verus!
