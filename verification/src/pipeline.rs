//! The stage pipeline: the placement run's sequence as data, and the plans that reorder it.

use vstd::prelude::*;

verus! {

/// Every stage of the placement run, in run order.
#[derive(Debug, Clone, Copy, PartialEq, Eq, Hash, Structural)]
pub enum StageId {
    MultilevelAutoclustering,
    CommitClusteringData,
    ResetSaParameters,
    CoarseShaping,
    HierarchicalMacroPlacement,
    PushToBoundaries,
    UpdateMacrosOnDb,
    TemporaryStdCellsAndOrientation,
    CommitMacroPlacement,
    ComputeWireLength,
}

/// The name of the placer's function for each stage.
pub open spec fn upstream_name_of(s: StageId) -> Seq<char> {
    match s {
        StageId::MultilevelAutoclustering => "runMultilevelAutoclustering"@,
        StageId::CommitClusteringData => "commitClusteringDataToDb"@,
        StageId::ResetSaParameters => "resetSAParameters"@,
        StageId::CoarseShaping => "runCoarseShaping"@,
        StageId::HierarchicalMacroPlacement => "runHierarchicalMacroPlacement"@,
        StageId::PushToBoundaries => "pushMacrosToCoreBoundaries"@,
        StageId::UpdateMacrosOnDb => "updateMacrosOnDb"@,
        StageId::TemporaryStdCellsAndOrientation => "generateTemporaryStdCellsPlacement"@,
        StageId::CommitMacroPlacement => "commitMacroPlacementToDb"@,
        StageId::ComputeWireLength => "computeWireLength"@,
    }
}

impl StageId {
    pub fn upstream_name(self) -> (r: &'static str)
        ensures
            r@ == upstream_name_of(self),
    {
        match self {
            StageId::MultilevelAutoclustering => "runMultilevelAutoclustering",
            StageId::CommitClusteringData => "commitClusteringDataToDb",
            StageId::ResetSaParameters => "resetSAParameters",
            StageId::CoarseShaping => "runCoarseShaping",
            StageId::HierarchicalMacroPlacement => "runHierarchicalMacroPlacement",
            StageId::PushToBoundaries => "pushMacrosToCoreBoundaries",
            StageId::UpdateMacrosOnDb => "updateMacrosOnDb",
            StageId::TemporaryStdCellsAndOrientation => "generateTemporaryStdCellsPlacement",
            StageId::CommitMacroPlacement => "commitMacroPlacementToDb",
            StageId::ComputeWireLength => "computeWireLength",
        }
    }
}

/// What a stage did. Skipping and returning early both carry a reason.
#[derive(Debug, Clone, PartialEq, Eq)]
pub enum Outcome {
    Ran,
    Skipped(&'static str),
    /// The pipeline stops here and the reason reaches the verdict.
    EarlyReturn(&'static str),
}

/// The canonical order; the order is the algorithm.
pub open spec fn stage_order() -> Seq<StageId> {
    seq![
        StageId::MultilevelAutoclustering,
        StageId::CommitClusteringData,
        StageId::ResetSaParameters,
        StageId::CoarseShaping,
        StageId::HierarchicalMacroPlacement,
        StageId::PushToBoundaries,
        StageId::UpdateMacrosOnDb,
        StageId::TemporaryStdCellsAndOrientation,
        StageId::CommitMacroPlacement,
        StageId::ComputeWireLength,
    ]
}

/// The canonical order, as a list.
pub fn order() -> (r: Vec<StageId>)
    ensures
        r@ == stage_order(),
{
    let r = vec![
        StageId::MultilevelAutoclustering,
        StageId::CommitClusteringData,
        StageId::ResetSaParameters,
        StageId::CoarseShaping,
        StageId::HierarchicalMacroPlacement,
        StageId::PushToBoundaries,
        StageId::UpdateMacrosOnDb,
        StageId::TemporaryStdCellsAndOrientation,
        StageId::CommitMacroPlacement,
        StageId::ComputeWireLength,
    ];
    assert(r@ =~= stage_order());
    r
}

/// How to run the pipeline. The default is every stage once, in order.
#[derive(Debug, Clone, Default)]
pub struct Plan {
    /// Run up to and including this stage, then stop.
    pub stop_after: Option<StageId>,
    /// Run only these stages, in the canonical sequence.
    pub only: Option<Vec<StageId>>,
    /// Run this stage `n` times in place.
    pub repeat: Option<(StageId, usize)>,
    /// Exchange two stages.
    pub swap: Option<(StageId, StageId)>,
}

/// The first position of `x` in `s`, or `s.len()`.
pub open spec fn first_position(s: Seq<StageId>, x: StageId) -> int
    decreases s.len(),
{
    if s.len() == 0 {
        0
    } else if s[0] == x {
        0
    } else {
        1 + first_position(s.drop_first(), x)
    }
}

/// The last position of `x` in `s`, or `-1`.
pub open spec fn last_position(s: Seq<StageId>, x: StageId) -> int
    decreases s.len(),
{
    if s.len() == 0 {
        -1
    } else if s.last() == x {
        s.len() - 1
    } else {
        last_position(s.drop_last(), x)
    }
}

/// The stages kept by `only`.
pub open spec fn selected(only: Option<Seq<StageId>>) -> Seq<StageId> {
    match only {
        Some(o) => stage_order().filter(|s: StageId| o.contains(s)),
        None => stage_order(),
    }
}

/// `s` with the stages `a` and `b` exchanged, when both are present.
pub open spec fn swapped(s: Seq<StageId>, a: StageId, b: StageId) -> Seq<StageId> {
    let ia = first_position(s, a);
    let ib = first_position(s, b);
    if ia < s.len() && ib < s.len() {
        s.update(ia, s[ib]).update(ib, s[ia])
    } else {
        s
    }
}

/// `s` with `target` run `n` times in place, when present.
pub open spec fn repeated(s: Seq<StageId>, target: StageId, n: nat) -> Seq<StageId> {
    let i = first_position(s, target);
    if i < s.len() && n > 1 {
        s.take(i) + Seq::new((n - 1) as nat, |k: int| target) + s.skip(i)
    } else {
        s
    }
}

/// `s` cut after the last occurrence of `stop`, when present.
pub open spec fn stopped(s: Seq<StageId>, stop: StageId) -> Seq<StageId> {
    let i = last_position(s, stop);
    if i >= 0 { s.take(i + 1) } else { s }
}

/// The sequence a plan asks for: selection, then the swap, then the repeat, then the stop.
pub open spec fn plan_sequence(
    only: Option<Seq<StageId>>,
    swap: Option<(StageId, StageId)>,
    repeat: Option<(StageId, usize)>,
    stop_after: Option<StageId>,
) -> Seq<StageId> {
    let s0 = selected(only);
    let s1 = match swap {
        Some((a, b)) => swapped(s0, a, b),
        None => s0,
    };
    let s2 = match repeat {
        Some((t, n)) => repeated(s1, t, n as nat),
        None => s1,
    };
    match stop_after {
        Some(stop) => stopped(s2, stop),
        None => s2,
    }
}

proof fn lemma_first_position_bounds(s: Seq<StageId>, x: StageId)
    ensures
        0 <= first_position(s, x) <= s.len(),
        first_position(s, x) < s.len() ==> s[first_position(s, x)] == x,
        forall|k: int| 0 <= k < first_position(s, x) ==> s[k] != x,
    decreases s.len(),
{
    if s.len() > 0 && s[0] != x {
        lemma_first_position_bounds(s.drop_first(), x);
        assert forall|k: int| 0 <= k < first_position(s, x) implies s[k] != x by {
            if k > 0 {
                assert(s[k] == s.drop_first()[k - 1]);
            }
        }
    }
}

proof fn lemma_last_position_bounds(s: Seq<StageId>, x: StageId)
    ensures
        -1 <= last_position(s, x) < s.len(),
        last_position(s, x) >= 0 ==> s[last_position(s, x)] == x,
        forall|k: int| last_position(s, x) < k < s.len() ==> s[k] != x,
    decreases s.len(),
{
    if s.len() > 0 && s.last() != x {
        lemma_last_position_bounds(s.drop_last(), x);
        assert forall|k: int| last_position(s, x) < k < s.len() implies s[k] != x by {
            if k < s.len() - 1 {
                assert(s[k] == s.drop_last()[k]);
            }
        }
    }
}

/// The first position of `x` in `s`, or the length.
fn position(s: &Vec<StageId>, x: StageId) -> (r: usize)
    ensures
        r as int == first_position(s@, x),
{
    proof {
        lemma_first_position_bounds(s@, x);
    }
    let mut i: usize = 0;
    while i < s.len()
        invariant
            i <= s@.len(),
            forall|k: int| 0 <= k < i ==> s@[k] != x,
            first_position(s@, x) >= i,
        decreases s@.len() - i,
    {
        proof {
            lemma_first_position_bounds(s@, x);
        }
        if s[i] == x {
            return i;
        }
        i += 1;
    }
    proof {
        lemma_first_position_bounds(s@, x);
    }
    i
}

/// The canonical stages kept by `only`.
fn select_stages(only: &Option<Vec<StageId>>) -> (r: Vec<StageId>)
    ensures
        r@ == selected(
            match only {
                Some(o) => Some(o@),
                None => None,
            },
        ),
{
    let all = order();
    match only {
        Some(only) => {
            let mut seq: Vec<StageId> = Vec::new();
            let ghost p = |s: StageId| only@.contains(s);
            let mut i: usize = 0;
            while i < all.len()
                invariant
                    all@ == stage_order(),
                    i <= all@.len(),
                    p == (|s: StageId| only@.contains(s)),
                    seq@ == all@.take(i as int).filter(p),
                decreases all@.len() - i,
            {
                assert(all@.take(i as int + 1).drop_last() =~= all@.take(i as int));
                proof {
                    reveal_with_fuel(Seq::<_>::filter, 1);
                }
                let s = all[i];
                let found = position(only, s) < only.len();
                proof {
                    lemma_first_position_bounds(only@, s);
                    if only@.contains(s) {
                        let k = choose|k: int| 0 <= k < only@.len() && only@[k] == s;
                        assert(first_position(only@, s) <= k);
                    }
                }
                if found {
                    seq.push(s);
                }
                i += 1;
            }
            assert(all@.take(all@.len() as int) =~= all@);
            seq
        },
        None => all,
    }
}

/// Exchange the first `a` and the first `b`, when both are present.
fn swap_stages(seq: &mut Vec<StageId>, a: StageId, b: StageId)
    ensures
        final(seq)@ == swapped(old(seq)@, a, b),
{
    let ia = position(seq, a);
    let ib = position(seq, b);
    if ia < seq.len() && ib < seq.len() {
        let va = seq[ia];
        let vb = seq[ib];
        seq.set(ia, vb);
        seq.set(ib, va);
    }
}

/// Run `target` `n` times in place, when present.
fn repeat_stage(seq: &mut Vec<StageId>, target: StageId, n: usize)
    ensures
        final(seq)@ == repeated(old(seq)@, target, n as nat),
{
    let ghost s1 = seq@;
    let i = position(seq, target);
    proof {
        lemma_first_position_bounds(seq@, target);
    }
    if i < seq.len() {
        let mut k: usize = 1;
        while k < n
            invariant
                1 <= k,
                k <= n || n <= 1,
                n <= 1 ==> k == 1,
                i < s1.len(),
                seq@ == s1.take(i as int) + Seq::new((k - 1) as nat, |j: int| target) + s1.skip(
                    i as int,
                ),
            decreases n - k,
        {
            seq.insert(i, target);
            assert(seq@ =~= s1.take(i as int) + Seq::new(k as nat, |j: int| target) + s1.skip(
                i as int,
            ));
            k += 1;
        }
        if n <= 1 {
            assert(s1.take(i as int) + Seq::new(0, |j: int| target) + s1.skip(i as int) =~= s1);
        } else {
            assert(k == n);
            assert(seq@ =~= repeated(s1, target, n as nat));
        }
        assert(seq@ == repeated(s1, target, n as nat));
    } else {
        assert(seq@ == repeated(s1, target, n as nat));
    }
}

/// Cut after the last occurrence of `stop`, when present.
fn stop_after_stage(seq: &mut Vec<StageId>, stop: StageId)
    ensures
        final(seq)@ == stopped(old(seq)@, stop),
{
    let ghost s2 = seq@;
    proof {
        lemma_last_position_bounds(s2, stop);
    }
    let mut j: usize = seq.len();
    let mut found = false;
    while j > 0 && !found
        invariant
            j <= seq@.len(),
            seq@ == s2,
            -1 <= last_position(s2, stop) < s2.len(),
            last_position(s2, stop) >= 0 ==> s2[last_position(s2, stop)] == stop,
            forall|k: int| last_position(s2, stop) < k < s2.len() ==> s2[k] != stop,
            found ==> j > 0 && last_position(s2, stop) == j - 1,
            !found ==> last_position(s2, stop) < j,
        decreases j + (if found { 0int } else { 1int }),
    {
        if seq[j - 1] == stop {
            found = true;
        } else {
            j = j - 1;
        }
    }
    if found {
        seq.truncate(j);
        assert(seq@ =~= s2.take(j as int));
    }
}

impl Plan {
    /// The stage sequence this plan asks for, resolved against the canonical order:
    /// selection, then the swap, then the repeat, then the stop.
    pub fn sequence(&self) -> (r: Vec<StageId>)
        ensures
            r@ == plan_sequence(
                match self.only {
                    Some(o) => Some(o@),
                    None => None,
                },
                self.swap,
                self.repeat,
                self.stop_after,
            ),
    {
        let mut seq = select_stages(&self.only);
        if let Some((a, b)) = self.swap {
            swap_stages(&mut seq, a, b);
        }
        if let Some((target, n)) = self.repeat {
            repeat_stage(&mut seq, target, n);
        }
        if let Some(stop) = self.stop_after {
            stop_after_stage(&mut seq, stop);
        }
        seq
    }
}

/// The default plan is the run order, every stage, once.
pub proof fn lemma_default_plan_is_run_order()
    ensures
        plan_sequence(None, None, None, None) == stage_order(),
{
}

} // verus!
