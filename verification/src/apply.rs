//! Applying the placement as a transaction: a failed run leaves the database as it found it.

use vstd::prelude::*;

verus! {

/// What the engine must take back if the run does not stand: the blockage count before
/// any edit.
#[derive(Debug, Clone, Copy, PartialEq, Eq, Structural)]
pub struct Baseline {
    pub blockages: usize,
}

/// How a transaction ended.
#[derive(Debug, Clone, Copy, PartialEq, Eq, Structural)]
pub enum Settlement {
    /// The edits stand.
    Committed,
    /// The edits were taken back.
    RolledBack,
}

/// The blockage indices from `now - 1` down to `baseline`, highest first; empty when
/// nothing was added or the count shrank.
pub open spec fn destroy_order(baseline: nat, now: nat) -> Seq<usize> {
    if now <= baseline {
        Seq::empty()
    } else {
        Seq::new((now - baseline) as nat, |i: int| (now - 1 - i) as usize)
    }
}

/// The manual half of a rollback: the blockages added since the baseline, highest index
/// first, since destroying one shifts every index after it.
pub fn blockages_to_destroy(baseline: Baseline, now: usize) -> (r: Vec<usize>)
    ensures
        r@ == destroy_order(baseline.blockages as nat, now as nat),
{
    let mut out: Vec<usize> = Vec::new();
    if now <= baseline.blockages {
        return out;
    }
    let mut k: usize = now;
    while k > baseline.blockages
        invariant
            baseline.blockages <= k <= now,
            out@ == Seq::new((now - k) as nat, |i: int| (now - 1 - i) as usize),
        decreases k,
    {
        k = k - 1;
        out.push(k);
        assert(out@ =~= Seq::new((now - k) as nat, |i: int| (now - 1 - i) as usize));
    }
    out
}

/// Only an outright success commits; anything else rolls back.
pub fn settles_as(kept: bool) -> (r: Settlement)
    ensures
        r == (if kept { Settlement::Committed } else { Settlement::RolledBack }),
{
    if kept {
        Settlement::Committed
    } else {
        Settlement::RolledBack
    }
}

/// The rollback destroys exactly the blockages added after the baseline, each once,
/// highest index first.
pub proof fn lemma_rollback_destroys_exactly_the_new_blockages(baseline: usize, now: usize)
    ensures
        ({
            let d = destroy_order(baseline as nat, now as nat);
            &&& d.len() == if now > baseline { now - baseline } else { 0 }
            &&& forall|i: int| 0 <= i < d.len() ==> baseline <= #[trigger] d[i] < now
            &&& forall|i: int, j: int| 0 <= i < j < d.len() ==> d[i] > d[j]
        }),
{
}

} // verus!
