//! Classifying macros before they are grouped: each classification gives every macro a
//! representative index, and the grouping merges two macros only when they agree.

use crate::cluster::ClusterId;
use vstd::prelude::*;

verus! {

/// A macro's dimensions; two macros are the same size when width and height agree.
#[derive(Debug, Clone, Copy, PartialEq, Eq, Structural)]
pub struct MacroSize {
    pub width: i64,
    pub height: i64,
}

/// No earlier macro has the size of macro `k`: it leads its size class.
pub open spec fn leads(sizes: Seq<MacroSize>, k: int) -> bool {
    forall|j: int| 0 <= j < k ==> sizes[j] != sizes[k]
}

proof fn lemma_leader_exists(sizes: Seq<MacroSize>, k: int)
    requires
        0 <= k < sizes.len(),
    ensures
        exists|j: int| 0 <= j <= k && sizes[j] == sizes[k] && #[trigger] leads(sizes, j),
    decreases k,
{
    if leads(sizes, k) {
        assert(sizes[k] == sizes[k] && leads(sizes, k));
    } else {
        let j = choose|j: int| 0 <= j < k && sizes[j] == sizes[k];
        lemma_leader_exists(sizes, j);
    }
}

/// The representative of each macro by size: the first macro with the same width and height.
pub fn classify_by_size(sizes: &[MacroSize]) -> (r: Vec<usize>)
    ensures
        r@.len() == sizes@.len(),
        forall|k: int|
            0 <= k < sizes@.len() ==> {
                &&& #[trigger] r@[k] <= k
                &&& sizes@[r@[k] as int] == sizes@[k]
                &&& leads(sizes@, r@[k] as int)
            },
{
    let n = sizes.len();
    let mut class: Vec<Option<usize>> = Vec::new();
    let mut c: usize = 0;
    while c < n
        invariant
            c <= n,
            n == sizes@.len(),
            class@.len() == c,
            forall|k: int| 0 <= k < c ==> class@[k] is None,
        decreases n - c,
    {
        class.push(None);
        c = c + 1;
    }
    let mut i: usize = 0;
    while i < n
        invariant
            i <= n,
            n == sizes@.len(),
            class@.len() == n,
            forall|k: int|
                0 <= k < n && #[trigger] class@[k] is Some ==> {
                    &&& class@[k]->0 < k
                    &&& class@[k]->0 < i
                    &&& sizes@[class@[k]->0 as int] == sizes@[k]
                    &&& leads(sizes@, class@[k]->0 as int)
                },
            forall|k: int, j: int|
                0 <= j < i && j < k < n && sizes@[j] == sizes@[k] && #[trigger] leads(sizes@, j)
                    ==> #[trigger] class@[k] is Some,
        decreases n - i,
    {
        if class[i].is_none() {
            proof {
                lemma_leader_exists(sizes@, i as int);
                let j = choose|j: int| 0 <= j <= i && sizes@[j] == sizes@[i as int] && #[trigger] leads(sizes@, j);
                if j < i {
                    assert(class@[i as int] is Some);
                }
                assert(leads(sizes@, i as int));
            }
            let mut j: usize = i + 1;
            while j < n
                invariant
                    i < j <= n,
                    n == sizes@.len(),
                    class@.len() == n,
                    class@[i as int] is None,
                    leads(sizes@, i as int),
                    forall|k: int|
                        0 <= k < n && #[trigger] class@[k] is Some ==> {
                            &&& class@[k]->0 < k
                            &&& class@[k]->0 <= i
                            &&& sizes@[class@[k]->0 as int] == sizes@[k]
                            &&& leads(sizes@, class@[k]->0 as int)
                        },
                    forall|k: int, jj: int|
                        0 <= jj < i && jj < k < n && sizes@[jj] == sizes@[k] && #[trigger] leads(sizes@, jj)
                            ==> #[trigger] class@[k] is Some,
                    forall|k: int| i < k < j && sizes@[i as int] == sizes@[k] ==> #[trigger] class@[k] is Some,
                decreases n - j,
            {
                if class[j].is_none() && sizes[i] == sizes[j] {
                    class.set(j, Some(i));
                }
                j = j + 1;
            }
            proof {
                assert forall|k: int, jj: int|
                    0 <= jj < i + 1 && jj < k < n && sizes@[jj] == sizes@[k] && #[trigger] leads(sizes@, jj)
                        implies #[trigger] class@[k] is Some by {
                    if jj == i {
                        assert(sizes@[i as int] == sizes@[k]);
                    }
                }
            }
        } else {
            proof {
                assert forall|k: int, jj: int|
                    0 <= jj < i + 1 && jj < k < n && sizes@[jj] == sizes@[k] && #[trigger] leads(sizes@, jj)
                        implies #[trigger] class@[k] is Some by {
                    if jj == i {
                        let l = class@[i as int]->0 as int;
                        assert(sizes@[l] == sizes@[i as int]);
                        assert(l < i);
                        assert(!leads(sizes@, i as int));
                    }
                }
            }
        }
        i = i + 1;
    }
    let mut out: Vec<usize> = Vec::new();
    let mut k: usize = 0;
    while k < n
        invariant
            k <= n,
            n == sizes@.len(),
            class@.len() == n,
            forall|m: int|
                0 <= m < n && #[trigger] class@[m] is Some ==> {
                    &&& class@[m]->0 < m
                    &&& sizes@[class@[m]->0 as int] == sizes@[m]
                    &&& leads(sizes@, class@[m]->0 as int)
                },
            forall|m: int, j: int|
                0 <= j < n && j < m < n && sizes@[j] == sizes@[m] && #[trigger] leads(sizes@, j)
                    ==> #[trigger] class@[m] is Some,
            out@.len() == k,
            forall|m: int|
                0 <= m < k ==> {
                    &&& #[trigger] out@[m] <= m
                    &&& sizes@[out@[m] as int] == sizes@[m]
                    &&& leads(sizes@, out@[m] as int)
                },
        decreases n - k,
    {
        match class[k] {
            None => {
                proof {
                    lemma_leader_exists(sizes@, k as int);
                    let j = choose|j: int| 0 <= j <= k && sizes@[j] == sizes@[k as int] && #[trigger] leads(sizes@, j);
                    if j < k {
                        assert(class@[k as int] is Some);
                    }
                }
                out.push(k);
            },
            Some(l) => {
                out.push(l);
            },
        }
        k = k + 1;
    }
    out
}

/// A merge the grouping decided on, and why.
#[derive(Debug, Clone, Copy, PartialEq, Eq, Structural)]
pub enum GroupMerge {
    /// Same size and same interconnection group: an array of interconnected macros.
    Interconnected { receiver: usize, incomer: usize },
    /// Same size and same connection signature.
    SameSignature { receiver: usize, incomer: usize },
}

/// What the grouping produced.
#[derive(Debug, Clone, PartialEq, Eq)]
pub struct Grouping {
    /// Representative per macro; `macro_class[i] == i` means it leads a group.
    pub macro_class: Vec<usize>,
    /// The interconnection classes as the grouping left them: a macro that met a same-size
    /// neighbour in a different interconnection group has its class cleared to `-1`.
    pub interconn_class: Vec<i64>,
    pub merges: Vec<GroupMerge>,
}

/// The grouping's state: the class of each macro (`-1` until assigned), the interconnection
/// classes, and the merges so far.
pub type GroupState = (Seq<int>, Seq<int>, Seq<GroupMerge>);

/// Row `i` meets macro `j`: nothing unless `j` is unassigned and the same size; then the same
/// interconnection class makes an interconnected merge, and otherwise `i`'s interconnection
/// class is cleared and the same signature makes a signature merge.
pub open spec fn group_step(size: Seq<usize>, sig: Seq<usize>, st: GroupState, i: int, j: int) -> GroupState {
    let (mc, ic, m) = st;
    if mc[j] != -1 || size[i] != size[j] {
        st
    } else if ic[i] == ic[j] {
        (mc.update(j, i), ic, m.push(GroupMerge::Interconnected { receiver: i as usize, incomer: j as usize }))
    } else {
        let ic2 = ic.update(i, -1);
        if sig[i] == sig[j] {
            (mc.update(j, i), ic2, m.push(GroupMerge::SameSignature { receiver: i as usize, incomer: j as usize }))
        } else {
            (mc, ic2, m)
        }
    }
}

/// Row `i` after meeting macros `i + 1` up to `j`, exclusive.
pub open spec fn group_row(size: Seq<usize>, sig: Seq<usize>, st: GroupState, i: int, j: int) -> GroupState
    decreases j - i,
{
    if j <= i + 1 {
        st
    } else {
        group_step(size, sig, group_row(size, sig, st, i, j - 1), i, j - 1)
    }
}

/// The state after the first `r` rows: a row whose macro is still unassigned leads a group and
/// meets every later macro in order.
pub open spec fn group_rows(size: Seq<usize>, sig: Seq<usize>, interconn: Seq<int>, r: int) -> GroupState
    decreases r,
{
    if r <= 0 {
        (Seq::new(size.len(), |k: int| -1int), interconn, Seq::empty())
    } else {
        let st = group_rows(size, sig, interconn, r - 1);
        let i = r - 1;
        if st.0[i] != -1 {
            st
        } else {
            group_row(size, sig, (st.0.update(i, i), st.1, st.2), i, size.len() as int)
        }
    }
}

/// Every assigned macro's class is a leader at or before it, and a leader is its own class.
pub open spec fn classes_lead(mc: Seq<int>) -> bool {
    forall|k: int|
        0 <= k < mc.len() && #[trigger] mc[k] != -1 ==> 0 <= mc[k] <= k && mc[mc[k]] == mc[k]
}

proof fn lemma_step_leads(size: Seq<usize>, sig: Seq<usize>, st: GroupState, i: int, j: int)
    requires
        classes_lead(st.0),
        0 <= i < j < st.0.len(),
        st.0[i] == i,
    ensures
        classes_lead(group_step(size, sig, st, i, j).0),
        group_step(size, sig, st, i, j).0.len() == st.0.len(),
        group_step(size, sig, st, i, j).0[i] == i,
        forall|k: int| 0 <= k < st.0.len() && st.0[k] != -1 ==> #[trigger] group_step(size, sig, st, i, j).0[k] == st.0[k],
{
    let mc = st.0;
    let mc2 = group_step(size, sig, st, i, j).0;
    if mc2 != mc {
        assert(mc2 == mc.update(j, i));
        assert forall|k: int| 0 <= k < mc2.len() && #[trigger] mc2[k] != -1 implies 0 <= mc2[k] <= k && mc2[mc2[k]] == mc2[k] by {
            if k != j {
                assert(mc[k] != -1);
                assert(mc[k] != j) by {
                    if mc[k] == j {
                        assert(mc[mc[k]] == mc[k]);
                    }
                }
            }
        }
    }
}

proof fn lemma_row_leads(size: Seq<usize>, sig: Seq<usize>, st: GroupState, i: int, j: int)
    requires
        classes_lead(st.0),
        0 <= i < st.0.len(),
        j <= st.0.len(),
        st.0[i] == i,
    ensures
        classes_lead(group_row(size, sig, st, i, j).0),
        group_row(size, sig, st, i, j).0.len() == st.0.len(),
        group_row(size, sig, st, i, j).0[i] == i,
        forall|k: int| 0 <= k < st.0.len() && st.0[k] != -1 ==> #[trigger] group_row(size, sig, st, i, j).0[k] == st.0[k],
    decreases j - i,
{
    if j > i + 1 {
        lemma_row_leads(size, sig, st, i, j - 1);
        let st1 = group_row(size, sig, st, i, j - 1);
        lemma_step_leads(size, sig, st1, i, j - 1);
    }
}

proof fn lemma_rows_lead(size: Seq<usize>, sig: Seq<usize>, interconn: Seq<int>, r: int)
    requires
        0 <= r <= size.len(),
    ensures
        classes_lead(group_rows(size, sig, interconn, r).0),
        group_rows(size, sig, interconn, r).0.len() == size.len(),
        forall|k: int| 0 <= k < r ==> #[trigger] group_rows(size, sig, interconn, r).0[k] != -1,
    decreases r,
{
    if r > 0 {
        lemma_rows_lead(size, sig, interconn, r - 1);
        let st = group_rows(size, sig, interconn, r - 1);
        let i = r - 1;
        if st.0[i] == -1 {
            let st1 = (st.0.update(i, i), st.1, st.2);
            assert forall|k: int| 0 <= k < st1.0.len() && #[trigger] st1.0[k] != -1 implies 0 <= st1.0[k] <= k && st1.0[st1.0[k]]
                == st1.0[k] by {
                if k != i {
                    assert(st.0[k] != -1);
                    assert(st.0[k] != i) by {
                        if st.0[k] == i {
                            assert(st.0[st.0[k]] == st.0[k]);
                        }
                    }
                }
            }
            lemma_row_leads(size, sig, st1, i, size.len() as int);
        }
    } else {
        let mc = group_rows(size, sig, interconn, 0).0;
        assert forall|k: int| 0 <= k < mc.len() && #[trigger] mc[k] != -1 implies 0 <= mc[k] <= k && mc[mc[k]] == mc[k] by {}
    }
}

/// The grouping's classes are leaders: every macro's class is a macro at or before it whose
/// own class is itself, so taking the class twice is taking it once.
pub proof fn lemma_classes_are_leaders(size: Seq<usize>, sig: Seq<usize>, interconn: Seq<int>)
    ensures
        ({
            let mc = group_rows(size, sig, interconn, size.len() as int).0;
            &&& mc.len() == size.len()
            &&& forall|k: int| 0 <= k < mc.len() ==> 0 <= #[trigger] mc[k] <= k && mc[mc[k]] == mc[k]
        }),
{
    lemma_rows_lead(size, sig, interconn, size.len() as int);
    let mc = group_rows(size, sig, interconn, size.len() as int).0;
    assert forall|k: int| 0 <= k < mc.len() implies 0 <= #[trigger] mc[k] <= k && mc[mc[k]] == mc[k] by {
        assert(mc[k] != -1);
    }
}

/// The grouping's promises after the first `r` rows: a macro from row `r` on is unassigned or
/// assigned to an earlier macro; every class has its macro's size; and every macro after a
/// leader row with the leader's size and signature is assigned to an earlier macro.
pub open spec fn rows_keep(size: Seq<usize>, sig: Seq<usize>, mc: Seq<int>, r: int) -> bool {
    &&& forall|k: int| r <= k < mc.len() ==> #[trigger] mc[k] == -1 || 0 <= mc[k] < k
    &&& forall|k: int| 0 <= k < mc.len() && #[trigger] mc[k] != -1 ==> 0 <= mc[k] < mc.len() && size[mc[k]] == size[k]
    &&& forall|a: int, j: int|
        0 <= a < r && a < j < mc.len() && #[trigger] mc[a] == a && size[a] == size[j] && sig[a] == sig[j] ==> 0 <= #[trigger] mc[j] < j
}

proof fn lemma_row_keeps(size: Seq<usize>, sig: Seq<usize>, st: GroupState, i: int, j: int)
    requires
        size.len() == st.0.len(),
        sig.len() == st.0.len(),
        0 <= i < st.0.len(),
        i < j <= st.0.len(),
        st.0[i] == i,
        forall|k: int| i < k < st.0.len() ==> #[trigger] st.0[k] == -1 || 0 <= st.0[k] < k,
        forall|k: int| 0 <= k < st.0.len() && #[trigger] st.0[k] != -1 ==> 0 <= st.0[k] < st.0.len() && size[st.0[k]] == size[k],
    ensures
        ({
            let mc = group_row(size, sig, st, i, j).0;
            &&& mc.len() == st.0.len()
            &&& mc[i] == i
            &&& forall|k: int| 0 <= k < st.0.len() && st.0[k] != -1 ==> #[trigger] mc[k] == st.0[k]
            &&& forall|k: int| i < k < mc.len() ==> #[trigger] mc[k] == -1 || 0 <= mc[k] < k
            &&& forall|k: int| 0 <= k < mc.len() && #[trigger] mc[k] != -1 ==> 0 <= mc[k] < mc.len() && size[mc[k]] == size[k]
            &&& forall|k: int| i < k < j && size[i] == size[k] && sig[i] == sig[k] ==> 0 <= #[trigger] mc[k] < k
        }),
    decreases j - i,
{
    if j > i + 1 {
        lemma_row_keeps(size, sig, st, i, j - 1);
        let st1 = group_row(size, sig, st, i, j - 1);
        let st2 = group_step(size, sig, st1, i, j - 1);
        assert(group_row(size, sig, st, i, j) == st2);
        let m1 = st1.0;
        let m2 = st2.0;
        assert(m2 == m1 || (m1[j - 1] == -1 && size[i] == size[j - 1] && m2 == m1.update(j - 1, i)));
        assert(m1[j - 1] == -1 && size[i] == size[j - 1] && sig[i] == sig[j - 1] ==> m2 == m1.update(j - 1, i));
    }
}

proof fn lemma_rows_keep(size: Seq<usize>, sig: Seq<usize>, interconn: Seq<int>, r: int)
    requires
        0 <= r <= size.len(),
        sig.len() == size.len(),
    ensures
        rows_keep(size, sig, group_rows(size, sig, interconn, r).0, r),
        group_rows(size, sig, interconn, r).0.len() == size.len(),
    decreases r,
{
    if r == 0 {
        let mc = group_rows(size, sig, interconn, 0).0;
        assert(rows_keep(size, sig, mc, 0));
    } else {
        lemma_rows_keep(size, sig, interconn, r - 1);
        lemma_rows_lead(size, sig, interconn, r - 1);
        let st = group_rows(size, sig, interconn, r - 1);
        let mc = st.0;
        let i = r - 1;
        if mc[i] == -1 {
            let st1 = (mc.update(i, i), st.1, st.2);
            let m1 = st1.0;
            assert forall|k: int| 0 <= k < m1.len() && #[trigger] m1[k] != -1 implies 0 <= m1[k] < m1.len() && size[m1[k]] == size[k] by {
                if k != i {
                    assert(mc[k] != -1);
                }
            }
            lemma_row_keeps(size, sig, st1, i, size.len() as int);
            let m2 = group_row(size, sig, st1, i, size.len() as int).0;
            assert(group_rows(size, sig, interconn, r).0 == m2);
            assert forall|a: int, j: int|
                0 <= a < r && a < j < m2.len() && #[trigger] m2[a] == a && size[a] == size[j] && sig[a] == sig[j] implies 0
                <= #[trigger] m2[j] < j by {
                if a < i {
                    assert(mc[a] != -1);
                    assert(m1[a] == mc[a]);
                    assert(mc[a] == a);
                    assert(0 <= mc[j] < j);
                    if j != i {
                        assert(m1[j] == mc[j]);
                    }
                }
            }
        } else {
            assert(group_rows(size, sig, interconn, r).0 == mc);
            assert(0 <= mc[i] < i);
            assert forall|a: int, j: int|
                0 <= a < r && a < j < mc.len() && #[trigger] mc[a] == a && size[a] == size[j] && sig[a] == sig[j] implies 0
                <= #[trigger] mc[j] < j by {
                if a == i {
                    assert(false);
                }
            }
        }
    }
}

/// Two groups of the same macro size never share a connection signature: when the earlier
/// leader's row met the later macro, still unassigned, it merged it either as an array of
/// interconnected macros or, failing that, for the equal signature. And every macro is
/// grouped under a leader of its own size.
pub proof fn lemma_same_size_leaders_differ_in_signature(size: Seq<usize>, sig: Seq<usize>, interconn: Seq<int>)
    requires
        sig.len() == size.len(),
    ensures
        ({
            let mc = group_rows(size, sig, interconn, size.len() as int).0;
            &&& forall|a: int, b: int|
                0 <= a < b < size.len() && #[trigger] mc[a] == a && #[trigger] mc[b] == b && size[a] == size[b] ==> sig[a] != sig[b]
            &&& forall|k: int| 0 <= k < size.len() ==> 0 <= #[trigger] mc[k] <= k && size[mc[k]] == size[k] && mc[mc[k]] == mc[k]
        }),
{
    lemma_rows_keep(size, sig, interconn, size.len() as int);
    lemma_classes_are_leaders(size, sig, interconn);
}

/// Group the macros: every merge needs the same size; the interconnection and signature
/// classes decide only which kind of group it is. Each macro's class is its group leader.
pub fn group_single_macro_clusters(
    size_class: &[usize],
    signature_class: &[usize],
    interconn_class: &[i64],
) -> (g: Grouping)
    requires
        signature_class@.len() == size_class@.len(),
        interconn_class@.len() == size_class@.len(),
        size_class@.len() < i64::MAX,
    ensures
        ({
            let st = group_rows(
                size_class@,
                signature_class@,
                interconn_class@.map_values(|v: i64| v as int),
                size_class@.len() as int,
            );
            &&& g.macro_class@.map_values(|v: usize| v as int) == st.0
            &&& g.interconn_class@.map_values(|v: i64| v as int) == st.1
            &&& g.merges@ == st.2
        }),
        forall|k: int| 0 <= k < g.merges@.len() ==> match #[trigger] g.merges@[k] {
            GroupMerge::Interconnected { receiver, incomer } => receiver < incomer < size_class@.len()
                && size_class@[receiver as int] == size_class@[incomer as int],
            GroupMerge::SameSignature { receiver, incomer } => receiver < incomer < size_class@.len()
                && size_class@[receiver as int] == size_class@[incomer as int]
                && signature_class@[receiver as int] == signature_class@[incomer as int],
        },
        forall|k: int| 0 <= k < g.macro_class@.len() ==> #[trigger] g.macro_class@[k] <= k,
        g.macro_class@.len() == size_class@.len(),
        g.interconn_class@.len() == size_class@.len(),
{
    let n = size_class.len();
    let ghost sc = size_class@;
    let ghost sg = signature_class@;
    let ghost ic0 = interconn_class@.map_values(|v: i64| v as int);
    let mut mc: Vec<i64> = Vec::new();
    let mut interconn: Vec<i64> = Vec::new();
    let mut c: usize = 0;
    while c < n
        invariant
            c <= n,
            n == sc.len(),
            interconn_class@.len() == n,
            mc@.len() == c,
            interconn@.len() == c,
            forall|k: int| 0 <= k < c ==> mc@[k] == -1,
            forall|k: int| 0 <= k < c ==> interconn@[k] == interconn_class@[k],
        decreases n - c,
    {
        mc.push(-1);
        interconn.push(interconn_class[c]);
        c = c + 1;
    }
    let mut merges: Vec<GroupMerge> = Vec::new();
    proof {
        assert(mc@.map_values(|v: i64| v as int) =~= group_rows(sc, sg, ic0, 0).0);
        assert(interconn@.map_values(|v: i64| v as int) =~= ic0);
    }
    let mut i: usize = 0;
    while i < n
        invariant
            i <= n,
            n == sc.len(),
            n < i64::MAX,
            sg.len() == n,
            ic0.len() == n,
            sc == size_class@,
            sg == signature_class@,
            mc@.len() == n,
            interconn@.len() == n,
            mc@.map_values(|v: i64| v as int) == group_rows(sc, sg, ic0, i as int).0,
            interconn@.map_values(|v: i64| v as int) == group_rows(sc, sg, ic0, i as int).1,
            merges@ == group_rows(sc, sg, ic0, i as int).2,
            forall|k: int| 0 <= k < n ==> #[trigger] mc@[k] == -1 || (0 <= mc@[k] <= k && mc@[k] < i),
            forall|k: int| 0 <= k < i ==> #[trigger] mc@[k] != -1,
            forall|k: int| 0 <= k < merges@.len() ==> match #[trigger] merges@[k] {
                GroupMerge::Interconnected { receiver, incomer } => receiver < incomer < n
                    && sc[receiver as int] == sc[incomer as int],
                GroupMerge::SameSignature { receiver, incomer } => receiver < incomer < n
                    && sc[receiver as int] == sc[incomer as int]
                    && sg[receiver as int] == sg[incomer as int],
            },
        decreases n - i,
    {
        let ghost st = group_rows(sc, sg, ic0, i as int);
        if mc[i] == -1 {
            mc.set(i, i as i64);
            let ghost st0: GroupState = (st.0.update(i as int, i as int), st.1, st.2);
            proof {
                assert(mc@.map_values(|v: i64| v as int) =~= st0.0);
            }
            let mut j: usize = i + 1;
            while j < n
                invariant
                    i < j <= n,
                    n == sc.len(),
                    n < i64::MAX,
                    sg.len() == n,
                    sc == size_class@,
                    sg == signature_class@,
                    mc@.len() == n,
                    interconn@.len() == n,
                    st0.0.len() == n,
                    st0.1.len() == n,
                    mc@.map_values(|v: i64| v as int) == group_row(sc, sg, st0, i as int, j as int).0,
                    interconn@.map_values(|v: i64| v as int) == group_row(sc, sg, st0, i as int, j as int).1,
                    merges@ == group_row(sc, sg, st0, i as int, j as int).2,
                    forall|k: int| 0 <= k < n ==> #[trigger] mc@[k] == -1 || (0 <= mc@[k] <= k && mc@[k] <= i),
                    forall|k: int| 0 <= k <= i ==> #[trigger] mc@[k] != -1,
                    forall|k: int| 0 <= k < merges@.len() ==> match #[trigger] merges@[k] {
                        GroupMerge::Interconnected { receiver, incomer } => receiver < incomer < n
                            && sc[receiver as int] == sc[incomer as int],
                        GroupMerge::SameSignature { receiver, incomer } => receiver < incomer < n
                            && sc[receiver as int] == sc[incomer as int]
                            && sg[receiver as int] == sg[incomer as int],
                    },
                decreases n - j,
            {
                let ghost before = group_row(sc, sg, st0, i as int, j as int);
                assert(mc@[j as int] as int == before.0[j as int]);
                assert(interconn@[i as int] as int == before.1[i as int]);
                assert(interconn@[j as int] as int == before.1[j as int]);
                if mc[j] != -1 || size_class[i] != size_class[j] {
                } else if interconn[i] == interconn[j] {
                    merges.push(GroupMerge::Interconnected { receiver: i, incomer: j });
                    mc.set(j, i as i64);
                    proof {
                        assert(mc@.map_values(|v: i64| v as int) =~= before.0.update(j as int, i as int));
                    }
                } else {
                    interconn.set(i, -1);
                    proof {
                        assert(interconn@.map_values(|v: i64| v as int) =~= before.1.update(i as int, -1));
                    }
                    if signature_class[i] == signature_class[j] {
                        merges.push(GroupMerge::SameSignature { receiver: i, incomer: j });
                        mc.set(j, i as i64);
                        proof {
                            assert(mc@.map_values(|v: i64| v as int) =~= before.0.update(j as int, i as int));
                        }
                    }
                }
                j = j + 1;
            }
        }
        i = i + 1;
    }
    let mut out: Vec<usize> = Vec::new();
    let mut k: usize = 0;
    while k < n
        invariant
            k <= n,
            mc@.len() == n,
            forall|m: int| 0 <= m < n ==> #[trigger] mc@[m] != -1 && 0 <= mc@[m] <= m,
            out@.len() == k,
            forall|m: int| 0 <= m < k ==> #[trigger] out@[m] == mc@[m],
        decreases n - k,
    {
        out.push(mc[k] as usize);
        k = k + 1;
    }
    proof {
        assert(out@.map_values(|v: usize| v as int) =~= mc@.map_values(|v: i64| v as int));
    }
    Grouping { macro_class: out, interconn_class: interconn, merges }
}

/// A single movable macro is never treated as an array of one.
pub fn single_macro_grouping() -> (g: Grouping)
    ensures
        g.macro_class@ == seq![0usize],
        g.interconn_class@ == seq![-1i64],
        g.merges@.len() == 0,
{
    let mut macro_class: Vec<usize> = Vec::new();
    macro_class.push(0);
    let mut interconn_class: Vec<i64> = Vec::new();
    interconn_class.push(-1);
    Grouping { macro_class, interconn_class, merges: Vec::new() }
}

/// One macro that a mixed leaf was broken into, as its own cluster named after the instance.
#[derive(Debug, Clone, PartialEq, Eq)]
pub struct MacroCluster {
    pub id: ClusterId,
    pub name: String,
    pub inst: usize,
    pub is_fixed: bool,
    pub size: MacroSize,
}

/// A surviving group of movable macros.
#[derive(Debug, Clone, PartialEq, Eq)]
pub struct MacroArray {
    pub id: ClusterId,
    /// Set only when the group's interconnection class survived the grouping.
    pub is_interconnected_array: bool,
    /// The macro clusters folded into this one, the leader first.
    pub members: Vec<ClusterId>,
}

/// How a mixed leaf is broken: the leaf retyped as a standard-cell cluster, the arrays, the
/// fixed macros' clusters (parented to the root), and a virtual connection between every pair
/// of them.
#[derive(Debug, Clone, PartialEq, Eq)]
pub struct MixedLeafPlan {
    pub std_cell_cluster: ClusterId,
    pub arrays: Vec<MacroArray>,
    pub fixed_clusters: Vec<ClusterId>,
    pub virtual_connections: Vec<(ClusterId, ClusterId)>,
}

/// The first macro with the size of macro `k`, searching up from `j`; `k` itself when none is.
pub open spec fn first_of_size(sizes: Seq<MacroSize>, k: int, j: int) -> int
    decreases k - j,
{
    if j >= k {
        k
    } else if sizes[j] == sizes[k] {
        j
    } else {
        first_of_size(sizes, k, j + 1)
    }
}

proof fn lemma_first_of_size(sizes: Seq<MacroSize>, k: int, r: int, j: int)
    requires
        0 <= j <= r <= k < sizes.len(),
        sizes[r] == sizes[k],
        leads(sizes, r),
    ensures
        first_of_size(sizes, k, j) == r,
    decreases r - j,
{
    if j < r {
        assert(sizes[j] != sizes[r]);
        lemma_first_of_size(sizes, k, r, j + 1);
    }
}

/// The movable macros among the first `n`, in order.
pub open spec fn movable_macros(ms: Seq<MacroCluster>, n: int) -> Seq<MacroCluster>
    decreases n,
{
    if n <= 0 {
        Seq::empty()
    } else if ms[n - 1].is_fixed {
        movable_macros(ms, n - 1)
    } else {
        movable_macros(ms, n - 1).push(ms[n - 1])
    }
}

/// The clusters of the fixed macros among the first `n`, in order.
pub open spec fn fixed_cluster_ids(ms: Seq<MacroCluster>, n: int) -> Seq<ClusterId>
    decreases n,
{
    if n <= 0 {
        Seq::empty()
    } else if ms[n - 1].is_fixed {
        fixed_cluster_ids(ms, n - 1).push(ms[n - 1].id)
    } else {
        fixed_cluster_ids(ms, n - 1)
    }
}

/// How the movable macros of a mixed leaf are grouped: one macro alone is never an array of
/// one; otherwise by size class (each macro's first macro of the same size), signature class
/// and interconnection class.
pub open spec fn mixed_leaf_grouping(mv: Seq<MacroCluster>, sig: Seq<usize>, ic: Seq<i64>) -> GroupState {
    if mv.len() == 1 {
        (seq![0int], seq![-1int], Seq::empty())
    } else {
        let sizes = mv.map_values(|m: MacroCluster| m.size);
        let size_class = Seq::new(mv.len(), |k: int| first_of_size(sizes, k, 0) as usize);
        group_rows(size_class, sig, ic.map_values(|v: i64| v as int), mv.len() as int)
    }
}

proof fn lemma_first_of_size_is_least(sizes: Seq<MacroSize>, k: int, j: int)
    requires
        0 <= j <= k < sizes.len(),
    ensures
        j <= first_of_size(sizes, k, j) <= k,
        sizes[first_of_size(sizes, k, j)] == sizes[k],
        forall|t: int| j <= t < first_of_size(sizes, k, j) ==> sizes[t] != sizes[k],
    decreases k - j,
{
    if j < k && sizes[j] != sizes[k] {
        lemma_first_of_size_is_least(sizes, k, j + 1);
    }
}

/// In a mixed leaf, two groups of macros of the same size never share a connection
/// signature: same-size macros with equal signatures always end up in one group.
pub proof fn lemma_mixed_leaf_groups_split_by_signature(mv: Seq<MacroCluster>, sig: Seq<usize>, ic: Seq<i64>)
    requires
        sig.len() == mv.len(),
    ensures
        ({
            let mc = mixed_leaf_grouping(mv, sig, ic).0;
            forall|a: int, b: int|
                0 <= a < b < mv.len() && #[trigger] mc[a] == a && #[trigger] mc[b] == b && mv[a].size == mv[b].size ==> sig[a]
                    != sig[b]
        }),
{
    if mv.len() != 1 {
        let sizes = mv.map_values(|m: MacroCluster| m.size);
        let size_class = Seq::new(mv.len(), |k: int| first_of_size(sizes, k, 0) as usize);
        lemma_same_size_leaders_differ_in_signature(size_class, sig, ic.map_values(|v: i64| v as int));
        let mc = mixed_leaf_grouping(mv, sig, ic).0;
        assert forall|a: int, b: int|
            0 <= a < b < mv.len() && #[trigger] mc[a] == a && #[trigger] mc[b] == b && mv[a].size == mv[b].size implies sig[a]
                != sig[b] by {
            lemma_first_of_size_is_least(sizes, a, 0);
            lemma_first_of_size_is_least(sizes, b, 0);
            let fa = first_of_size(sizes, a, 0);
            let fb = first_of_size(sizes, b, 0);
            assert(sizes[a] == sizes[b]);
            if fb < fa {
                assert(sizes[fb] == sizes[a]);
            }
            if fa < fb {
                assert(fa < b);
                assert(sizes[fa] == sizes[b]);
            }
            assert(size_class[a] == size_class[b]);
        }
    }
}

/// The macros among the first `n` that lead their group, in order.
pub open spec fn group_leaders(mc: Seq<int>, n: int) -> Seq<int>
    decreases n,
{
    if n <= 0 {
        Seq::empty()
    } else if mc[n - 1] == n - 1 {
        group_leaders(mc, n - 1).push(n - 1)
    } else {
        group_leaders(mc, n - 1)
    }
}

/// The macros among the first `n` in the group led by `leader`, in order.
pub open spec fn group_members(mc: Seq<int>, leader: int, n: int) -> Seq<int>
    decreases n,
{
    if n <= 0 {
        Seq::empty()
    } else if mc[n - 1] == leader {
        group_members(mc, leader, n - 1).push(n - 1)
    } else {
        group_members(mc, leader, n - 1)
    }
}

/// The pairs that member `i` opens with every later member, in order.
pub open spec fn pairs_from(s: Seq<ClusterId>, i: int) -> Seq<(ClusterId, ClusterId)> {
    Seq::new((s.len() - i - 1) as nat, |j: int| (s[i], s[i + 1 + j]))
}

/// Every pair among the members, the earlier member first, by the first then the second.
pub open spec fn pairs_upto(s: Seq<ClusterId>, i: int) -> Seq<(ClusterId, ClusterId)>
    decreases i,
{
    if i <= 0 {
        Seq::empty()
    } else {
        pairs_upto(s, i - 1) + pairs_from(s, i - 1)
    }
}

/// The members a broken mixed leaf joins by virtual connections: the leaf itself, then each
/// array's leader, then each fixed macro's cluster.
pub open spec fn virtual_members(mixed_leaf: ClusterId, ms: Seq<MacroCluster>, sig: Seq<usize>, ic: Seq<i64>) -> Seq<ClusterId> {
    let mv = movable_macros(ms, ms.len() as int);
    let st = mixed_leaf_grouping(mv, sig, ic);
    seq![mixed_leaf] + group_leaders(st.0, mv.len() as int).map_values(|i: int| mv[i].id) + fixed_cluster_ids(
        ms,
        ms.len() as int,
    )
}

proof fn lemma_movable_fixed_len(ms: Seq<MacroCluster>, n: int)
    requires
        0 <= n <= ms.len(),
    ensures
        movable_macros(ms, n).len() + fixed_cluster_ids(ms, n).len() == n,
    decreases n,
{
    if n > 0 {
        lemma_movable_fixed_len(ms, n - 1);
    }
}

proof fn lemma_leaders_in_range(mc: Seq<int>, n: int)
    requires
        n >= 0,
    ensures
        group_leaders(mc, n).len() <= n,
        forall|k: int| 0 <= k < group_leaders(mc, n).len() ==> 0 <= #[trigger] group_leaders(mc, n)[k] < n,
    decreases n,
{
    if n > 0 {
        lemma_leaders_in_range(mc, n - 1);
    }
}

proof fn lemma_members_in_range(mc: Seq<int>, leader: int, n: int)
    requires
        n >= 0,
    ensures
        group_members(mc, leader, n).len() <= n,
        forall|k: int| 0 <= k < group_members(mc, leader, n).len() ==> 0 <= #[trigger] group_members(mc, leader, n)[k] < n,
    decreases n,
{
    if n > 0 {
        lemma_members_in_range(mc, leader, n - 1);
    }
}

/// Break a cluster holding both macros and standard cells: the leaf keeps its standard cells
/// and becomes a standard-cell cluster; its movable macros are grouped (by
/// [`mixed_leaf_grouping`], from the signature and interconnection classes given for them in
/// order) and each group becomes an array led by its first macro; its fixed macros stay
/// clusters of their own; and a virtual connection joins every pair of
/// [`virtual_members`].
pub fn break_mixed_leaf(
    mixed_leaf: ClusterId,
    macros: &[MacroCluster],
    signature_class: &[usize],
    interconn_class: &[i64],
) -> (p: MixedLeafPlan)
    requires
        macros@.len() < i64::MAX,
        signature_class@.len() == movable_macros(macros@, macros@.len() as int).len(),
        interconn_class@.len() == movable_macros(macros@, macros@.len() as int).len(),
    ensures
        p.std_cell_cluster == mixed_leaf,
        p.fixed_clusters@ == fixed_cluster_ids(macros@, macros@.len() as int),
        ({
            let mv = movable_macros(macros@, macros@.len() as int);
            let st = mixed_leaf_grouping(mv, signature_class@, interconn_class@);
            let ls = group_leaders(st.0, mv.len() as int);
            &&& p.arrays@.len() == ls.len()
            &&& forall|k: int|
                0 <= k < ls.len() ==> {
                    &&& (#[trigger] p.arrays@[k]).id == mv[ls[k]].id
                    &&& p.arrays@[k].is_interconnected_array == (st.1[ls[k]] != -1)
                    &&& p.arrays@[k].members@ == group_members(st.0, ls[k], mv.len() as int).map_values(
                        |j: int| mv[j].id,
                    )
                }
        }),
        p.virtual_connections@ == ({
            let vm = virtual_members(mixed_leaf, macros@, signature_class@, interconn_class@);
            pairs_upto(vm, vm.len() as int)
        }),
{
    let ghost ms = macros@;
    let total = macros.len();
    let mut ids: Vec<ClusterId> = Vec::new();
    let mut sizes: Vec<MacroSize> = Vec::new();
    let mut fixed: Vec<ClusterId> = Vec::new();
    let mut k: usize = 0;
    while k < total
        invariant
            k <= total,
            total == ms.len(),
            ms == macros@,
            ids@ == movable_macros(ms, k as int).map_values(|m: MacroCluster| m.id),
            sizes@ == movable_macros(ms, k as int).map_values(|m: MacroCluster| m.size),
            fixed@ == fixed_cluster_ids(ms, k as int),
        decreases total - k,
    {
        let m = &macros[k];
        let ghost prev = movable_macros(ms, k as int);
        if m.is_fixed {
            fixed.push(m.id);
        } else {
            ids.push(m.id);
            sizes.push(m.size);
            proof {
                assert(prev.push(ms[k as int]).map_values(|m: MacroCluster| m.id) =~= prev.map_values(
                    |m: MacroCluster| m.id,
                ).push(ms[k as int].id));
                assert(prev.push(ms[k as int]).map_values(|m: MacroCluster| m.size) =~= prev.map_values(
                    |m: MacroCluster| m.size,
                ).push(ms[k as int].size));
            }
        }
        k = k + 1;
    }
    let ghost mv = movable_macros(ms, total as int);
    let ghost st = mixed_leaf_grouping(mv, signature_class@, interconn_class@);
    let n = ids.len();
    proof {
        lemma_movable_fixed_len(ms, total as int);
    }
    assert(n == mv.len());
    let grouping = if n == 1 {
        let g = single_macro_grouping();
        assert(g.macro_class@.map_values(|v: usize| v as int) =~= st.0);
        assert(g.interconn_class@.map_values(|v: i64| v as int) =~= st.1);
        g
    } else {
        let size_class = classify_by_size(&sizes);
        proof {
            let sz = mv.map_values(|m: MacroCluster| m.size);
            assert(sizes@ == sz);
            assert forall|k: int| 0 <= k < n implies #[trigger] size_class@[k] == first_of_size(sz, k, 0) as usize by {
                lemma_first_of_size(sz, k, size_class@[k] as int, 0);
            }
            assert(size_class@ =~= Seq::new(mv.len(), |k: int| first_of_size(sz, k, 0) as usize));
        }
        group_single_macro_clusters(&size_class, signature_class, interconn_class)
    };
    let ghost mc = st.0;
    let ghost ics = st.1;
    assert(grouping.macro_class@.len() == n && grouping.interconn_class@.len() == n);
    assert forall|i: int| 0 <= i < n implies #[trigger] grouping.macro_class@[i] as int == mc[i] && grouping.interconn_class@[i] as int == ics[i] by {
        assert(grouping.macro_class@.map_values(|v: usize| v as int)[i] == mc[i]);
        assert(grouping.interconn_class@.map_values(|v: i64| v as int)[i] == ics[i]);
    }
    let mut arrays: Vec<MacroArray> = Vec::new();
    let mut leader_ids: Vec<ClusterId> = Vec::new();
    let mut i: usize = 0;
    while i < n
        invariant
            i <= n,
            n == mv.len(),
            n == ids@.len(),
            ids@ == mv.map_values(|m: MacroCluster| m.id),
            grouping.macro_class@.len() == n,
            grouping.interconn_class@.len() == n,
            forall|a: int| 0 <= a < n ==> #[trigger] grouping.macro_class@[a] as int == mc[a] && grouping.interconn_class@[a] as int == ics[a],
            arrays@.len() == group_leaders(mc, i as int).len(),
            leader_ids@ == group_leaders(mc, i as int).map_values(|a: int| mv[a].id),
            forall|q: int|
                0 <= q < group_leaders(mc, i as int).len() ==> {
                    &&& (#[trigger] arrays@[q]).id == mv[group_leaders(mc, i as int)[q]].id
                    &&& arrays@[q].is_interconnected_array == (ics[group_leaders(mc, i as int)[q]] != -1)
                    &&& arrays@[q].members@ == group_members(mc, group_leaders(mc, i as int)[q], n as int).map_values(
                        |j: int| mv[j].id,
                    )
                },
        decreases n - i,
    {
        let ghost ls = group_leaders(mc, i as int);
        if grouping.macro_class[i] == i {
            let mut members: Vec<ClusterId> = Vec::new();
            let mut j: usize = 0;
            while j < n
                invariant
                    j <= n,
                    i < n,
                    n == mv.len(),
                    n == ids@.len(),
                    ids@ == mv.map_values(|m: MacroCluster| m.id),
                    grouping.macro_class@.len() == n,
                    forall|a: int| 0 <= a < n ==> #[trigger] grouping.macro_class@[a] as int == mc[a],
                    members@ == group_members(mc, i as int, j as int).map_values(|b: int| mv[b].id),
                decreases n - j,
            {
                let ghost before = group_members(mc, i as int, j as int);
                if grouping.macro_class[j] == i {
                    members.push(ids[j]);
                    proof {
                        assert(before.push(j as int).map_values(|b: int| mv[b].id) =~= before.map_values(
                            |b: int| mv[b].id,
                        ).push(mv[j as int].id));
                    }
                }
                j = j + 1;
            }
            assert(grouping.interconn_class@[i as int] as int == ics[i as int]);
            let interconnected = grouping.interconn_class[i] != -1;
            arrays.push(MacroArray { id: ids[i], is_interconnected_array: interconnected, members });
            leader_ids.push(ids[i]);
            proof {
                assert(group_leaders(mc, i + 1) == ls.push(i as int));
                assert(ls.push(i as int).map_values(|a: int| mv[a].id) =~= ls.map_values(|a: int| mv[a].id).push(
                    mv[i as int].id,
                ));
            }
        }
        i = i + 1;
    }
    let mut vm: Vec<ClusterId> = Vec::new();
    vm.push(mixed_leaf);
    let mut a: usize = 0;
    while a < leader_ids.len()
        invariant
            a <= leader_ids@.len(),
            vm@ == seq![mixed_leaf] + leader_ids@.take(a as int),
        decreases leader_ids@.len() - a,
    {
        vm.push(leader_ids[a]);
        proof {
            assert(leader_ids@.take(a + 1) =~= leader_ids@.take(a as int).push(leader_ids@[a as int]));
        }
        a = a + 1;
    }
    let mut b: usize = 0;
    while b < fixed.len()
        invariant
            b <= fixed@.len(),
            vm@ == seq![mixed_leaf] + leader_ids@ + fixed@.take(b as int),
        decreases fixed@.len() - b,
    {
        vm.push(fixed[b]);
        proof {
            assert(fixed@.take(b + 1) =~= fixed@.take(b as int).push(fixed@[b as int]));
        }
        b = b + 1;
    }
    proof {
        assert(leader_ids@.take(leader_ids@.len() as int) =~= leader_ids@);
        assert(fixed@.take(fixed@.len() as int) =~= fixed@);
    }
    let ghost vs = vm@;
    assert(vs == virtual_members(mixed_leaf, macros@, signature_class@, interconn_class@));
    let m = vm.len();
    let mut pairs: Vec<(ClusterId, ClusterId)> = Vec::new();
    let mut x: usize = 0;
    while x < m
        invariant
            x <= m,
            m == vs.len(),
            vs == vm@,
            pairs@ == pairs_upto(vs, x as int),
        decreases m - x,
    {
        let mut y: usize = x + 1;
        while y < m
            invariant
                x < y <= m,
                m == vs.len(),
                vs == vm@,
                pairs@ == pairs_upto(vs, x as int) + pairs_from(vs, x as int).take(y - x - 1),
            decreases m - y,
        {
            pairs.push((vm[x], vm[y]));
            proof {
                assert(pairs_from(vs, x as int).take(y - x) =~= pairs_from(vs, x as int).take(y - x - 1).push(
                    (vs[x as int], vs[y as int]),
                ));
            }
            y = y + 1;
        }
        proof {
            assert(pairs_from(vs, x as int).take(m - x - 1) =~= pairs_from(vs, x as int));
        }
        x = x + 1;
    }
    MixedLeafPlan { std_cell_cluster: mixed_leaf, arrays, fixed_clusters: fixed, virtual_connections: pairs }
}

} // verus!
