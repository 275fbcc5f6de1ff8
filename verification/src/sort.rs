//! Sorting coordinates into ascending order.

use vstd::prelude::*;
use vstd::relations::{sorted_by, total_ordering};

verus! {

/// The ascending order on 32-bit coordinates.
pub open spec fn le_i32(a: i32, b: i32) -> bool {
    a <= b
}

/// The values of `s` in ascending order.
pub open spec fn ascending_i32(s: Seq<i32>) -> Seq<i32> {
    s.sort_by(|a: i32, b: i32| le_i32(a, b))
}

proof fn lemma_le_total()
    ensures
        total_ordering(|a: i32, b: i32| le_i32(a, b)),
{
}

/// Sort 32-bit values into ascending order.
pub fn sort_i32(v: Vec<i32>) -> (r: Vec<i32>)
    ensures
        r@ == ascending_i32(v@),
{
    let mut out: Vec<i32> = Vec::new();
    let mut k: usize = 0;
    proof {
        assert(v@.take(0) =~= Seq::<i32>::empty());
    }
    while k < v.len()
        invariant
            k <= v@.len(),
            out@.to_multiset() == v@.take(k as int).to_multiset(),
            forall|i: int, j: int| 0 <= i < j < out@.len() ==> out@[i] <= out@[j],
        decreases v@.len() - k,
    {
        let x = v[k];
        let mut pos: usize = out.len();
        while pos > 0 && out[pos - 1] > x
            invariant
                pos <= out@.len(),
                forall|m: int| pos <= m < out@.len() ==> out@[m] > x,
            decreases pos,
        {
            pos = pos - 1;
        }
        let ghost before = out@;
        out.insert(pos, x);
        proof {
            vstd::seq_lib::to_multiset_insert(before, pos as int, x);
            vstd::seq_lib::to_multiset_build(v@.take(k as int), x);
            assert(v@.take(k + 1) =~= v@.take(k as int).push(x));
            assert forall|i: int, j: int| 0 <= i < j < out@.len() implies out@[i] <= out@[j] by {
                if j < pos {
                } else if i < pos && j == pos {
                    if pos > 0 {
                        assert(before[pos - 1] <= x);
                        if i < pos - 1 {
                            assert(before[i] <= before[pos - 1]);
                        }
                    }
                } else if i < pos && j > pos {
                    assert(out@[j] == before[j - 1]);
                } else if i == pos {
                    assert(out@[j] == before[j - 1]);
                } else {
                    assert(out@[i] == before[i - 1]);
                    assert(out@[j] == before[j - 1]);
                }
            }
        }
        k = k + 1;
    }
    proof {
        assert(v@.take(v@.len() as int) =~= v@);
        assert(sorted_by(out@, |a: i32, b: i32| le_i32(a, b)));
        lemma_le_total();
        v@.lemma_sort_by_ensures(|a: i32, b: i32| le_i32(a, b));
        vstd::seq_lib::lemma_sorted_unique(out@, ascending_i32(v@), |a: i32, b: i32| le_i32(a, b));
    }
    out
}

} // verus!
