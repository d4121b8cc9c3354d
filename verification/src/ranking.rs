//! Stable order by scores in double precision.
use crate::float64::{place, stands_before};
use vstd::prelude::*;

verus! {

/// Whether item `a` comes before item `b`: the higher score first, and of equal scores the one
/// that came first.
pub open spec fn goes_before(scores: Seq<u64>, a: int, b: int) -> bool {
    place(scores[a]) > place(scores[b]) || (place(scores[a]) == place(scores[b]) && a < b)
}

/// Whether `order` lists each item once, the highest score first.
pub open spec fn is_ranking(scores: Seq<u64>, order: Seq<usize>) -> bool {
    &&& order.len() == scores.len()
    &&& forall|i: int| 0 <= i < order.len() ==> 0 <= (#[trigger] order[i]) < scores.len()
    &&& forall|i: int, j: int|
        0 <= i < j < order.len() ==> goes_before(
            scores,
            #[trigger] order[i] as int,
            #[trigger] order[j] as int,
        )
}

/// The items of a list in the order of their scores, the highest first.
pub fn ranking(scores: &Vec<u64>) -> (order: Vec<usize>)
    ensures
        is_ranking(scores@, order@),
{
    let mut order: Vec<usize> = Vec::new();
    let mut n: usize = 0;
    while n < scores.len()
        invariant
            n <= scores@.len(),
            order@.len() == n,
            forall|i: int| 0 <= i < order@.len() ==> 0 <= (#[trigger] order@[i]) < n,
            forall|i: int, j: int|
                0 <= i < j < order@.len() ==> goes_before(
                    scores@,
                    #[trigger] order@[i] as int,
                    #[trigger] order@[j] as int,
                ),
        decreases scores@.len() - n,
    {
        let mut at: usize = order.len();
        while at > 0 && stands_before(scores[order[at - 1]], scores[n])
            invariant
                at <= order@.len(),
                n < scores@.len(),
                order@.len() == n,
                forall|i: int| 0 <= i < order@.len() ==> 0 <= (#[trigger] order@[i]) < n,
                forall|i: int|
                    at <= i < order@.len() ==> goes_before(
                        scores@,
                        n as int,
                        #[trigger] order@[i] as int,
                    ),
            decreases at,
        {
            at -= 1;
        }
        let ghost before = order@;
        proof {
            assert forall|i: int| 0 <= i < at implies goes_before(
                scores@,
                #[trigger] before[i] as int,
                n as int,
            ) by {
                if i < at - 1 {
                    assert(goes_before(scores@, before[i] as int, before[at - 1] as int));
                }
            }
        }
        order.insert(at, n);
        proof {
            let after = order@;
            assert(after == before.insert(at as int, n));
            assert forall|i: int, j: int| 0 <= i < j < after.len() implies goes_before(
                scores@,
                #[trigger] after[i] as int,
                #[trigger] after[j] as int,
            ) by {
                let i0 = if i < at { i } else { i - 1 };
                let j0 = if j < at { j } else { j - 1 };
                if i != at && j != at {
                    assert(goes_before(scores@, before[i0] as int, before[j0] as int));
                } else if i == at {
                    assert(goes_before(scores@, n as int, before[j0] as int));
                } else {
                    assert(goes_before(scores@, before[i] as int, n as int));
                }
            }
            assert forall|i: int| 0 <= i < after.len() implies 0 <= (#[trigger] after[i])
                < n + 1 by {
                if i != at {
                    let i0 = if i < at { i } else { i - 1 };
                    assert(after[i] == before[i0]);
                }
            }
        }
        n += 1;
    }
    order
}

/// Every item has a place in a ranking.
pub proof fn lemma_ranking_complete(scores: Seq<u64>, order: Seq<usize>, k: int)
    requires
        is_ranking(scores, order),
        0 <= k < scores.len(),
    ensures
        exists|i: int| 0 <= i < order.len() && #[trigger] order[i] == k,
{
    let listed = order.map_values(|x: usize| x as int);
    assert(listed.no_duplicates()) by {
        assert forall|i: int, j: int| 0 <= i < listed.len() && 0 <= j < listed.len() && i
            != j implies listed[i] != listed[j] by {
            if i < j {
                assert(goes_before(scores, order[i] as int, order[j] as int));
            } else {
                assert(goes_before(scores, order[j] as int, order[i] as int));
            }
        }
    }
    let all = vstd::set_lib::set_int_range(0, scores.len() as int);
    vstd::set_lib::lemma_int_range(0, scores.len() as int);
    listed.unique_seq_to_set();
    let set = listed.to_set();
    assert(set.subset_of(all)) by {
        assert forall|x: int| set.contains(x) implies all.contains(x) by {
            let i = choose|i: int| 0 <= i < listed.len() && listed[i] == x;
            assert(0 <= order[i] < scores.len());
        }
    }
    vstd::set_lib::lemma_subset_equality(set, all);
    assert(set.contains(k));
    let i = choose|i: int| 0 <= i < listed.len() && listed[i] == k;
    assert(order[i] == k);
}

/// A list of scores has one ranking.
pub proof fn law_ranking_unique(scores: Seq<u64>, a: Seq<usize>, b: Seq<usize>)
    requires
        is_ranking(scores, a),
        is_ranking(scores, b),
    ensures
        a == b,
{
    lemma_same_up_to(scores, a, b, a.len() as int);
    assert(a == b);
}

proof fn lemma_same_up_to(scores: Seq<u64>, a: Seq<usize>, b: Seq<usize>, n: int)
    requires
        is_ranking(scores, a),
        is_ranking(scores, b),
        0 <= n <= a.len(),
    ensures
        forall|i: int| 0 <= i < n ==> #[trigger] a[i] == b[i],
    decreases n,
{
    if n > 0 {
        lemma_same_up_to(scores, a, b, n - 1);
        let k = n - 1;
        lemma_ranking_complete(scores, b, a[k] as int);
        lemma_ranking_complete(scores, a, b[k] as int);
        let j = choose|j: int| 0 <= j < b.len() && #[trigger] b[j] == a[k];
        let i = choose|i: int| 0 <= i < a.len() && #[trigger] a[i] == b[k];
        if j < k {
            assert(a[j] == b[j]);
            assert(goes_before(scores, a[j] as int, a[k] as int));
        }
        if i < k {
            assert(a[i] == b[i]);
            assert(goes_before(scores, b[i] as int, b[k] as int));
        }
        if j > k && i > k {
            assert(goes_before(scores, b[k] as int, b[j] as int));
            assert(goes_before(scores, a[k] as int, a[i] as int));
        }
    }
}

} // verus!
