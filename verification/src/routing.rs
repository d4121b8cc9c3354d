//! Choice of the node that serves a request.
use crate::float64::place;
use crate::ranking::{is_ranking, ranking};
use crate::reputation::{score_of, Records, ReputationDb};
use crate::words::text_views;
use vstd::prelude::*;

verus! {

/// The scores of candidates, each with its decay factor.
pub open spec fn candidate_scores(
    records: Records,
    candidates: Seq<Seq<char>>,
    decays: Seq<u64>,
) -> Seq<u64> {
    Seq::new(candidates.len(), |i: int| score_of(records, candidates[i], decays[i]))
}

/// The candidates in a given order.
pub open spec fn arranged(candidates: Seq<Seq<char>>, order: Seq<usize>) -> Seq<Seq<char>> {
    Seq::new(order.len(), |i: int| candidates[order[i] as int])
}

/// A router that goes by reputation.
pub struct HarnessRouter<'a> {
    reputation_db: &'a ReputationDb,
}

impl<'a> HarnessRouter<'a> {
    /// Whether the histories are well formed.
    pub closed spec fn wf(&self) -> bool {
        self.reputation_db.wf()
    }

    /// The histories that the router goes by.
    pub closed spec fn records(&self) -> Records {
        self.reputation_db@
    }

    /// A router that goes by the given histories.
    pub fn new(reputation_db: &'a ReputationDb) -> (r: HarnessRouter<'a>)
        requires
            reputation_db.wf(),
        ensures
            r.wf(),
            r.records() == reputation_db@,
    {
        HarnessRouter { reputation_db }
    }

    /// The candidate with the highest score, and the others by falling score. Of equal scores the
    /// candidate that came first goes first. The decay factor of each candidate is given.
    pub fn resolve_routing(
        &self,
        _model: &str,
        candidates: Vec<String>,
        decays: &Vec<u64>,
    ) -> (r: Result<(String, Vec<String>), String>)
        requires
            self.wf(),
            decays@.len() == candidates@.len(),
        ensures
            match r {
                Err(words) => candidates@.len() == 0 && words@
                    == "No active provider nodes available for this model"@,
                Ok((primary, backups)) => candidates@.len() > 0 && exists|order: Seq<usize>|
                    #[trigger]
                    is_ranking(
                        candidate_scores(self.records(), text_views(candidates@), decays@),
                        order,
                    ) && seq![primary@] + text_views(backups@) == arranged(
                        text_views(candidates@),
                        order,
                    ),
            },
    {
        if candidates.len() == 0 {
            return Err("No active provider nodes available for this model".to_owned());
        }
        let ghost views = text_views(candidates@);
        let ghost expected = candidate_scores(self.records(), views, decays@);
        let mut scores: Vec<u64> = Vec::new();
        let mut i: usize = 0;
        while i < candidates.len()
            invariant
                self.wf(),
                views == text_views(candidates@),
                expected == candidate_scores(self.records(), views, decays@),
                decays@.len() == candidates@.len(),
                i <= candidates@.len(),
                scores@ == expected.take(i as int),
            decreases candidates@.len() - i,
        {
            scores.push(self.reputation_db.get_score(&candidates[i], decays[i]));
            assert(scores@ == expected.take(i + 1));
            i += 1;
        }
        assert(expected.take(expected.len() as int) == expected);
        let order = ranking(&scores);
        let primary = candidates[order[0]].clone();
        let mut backups: Vec<String> = Vec::new();
        let mut k: usize = 1;
        let ghost all = arranged(views, order@);
        assert(seq![primary@] + text_views(backups@) == all.take(1));
        while k < order.len()
            invariant
                views == text_views(candidates@),
                all == arranged(views, order@),
                is_ranking(expected, order@),
                expected.len() == candidates@.len(),
                1 <= k <= order@.len(),
                seq![primary@] + text_views(backups@) == all.take(k as int),
            decreases order@.len() - k,
        {
            let next = candidates[order[k]].clone();
            let ghost before = text_views(backups@);
            let ghost added = next@;
            backups.push(next);
            assert(text_views(backups@) == before.push(added));
            assert(all.take(k + 1) == all.take(k as int).push(all[k as int]));
            assert(seq![primary@] + before.push(added) == (seq![primary@] + before).push(added));
            k += 1;
        }
        assert(all.take(all.len() as int) == all);
        Ok((primary, backups))
    }
}

/// No candidate has a higher score than the one that a ranking puts first.
pub proof fn law_primary_has_best_score(scores: Seq<u64>, order: Seq<usize>, k: int)
    requires
        is_ranking(scores, order),
        0 <= k < scores.len(),
    ensures
        place(scores[order[0] as int]) >= place(scores[k]),
{
    crate::ranking::lemma_ranking_complete(scores, order, k);
    let i = choose|i: int| 0 <= i < order.len() && #[trigger] order[i] == k;
    if i > 0 {
        assert(crate::ranking::goes_before(scores, order[0] as int, order[i] as int));
    }
}

/// Candidates without a history are tried in the order in which they came.
pub proof fn law_unknown_candidates_keep_order(
    records: Records,
    candidates: Seq<Seq<char>>,
    decays: Seq<u64>,
    order: Seq<usize>,
)
    requires
        is_ranking(candidate_scores(records, candidates, decays), order),
        forall|i: int| 0 <= i < candidates.len() ==> !records.contains_key(
            #[trigger] candidates[i],
        ),
    ensures
        arranged(candidates, order) == candidates,
{
    let scores = candidate_scores(records, candidates, decays);
    let same = Seq::new(candidates.len(), |i: int| i as usize);
    if candidates.len() > 0 {
        crate::ranking::lemma_ranking_complete(scores, order, scores.len() - 1);
        assert forall|i: int| 0 <= i < candidates.len() implies #[trigger] scores[i]
            == crate::reputation::DEFAULT_SCORE by {
            assert(!records.contains_key(candidates[i]));
        }
        assert(is_ranking(scores, same));
        crate::ranking::law_ranking_unique(scores, same, order);
    }
    assert(arranged(candidates, order) == candidates);
}

/// The candidates are put in the order of their scores: no candidate comes before one with a higher
/// score, of equal scores the one that came first goes first, and each candidate is listed once.
pub proof fn law_candidates_are_tried_by_score(
    records: Records,
    candidates: Seq<Seq<char>>,
    decays: Seq<u64>,
    order: Seq<usize>,
    i: int,
    j: int,
)
    requires
        is_ranking(candidate_scores(records, candidates, decays), order),
        0 <= i < j < candidates.len(),
    ensures
        order.len() == candidates.len(),
        arranged(candidates, order).len() == candidates.len(),
        0 <= order[i] < candidates.len(),
        order[i] != order[j],
        arranged(candidates, order)[i] == candidates[order[i] as int],
        ({
            let (a, b) = (order[i] as int, order[j] as int);
            let first = place(score_of(records, candidates[a], decays[a]));
            let second = place(score_of(records, candidates[b], decays[b]));
            first > second || (first == second && a < b)
        }),
{
    let scores = candidate_scores(records, candidates, decays);
    assert(crate::ranking::goes_before(scores, order[i] as int, order[j] as int));
}

/// Every candidate is tried at some point, and who is tried is a candidate.
pub proof fn law_every_candidate_is_tried(
    records: Records,
    candidates: Seq<Seq<char>>,
    decays: Seq<u64>,
    order: Seq<usize>,
    name: Seq<char>,
)
    requires
        is_ranking(candidate_scores(records, candidates, decays), order),
    ensures
        arranged(candidates, order).contains(name) <==> candidates.contains(name),
{
    let scores = candidate_scores(records, candidates, decays);
    let all = arranged(candidates, order);
    if candidates.contains(name) {
        let k = choose|k: int| 0 <= k < candidates.len() && candidates[k] == name;
        crate::ranking::lemma_ranking_complete(scores, order, k);
        let i = choose|i: int| 0 <= i < order.len() && #[trigger] order[i] == k;
        assert(all[i] == name);
    }
    if all.contains(name) {
        let i = choose|i: int| 0 <= i < all.len() && all[i] == name;
        assert(candidates[order[i] as int] == name);
    }
}

/// A node with a score above the default is tried before every unknown node, and an unknown node
/// before every node with a score below the default.
pub proof fn law_unknown_nodes_are_in_between(
    records: Records,
    candidates: Seq<Seq<char>>,
    decays: Seq<u64>,
    order: Seq<usize>,
    i: int,
    j: int,
)
    requires
        is_ranking(candidate_scores(records, candidates, decays), order),
        0 <= i < order.len(),
        0 <= j < order.len(),
        !records.contains_key(candidates[order[j] as int]),
    ensures
        ({
            let a = order[i] as int;
            let score = place(score_of(records, candidates[a], decays[a]));
            &&& score > place(crate::reputation::DEFAULT_SCORE) ==> i < j
            &&& score < place(crate::reputation::DEFAULT_SCORE) ==> i > j
        }),
{
    let scores = candidate_scores(records, candidates, decays);
    if i < j {
        assert(crate::ranking::goes_before(scores, order[i] as int, order[j] as int));
    } else if j < i {
        assert(crate::ranking::goes_before(scores, order[j] as int, order[i] as int));
    }
}

} // verus!
