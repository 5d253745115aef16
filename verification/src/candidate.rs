//! Ordering of routing candidates.

use std::cmp::Ordering;

use vstd::prelude::*;

use crate::score::Score;
use crate::worker::WorkerId;

verus! {

/// Sort key for cache-aware selection: higher score wins; ties break on fewer
/// in-flight requests, then on lower worker id.
#[derive(Debug, Clone, Copy)]
pub struct Candidate {
    /// Selection score.
    pub score: Score,
    /// Requests in flight at the worker.
    pub in_flight: u64,
    /// The worker.
    pub id: WorkerId,
}

/// How two scores compare. A score without a place counts as equal to any
/// other, which leaves the decision to the tie-breakers.
pub open spec fn score_order(a: Score, b: Score) -> Ordering {
    match (a, b) {
        (Score::Rank(x), Score::Rank(y)) => if x < y {
            Ordering::Less
        } else if x > y {
            Ordering::Greater
        } else {
            Ordering::Equal
        },
        _ => Ordering::Equal,
    }
}

/// How two candidates compare: `Greater` is better.
pub open spec fn candidate_order(a: Candidate, b: Candidate) -> Ordering {
    match score_order(a.score, b.score) {
        Ordering::Less => Ordering::Less,
        Ordering::Greater => Ordering::Greater,
        Ordering::Equal => if a.in_flight != b.in_flight {
            if a.in_flight < b.in_flight {
                Ordering::Greater
            } else {
                Ordering::Less
            }
        } else if a.id != b.id {
            if a.id < b.id {
                Ordering::Greater
            } else {
                Ordering::Less
            }
        } else {
            Ordering::Equal
        },
    }
}

/// Whether one candidate is strictly better than another.
pub open spec fn better(a: Candidate, b: Candidate) -> bool {
    candidate_order(a, b) == Ordering::Greater
}

impl Candidate {
    /// Whether this candidate is strictly better than another.
    pub fn is_better_than(&self, other: &Candidate) -> (r: bool)
        ensures
            r == better(*self, *other),
    {
        match self.compare(other) {
            Ordering::Greater => true,
            _ => false,
        }
    }

    /// Compare with another candidate.
    pub fn compare(&self, other: &Candidate) -> (r: Ordering)
        ensures
            r == candidate_order(*self, *other),
    {
        if let (Score::Rank(x), Score::Rank(y)) = (self.score, other.score) {
            if x < y {
                return Ordering::Less;
            }
            if x > y {
                return Ordering::Greater;
            }
        }
        if self.in_flight < other.in_flight {
            Ordering::Greater
        } else if self.in_flight > other.in_flight {
            Ordering::Less
        } else if self.id < other.id {
            Ordering::Greater
        } else if self.id > other.id {
            Ordering::Less
        } else {
            Ordering::Equal
        }
    }
}

impl PartialEq for Candidate {
    fn eq(&self, other: &Candidate) -> (r: bool) {
        match self.compare(other) {
            Ordering::Equal => true,
            _ => false,
        }
    }
}

impl vstd::std_specs::cmp::PartialEqSpecImpl for Candidate {
    open spec fn obeys_eq_spec() -> bool {
        true
    }

    open spec fn eq_spec(&self, other: &Candidate) -> bool {
        candidate_order(*self, *other) == Ordering::Equal
    }
}

impl PartialOrd for Candidate {
    fn partial_cmp(&self, other: &Candidate) -> (r: Option<Ordering>) {
        Some(self.compare(other))
    }
}

impl vstd::std_specs::cmp::PartialOrdSpecImpl for Candidate {
    open spec fn obeys_partial_cmp_spec() -> bool {
        true
    }

    open spec fn partial_cmp_spec(&self, other: &Candidate) -> Option<Ordering> {
        Some(candidate_order(*self, *other))
    }
}

/// The position of the winner of a tournament in order: each candidate takes
/// the lead unless the leader is better.
pub open spec fn winner(candidates: Seq<Candidate>) -> int
    decreases candidates.len(),
{
    if candidates.len() <= 1 {
        0
    } else {
        let leader = winner(candidates.drop_last());
        if better(candidates[leader], candidates.last()) {
            leader
        } else {
            candidates.len() - 1
        }
    }
}

/// The position of the best candidate, if there is any candidate.
pub fn pick_winner(candidates: &Vec<Candidate>) -> (r: Option<usize>)
    ensures
        match r {
            Some(at) => at < candidates@.len() && at == winner(candidates@),
            None => candidates@.len() == 0,
        },
{
    if candidates.is_empty() {
        return None;
    }
    let mut leader: usize = 0;
    let mut next: usize = 1;
    while next < candidates.len()
        invariant
            1 <= next <= candidates@.len(),
            leader < next,
            leader == winner(candidates@.take(next as int)),
        decreases candidates@.len() - next,
    {
        let ghost upto = candidates@.take(next + 1);
        assert(upto.drop_last() =~= candidates@.take(next as int));
        if !candidates[leader].is_better_than(&candidates[next]) {
            leader = next;
        }
        next += 1;
    }
    assert(candidates@.take(next as int) =~= candidates@);
    Some(leader)
}

/// Where every score has a place and no worker stands twice, the winner is
/// strictly better than every other candidate, so the choice does not depend
/// on the order in which candidates are looked at.
pub proof fn law_winner_beats_all(candidates: Seq<Candidate>)
    requires
        candidates.len() > 0,
        forall|i: int| 0 <= i < candidates.len() ==> (#[trigger] candidates[i]).score is Rank,
        forall|i: int, j: int|
            0 <= i < j < candidates.len() ==> candidates[i].id != candidates[j].id,
    ensures
        0 <= winner(candidates) < candidates.len(),
        forall|i: int|
            0 <= i < candidates.len() && i != winner(candidates) ==> better(
                candidates[winner(candidates)],
                #[trigger] candidates[i],
            ),
    decreases candidates.len(),
{
    if candidates.len() > 1 {
        let head = candidates.drop_last();
        assert forall|i: int| 0 <= i < head.len() implies (#[trigger] head[i]).score is Rank by {
            assert(candidates[i].score is Rank);
        }
        law_winner_beats_all(head);
        let leader = winner(head);
        let last = candidates.last();
        assert(candidates[candidates.len() - 1].score is Rank);
        assert(candidates[leader].score is Rank);
        assert forall|i: int|
            0 <= i < candidates.len() && i != winner(candidates) implies better(
            candidates[winner(candidates)],
            #[trigger] candidates[i],
        ) by {
            if i < head.len() {
                assert(head[i] == candidates[i]);
                assert(candidates[i].score is Rank);
                if i != leader {
                    assert(better(head[leader], head[i]));
                }
            }
        }
    }
}

/// Whatever the scores, the winner is strictly better than every candidate
/// that stands after it.
pub proof fn law_winner_beats_those_after(candidates: Seq<Candidate>, i: int)
    requires
        winner(candidates) < i < candidates.len(),
    ensures
        0 <= winner(candidates),
        better(candidates[winner(candidates)], candidates[i]),
    decreases candidates.len(),
{
    let head = candidates.drop_last();
    if i < head.len() {
        law_winner_beats_those_after(head, i);
    }
    lemma_winner_is_one(head);
}

proof fn lemma_winner_is_one(candidates: Seq<Candidate>)
    requires
        candidates.len() > 0,
    ensures
        0 <= winner(candidates) < candidates.len(),
    decreases candidates.len(),
{
    if candidates.len() > 1 {
        lemma_winner_is_one(candidates.drop_last());
    }
}

/// Score dominates: a candidate with a higher score is better, whatever its
/// load.
pub proof fn law_score_dominates(a: Candidate, b: Candidate, x: i64, y: i64)
    requires
        a.score == Score::Rank(x),
        b.score == Score::Rank(y),
        x > y,
    ensures
        better(a, b),
{
}

/// Equal scores fall to the worker with fewer requests in flight, and equal
/// load to the lower id.
pub proof fn law_ties_break_on_load_then_id(a: Candidate, b: Candidate)
    requires
        a.score == b.score,
        a.in_flight < b.in_flight || (a.in_flight == b.in_flight && a.id < b.id),
    ensures
        better(a, b),
{
}

/// Comparing the other way round gives the opposite answer.
pub proof fn law_order_is_antisymmetric(a: Candidate, b: Candidate)
    ensures
        candidate_order(a, b) == Ordering::Greater <==> candidate_order(b, a) == Ordering::Less,
        candidate_order(a, b) == Ordering::Equal <==> candidate_order(b, a) == Ordering::Equal,
{
}

/// A score without a place in the order decides nothing: load and then id do.
pub proof fn law_unordered_scores_tie(a: Candidate, b: Candidate)
    requires
        a.score is Unordered || b.score is Unordered,
    ensures
        better(a, b) <==> a.in_flight < b.in_flight || (a.in_flight == b.in_flight && a.id < b.id),
{
}

/// Among candidates with a place in the order, the better one has the higher
/// score, or the same score and fewer requests in flight, or the same of both
/// and the lower id.
pub proof fn law_better_is_score_then_load_then_id(a: Candidate, b: Candidate, x: i64, y: i64)
    requires
        a.score == Score::Rank(x),
        b.score == Score::Rank(y),
    ensures
        better(a, b) <==> x > y || (x == y && (a.in_flight < b.in_flight || (a.in_flight
            == b.in_flight && a.id < b.id))),
{
}

} // verus!
