//! Request routing: picks a healthy worker for each request.
//!
//! # Policies
//!
//! - `round_robin`: strictly cyclic among healthy workers. The prefix index is
//!   still maintained so callers can observe cache reuse.
//! - `cache_aware`: scores every healthy worker by the blocks it is believed
//!   to hold and the requests it has in flight, and picks the best, ties broken
//!   by fewest in-flight requests then lowest id.
//! - `disaggregated`: prefill and decode run on different pools; callers drive
//!   the two phases through [`Router::select_in_pool`].
//!
//! # Why the load term exists
//!
//! A pure cache-affinity router hot-spots one replica: the first request for a
//! prompt lands somewhere, every later request scores that worker higher, and
//! the feedback loop pins the whole workload to a single engine while the rest
//! idle. Pricing concurrency back in sheds traffic to idle replicas once the
//! cache gain stops covering the queueing cost.

use vstd::prelude::*;

use crate::beliefs::{
    holds, law_match_len_is_the_held_prefix, law_recorded_chain_matches_in_full,
    law_recording_is_per_worker, law_touching_changes_no_match, lemma_match_ends,
    lemma_record_covers_touch, match_len, recorded, touched, Belief,
};
use crate::candidate::{
    better, law_winner_beats_all, law_winner_beats_those_after, pick_winner, winner, Candidate,
};
use crate::config::{Pool, RouterConfig, RoutingPolicy};
use crate::error::RouterError;
use crate::hashing::{chain_hash, prompt_chain};
use crate::inflight::{count_of, InflightTracker};
use crate::prefix::PrefixIndex;
use crate::request::{prompt_of, ChatCompletionRequest};
use crate::score::Score;
use crate::worker::{
    law_healthy_workers_are_listed, RegistryView, Worker, WorkerId, WorkerRegistry,
};

verus! {

/// The outcome of a routing decision.
#[derive(Debug)]
pub struct RouteDecision {
    /// The chosen worker.
    pub worker: Worker,
    /// Longest prefix of the prompt's block chain the chosen worker is
    /// believed to hold, measured before this request was recorded against it.
    pub matched_prefix_len: usize,
    /// Blocks in the prompt's chain.
    pub prompt_blocks: usize,
    /// Selection score; zero for policies that do not score.
    pub score: Score,
}

impl Clone for RouteDecision {
    fn clone(&self) -> (r: RouteDecision)
        ensures
            r == *self,
    {
        RouteDecision {
            worker: self.worker.clone(),
            matched_prefix_len: self.matched_prefix_len,
            prompt_blocks: self.prompt_blocks,
            score: self.score,
        }
    }
}

/// What a router holds, but for its scoring function.
#[verifier::ext_equal]
pub struct RouterView {
    /// The worker registry.
    pub registry: RegistryView,
    /// The configured policy.
    pub policy: RoutingPolicy,
    /// Round-robin counter.
    pub next_worker: usize,
    /// Beliefs about cached blocks.
    pub index: Map<u64, Belief>,
    /// Requests in flight by worker id.
    pub counts: Seq<u64>,
    /// Characters per prompt block.
    pub block_size: nat,
}

/// The workers of one pool, in the order given.
pub open spec fn in_pool(workers: Seq<Worker>, pool: Pool) -> Seq<Worker> {
    workers.filter(|w: Worker| w.pool == pool)
}

/// The workers a whole chat completion may go to. It spans prefill and decode,
/// so workers that serve both are preferred; without one, any worker will do.
pub open spec fn chat_candidates(healthy: Seq<Worker>) -> Seq<Worker> {
    if in_pool(healthy, Pool::Both).len() > 0 {
        in_pool(healthy, Pool::Both)
    } else {
        healthy
    }
}

/// The counter after one more round-robin pick. It is a machine word and wraps.
pub open spec fn next_turn(counter: usize) -> usize {
    if counter == usize::MAX {
        0
    } else {
        (counter + 1) as usize
    }
}

/// `candidates` are the `workers`, each with its load and a score that the
/// scoring function gives for its believed prefix match and its load.
pub open spec fn scored<F: Fn(usize, u64) -> Score>(
    scoring: F,
    before: RouterView,
    workers: Seq<Worker>,
    chain: Seq<u64>,
    candidates: Seq<Candidate>,
) -> bool {
    &&& candidates.len() == workers.len()
    &&& forall|i: int|
        0 <= i < workers.len() ==> {
            let c = #[trigger] candidates[i];
            &&& c.id == workers[i].id
            &&& c.in_flight == count_of(before.counts, workers[i].id)
            &&& call_ensures(
                scoring,
                (match_len(before.index, workers[i].id, chain) as usize, c.in_flight),
                c.score,
            )
        }
}

impl RouterView {
    /// The state after `chain` was dispatched to a worker: the worker is now
    /// believed to hold all of it.
    pub open spec fn dispatched(self, worker: WorkerId, chain: Seq<u64>, now: u64) -> RouterView {
        RouterView { index: recorded(self.index, worker, chain, now), ..self }
    }

    /// The decision sends `chain` to `worker` and reports the match measured
    /// beforehand.
    pub open spec fn sends_to(
        self,
        worker: Worker,
        chain: Seq<u64>,
        score: Score,
        decision: RouteDecision,
    ) -> bool {
        &&& decision.worker == worker
        &&& decision.matched_prefix_len == match_len(self.index, worker.id, chain)
        &&& decision.prompt_blocks == chain.len()
        &&& decision.score == score
    }

    /// The decision goes to the winner among `workers` by score, load and id.
    pub open spec fn sends_to_best<F: Fn(usize, u64) -> Score>(
        self,
        scoring: F,
        workers: Seq<Worker>,
        chain: Seq<u64>,
        decision: RouteDecision,
    ) -> bool {
        exists|candidates: Seq<Candidate>| #[trigger]
            scored(scoring, self, workers, chain, candidates) && self.sends_to(
                workers[winner(candidates)],
                chain,
                candidates[winner(candidates)].score,
                decision,
            )
    }

    /// What routing a chat completion at time `now` returns, and the state it
    /// leaves.
    pub open spec fn chat_outcome<F: Fn(usize, u64) -> Score>(
        self,
        scoring: F,
        prompt: Seq<char>,
        now: u64,
        result: Result<RouteDecision, RouterError>,
        after: RouterView,
    ) -> bool {
        let healthy = self.registry.healthy_workers();
        let workers = chat_candidates(healthy);
        let chain = prompt_chain(prompt, self.block_size);
        if healthy.len() == 0 {
            &&& result matches Err(RouterError::NoHealthyWorkers { policy })
            &&& policy@ == self.policy.name()
            &&& after == self
        } else {
            match self.policy {
                RoutingPolicy::RoundRobin => {
                    let worker = workers[self.next_worker as int % workers.len() as int];
                    &&& result matches Ok(decision)
                    &&& self.sends_to(worker, chain, Score::Rank(0), decision)
                    &&& after == RouterView {
                        next_worker: next_turn(self.next_worker),
                        ..self.dispatched(worker.id, chain, now)
                    }
                },
                RoutingPolicy::CacheAware => {
                    &&& result matches Ok(decision)
                    &&& self.sends_to_best(scoring, workers, chain, decision)
                    &&& after == self.dispatched(decision.worker.id, chain, now)
                },
                RoutingPolicy::Disaggregated => {
                    &&& result matches Err(RouterError::DisaggregatedRequiresTwoPhase)
                    &&& after == self
                },
            }
        }
    }

    /// What selecting a worker of one pool at time `now` returns, and the state
    /// it leaves.
    pub open spec fn pool_outcome<F: Fn(usize, u64) -> Score>(
        self,
        scoring: F,
        pool: Pool,
        chain: Seq<u64>,
        now: u64,
        result: Result<RouteDecision, RouterError>,
        after: RouterView,
    ) -> bool {
        let workers = in_pool(self.registry.healthy_workers(), pool);
        if workers.len() == 0 {
            &&& result matches Err(RouterError::NoHealthyWorkersInPool { pool: name, policy })
            &&& name@ == pool.name()
            &&& policy@ == self.policy.name()
            &&& after == self
        } else {
            &&& result matches Ok(decision)
            &&& self.sends_to_best(scoring, workers, chain, decision)
            &&& after == self.dispatched(decision.worker.id, chain, now)
        }
    }
}

/// Picks a healthy worker for each request.
///
/// `F` is the scoring function: it is given the number of blocks a worker is
/// believed to hold and the number of requests it has in flight.
pub struct Router<F> {
    registry: WorkerRegistry,
    policy: RoutingPolicy,
    next_worker: usize,
    prefix_index: PrefixIndex,
    inflight: InflightTracker,
    block_size: usize,
    score: F,
}

impl<F> View for Router<F> {
    type V = RouterView;

    closed spec fn view(&self) -> RouterView {
        RouterView {
            registry: self.registry@,
            policy: self.policy,
            next_worker: self.next_worker,
            index: self.prefix_index@,
            counts: self.inflight@,
            block_size: self.block_size as nat,
        }
    }
}

struct ScoredWorker {
    worker: Worker,
    matched: usize,
    score: Score,
}

fn select_pool(workers: &Vec<Worker>, pool: Pool) -> (r: Vec<Worker>)
    ensures
        r@ == in_pool(workers@, pool),
{
    let mut r: Vec<Worker> = Vec::new();
    let mut i: usize = 0;
    proof {
        reveal(Seq::filter);
        assert(workers@.take(0) =~= seq![]);
    }
    while i < workers.len()
        invariant
            i <= workers@.len(),
            r@ == in_pool(workers@.take(i as int), pool),
        decreases workers@.len() - i,
    {
        proof {
            reveal(Seq::filter);
            assert(workers@.take(i + 1).drop_last() =~= workers@.take(i as int));
        }
        if workers[i].pool == pool {
            r.push(workers[i].clone());
        }
        i += 1;
    }
    assert(workers@.take(i as int) =~= workers@);
    r
}

impl<F: Fn(usize, u64) -> Score> Router<F> {
    /// Validity: the parts are valid, blocks are not empty, and the scoring
    /// function accepts every input.
    pub closed spec fn wf(self) -> bool {
        &&& self.registry.wf()
        &&& self.prefix_index.wf()
        &&& self.block_size > 0
        &&& forall|matched: usize, in_flight: u64|
            call_requires(self.score, (matched, in_flight))
    }

    /// The scoring function.
    pub closed spec fn scoring(self) -> F {
        self.score
    }

    /// A router over `registry`, with an empty prefix index and nothing in
    /// flight.
    pub fn new(registry: WorkerRegistry, config: &RouterConfig, score: F) -> (r: Router<F>)
        requires
            registry.wf(),
            forall|matched: usize, in_flight: u64| call_requires(score, (matched, in_flight)),
        ensures
            r.wf(),
            r.scoring() == score,
            r@ == (RouterView {
                registry: registry@,
                policy: config.routing_policy,
                next_worker: 0,
                index: Map::empty(),
                counts: Seq::new(config.workers@.len(), |i: int| 0u64),
                block_size: if config.prompt_block_chars == 0 {
                    1
                } else {
                    config.prompt_block_chars as nat
                },
            }),
    {
        let block_size = if config.prompt_block_chars == 0 {
            1
        } else {
            config.prompt_block_chars
        };
        Router {
            registry,
            policy: config.routing_policy,
            next_worker: 0,
            prefix_index: PrefixIndex::new(),
            inflight: InflightTracker::with_capacity(config.workers.len()),
            block_size,
            score,
        }
    }

    /// The configured policy.
    pub fn policy(&self) -> (r: RoutingPolicy)
        ensures
            r == self@.policy,
    {
        self.policy
    }

    /// The worker registry, for reading.
    pub fn read_registry(&self) -> (r: &WorkerRegistry)
        ensures
            r@ == self@.registry,
            self.wf() ==> r.wf(),
    {
        &self.registry
    }

    /// The prefix index, for reading.
    pub fn read_index(&self) -> (r: &PrefixIndex)
        ensures
            r@ == self@.index,
            self.wf() ==> r.wf(),
    {
        &self.prefix_index
    }

    /// The in-flight counts, for reading.
    pub fn read_inflight(&self) -> (r: &InflightTracker)
        ensures
            r@ == self@.counts,
    {
        &self.inflight
    }

    /// The worker registry.
    pub fn registry(&mut self) -> (r: &mut WorkerRegistry)
        ensures
            r@ == old(self)@.registry,
            old(self).wf() ==> r.wf(),
            old(self).wf() && final(r).wf() ==> final(self).wf(),
            final(self).scoring() == old(self).scoring(),
            final(self)@ == (RouterView { registry: final(r)@, ..old(self)@ }),
    {
        &mut self.registry
    }

    /// The prefix index.
    pub fn prefix_index(&mut self) -> (r: &mut PrefixIndex)
        ensures
            r@ == old(self)@.index,
            old(self).wf() ==> r.wf(),
            old(self).wf() && final(r).wf() ==> final(self).wf(),
            final(self).scoring() == old(self).scoring(),
            final(self)@ == (RouterView { index: final(r)@, ..old(self)@ }),
    {
        &mut self.prefix_index
    }

    /// The worker registry and the prefix index together.
    pub fn membership(&mut self) -> (r: (&mut WorkerRegistry, &mut PrefixIndex))
        ensures
            r.0@ == old(self)@.registry,
            r.1@ == old(self)@.index,
            old(self).wf() ==> r.0.wf() && r.1.wf(),
            old(self).wf() && final(r.0).wf() && final(r.1).wf() ==> final(self).wf(),
            final(self).scoring() == old(self).scoring(),
            final(self)@ == (RouterView {
                registry: final(r.0)@,
                index: final(r.1)@,
                ..old(self)@
            }),
    {
        (&mut self.registry, &mut self.prefix_index)
    }

    /// The in-flight counts.
    pub fn inflight(&mut self) -> (r: &mut InflightTracker)
        ensures
            r@ == old(self)@.counts,
            old(self).wf() ==> final(self).wf(),
            final(self).scoring() == old(self).scoring(),
            final(self)@ == (RouterView { counts: final(r)@, ..old(self)@ }),
    {
        &mut self.inflight
    }

    /// The block chain of a request's canonical prompt.
    pub fn chain_for(&self, request: &ChatCompletionRequest) -> (chain: Vec<u64>)
        ensures
            chain@ == prompt_chain(prompt_of(request.messages@), self@.block_size),
    {
        let prompt = request.canonical_prompt();
        chain_hash(prompt.as_str(), self.block_size)
    }

    /// Score every worker and return the winner, if any. Looking blocks up
    /// touches them.
    fn pick_best(&mut self, workers: &Vec<Worker>, chain: &[u64], now: u64) -> (r: Option<
        ScoredWorker,
    >)
        requires
            old(self).wf(),
        ensures
            final(self).wf(),
            final(self).scoring() == old(self).scoring(),
            exists|seen: Seq<u64>|
                {
                    &&& forall|i: int| 0 <= i < seen.len() ==> chain@.contains(#[trigger] seen[i])
                    &&& final(self)@ == (RouterView {
                        index: #[trigger] touched(old(self)@.index, seen, now),
                        ..old(self)@
                    })
                },
            match r {
                None => workers@.len() == 0,
                Some(best) => exists|candidates: Seq<Candidate>|
                    {
                        let at = winner(candidates);
                        &&& #[trigger] scored(
                            old(self).scoring(),
                            old(self)@,
                            workers@,
                            chain@,
                            candidates,
                        )
                        &&& 0 <= at < workers@.len()
                        &&& best.worker == workers@[at]
                        &&& best.matched == match_len(old(self)@.index, workers@[at].id, chain@)
                        &&& best.score == candidates[at].score
                    },
            },
    {
        let ghost before = old(self)@;
        let ghost mut seen: Seq<u64> = seq![];
        let mut candidates: Vec<Candidate> = Vec::new();
        let mut matches: Vec<usize> = Vec::new();
        let mut i: usize = 0;
        assert(self@.index =~= touched(before.index, seen, now));
        while i < workers.len()
            invariant
                self.wf(),
                self.scoring() == old(self).scoring(),
                before == old(self)@,
                i <= workers@.len(),
                candidates@.len() == i,
                matches@.len() == i,
                forall|k: int| 0 <= k < seen.len() ==> chain@.contains(#[trigger] seen[k]),
                self@ == (RouterView { index: touched(before.index, seen, now), ..before }),
                scored(
                    old(self).scoring(),
                    before,
                    workers@.take(i as int),
                    chain@,
                    candidates@,
                ),
                forall|k: int|
                    0 <= k < i ==> #[trigger] matches@[k] == match_len(
                        before.index,
                        workers@[k].id,
                        chain@,
                    ),
            decreases workers@.len() - i,
        {
            let id = workers[i].id;
            let ghost known = self@.index;
            let matched = self.prefix_index.longest_match_at(id, chain, now);
            let in_flight = self.inflight.count(id);
            assert(call_requires(self.score, (matched, in_flight)));
            let scoring = &self.score;
            let score = scoring(matched, in_flight);
            proof {
                law_touching_changes_no_match(before.index, seen, now, id, chain@);
                let hit = chain@.take(matched as int);
                assert(touched(known, hit, now) =~= touched(before.index, seen + hit, now)) by {
                    assert forall|h: u64| (seen + hit).contains(h) <==> seen.contains(h)
                        || hit.contains(h) by {
                        if seen.contains(h) {
                            let k = choose|k: int| 0 <= k < seen.len() && seen[k] == h;
                            assert((seen + hit)[k] == h);
                        }
                        if hit.contains(h) {
                            let k = choose|k: int| 0 <= k < hit.len() && hit[k] == h;
                            assert((seen + hit)[seen.len() + k] == h);
                        }
                    }
                }
                seen = seen + hit;
                assert(workers@.take(i + 1) =~= workers@.take(i as int).push(workers@[i as int]));
            }
            candidates.push(Candidate { score, in_flight, id });
            matches.push(matched);
            i += 1;
        }
        assert(workers@.take(i as int) =~= workers@);
        match pick_winner(&candidates) {
            None => None,
            Some(at) => Some(
                ScoredWorker {
                    worker: workers[at].clone(),
                    matched: matches[at],
                    score: candidates[at].score,
                },
            ),
        }
    }

    /// Pick the best of `workers`, dispatch `chain` to it and report.
    fn dispatch_best(&mut self, workers: &Vec<Worker>, chain: &[u64], now: u64) -> (r: Option<
        RouteDecision,
    >)
        requires
            old(self).wf(),
        ensures
            final(self).wf(),
            final(self).scoring() == old(self).scoring(),
            match r {
                None => workers@.len() == 0,
                Some(decision) => {
                    &&& old(self)@.sends_to_best(
                        old(self).scoring(),
                        workers@,
                        chain@,
                        decision,
                    )
                    &&& final(self)@ == old(self)@.dispatched(decision.worker.id, chain@, now)
                },
            },
    {
        match self.pick_best(workers, chain, now) {
            None => None,
            Some(best) => {
                let ghost seen = choose|seen: Seq<u64>|
                    {
                        &&& forall|i: int|
                            0 <= i < seen.len() ==> chain@.contains(#[trigger] seen[i])
                        &&& self@ == (RouterView {
                            index: #[trigger] touched(old(self)@.index, seen, now),
                            ..old(self)@
                        })
                    };
                self.prefix_index.record_at(best.worker.id, chain, now);
                proof {
                    lemma_record_covers_touch(
                        old(self)@.index,
                        seen,
                        best.worker.id,
                        chain@,
                        now,
                    );
                }
                Some(
                    RouteDecision {
                        worker: best.worker,
                        matched_prefix_len: best.matched,
                        prompt_blocks: chain.len(),
                        score: best.score,
                    },
                )
            },
        }
    }

    /// Route a full chat completion (prefill and decode on one worker) at
    /// time `now`.
    pub fn select_for_chat_at(&mut self, request: &ChatCompletionRequest, now: u64) -> (r: Result<
        RouteDecision,
        RouterError,
    >)
        requires
            old(self).wf(),
        ensures
            final(self).wf(),
            final(self).scoring() == old(self).scoring(),
            old(self)@.chat_outcome(
                old(self).scoring(),
                prompt_of(request.messages@),
                now,
                r,
                final(self)@,
            ),
    {
        let chain = self.chain_for(request);
        let healthy = self.registry.healthy_workers();
        if healthy.is_empty() {
            return Err(RouterError::NoHealthyWorkers { policy: self.policy.to_string() });
        }
        let both = select_pool(&healthy, Pool::Both);
        let candidates = if both.is_empty() {
            healthy
        } else {
            both
        };
        match self.policy {
            RoutingPolicy::RoundRobin => {
                let index = self.next_worker % candidates.len();
                self.next_worker = self.next_worker.wrapping_add(1);
                let worker = candidates[index].clone();
                let matched_prefix_len = self.prefix_index.longest_match_at(
                    worker.id,
                    chain.as_slice(),
                    now,
                );
                self.prefix_index.record_at(worker.id, chain.as_slice(), now);
                proof {
                    let hit = chain@.take(matched_prefix_len as int);
                    assert forall|i: int| 0 <= i < hit.len() implies chain@.contains(
                        #[trigger] hit[i],
                    ) by {
                        assert(chain@[i] == hit[i]);
                    }
                    lemma_record_covers_touch(old(self)@.index, hit, worker.id, chain@, now);
                }
                Ok(
                    RouteDecision {
                        worker,
                        matched_prefix_len,
                        prompt_blocks: chain.len(),
                        score: Score::Rank(0),
                    },
                )
            },
            RoutingPolicy::CacheAware => {
                match self.dispatch_best(&candidates, chain.as_slice(), now) {
                    Some(decision) => Ok(decision),
                    None => Err(
                        RouterError::NoHealthyWorkers { policy: self.policy.to_string() },
                    ),
                }
            },
            RoutingPolicy::Disaggregated => Err(RouterError::DisaggregatedRequiresTwoPhase),
        }
    }

    /// Route a full chat completion (prefill and decode on one worker).
    ///
    /// The chain is recorded against the chosen worker at dispatch time, in the
    /// optimistic belief that the worker caches it after prefill. If the
    /// request later fails, the belief is wrong until the TTL sweeps it; stale
    /// entries cause mis-routes, never incorrect results.
    pub fn select_for_chat(&mut self, request: &ChatCompletionRequest) -> (r: Result<
        RouteDecision,
        RouterError,
    >)
        requires
            old(self).wf(),
        ensures
            final(self).wf(),
            final(self).scoring() == old(self).scoring(),
            exists|now: u64| #[trigger]
                old(self)@.chat_outcome(
                    old(self).scoring(),
                    prompt_of(request.messages@),
                    now,
                    r,
                    final(self)@,
                ),
    {
        let now = self.prefix_index.now();
        self.select_for_chat_at(request, now)
    }

    /// Select a worker of one pool at time `now`.
    pub fn select_in_pool_at(&mut self, pool: Pool, chain: &[u64], now: u64) -> (r: Result<
        RouteDecision,
        RouterError,
    >)
        requires
            old(self).wf(),
        ensures
            final(self).wf(),
            final(self).scoring() == old(self).scoring(),
            old(self)@.pool_outcome(
                old(self).scoring(),
                pool,
                chain@,
                now,
                r,
                final(self)@,
            ),
    {
        let healthy = self.registry.healthy_workers();
        let candidates = select_pool(&healthy, pool);
        if candidates.is_empty() {
            return Err(
                RouterError::NoHealthyWorkersInPool {
                    pool: pool.to_string(),
                    policy: self.policy.to_string(),
                },
            );
        }
        match self.dispatch_best(&candidates, chain, now) {
            Some(decision) => Ok(decision),
            None => Err(
                RouterError::NoHealthyWorkersInPool {
                    pool: pool.to_string(),
                    policy: self.policy.to_string(),
                },
            ),
        }
    }

    /// Select a worker of one pool: one phase of the disaggregated flow.
    /// Always scores, whatever the configured policy: within a pool, the right
    /// worker is the one with the best cache/load tradeoff, and disaggregated
    /// pools exist precisely to exploit KV reuse.
    ///
    /// The chain is recorded optimistically at dispatch; for a decode worker
    /// the KV blocks arrive via transfer milliseconds later, opening a tiny
    /// mis-route window, never a correctness bug.
    pub fn select_in_pool(&mut self, pool: Pool, chain: &[u64]) -> (r: Result<
        RouteDecision,
        RouterError,
    >)
        requires
            old(self).wf(),
        ensures
            final(self).wf(),
            final(self).scoring() == old(self).scoring(),
            exists|now: u64| #[trigger]
                old(self)@.pool_outcome(
                    old(self).scoring(),
                    pool,
                    chain@,
                    now,
                    r,
                    final(self)@,
                ),
    {
        let now = self.prefix_index.now();
        self.select_in_pool_at(pool, chain, now)
    }
}

proof fn lemma_filtered(workers: Seq<Worker>, pool: Pool)
    ensures
        forall|i: int|
            0 <= i < in_pool(workers, pool).len() ==> (#[trigger] in_pool(workers, pool)[i]).pool
                == pool && workers.contains(in_pool(workers, pool)[i]),
        forall|w: Worker| workers.contains(w) && w.pool == pool ==> #[trigger] in_pool(
            workers,
            pool,
        ).contains(w),
        in_pool(workers, pool).len() <= workers.len(),
    decreases workers.len(),
{
    reveal(Seq::filter);
    if workers.len() > 0 {
        let head = workers.drop_last();
        lemma_filtered(head, pool);
        let kept = in_pool(workers, pool);
        let kept_head = in_pool(head, pool);
        assert forall|i: int| 0 <= i < kept.len() implies (#[trigger] kept[i]).pool == pool
            && workers.contains(kept[i]) by {
            if i < kept_head.len() {
                assert(kept[i] == kept_head[i]);
                let k = choose|k: int| 0 <= k < head.len() && head[k] == kept_head[i];
                assert(workers[k] == kept[i]);
            } else {
                assert(workers[workers.len() - 1] == kept[i]);
            }
        }
        assert forall|w: Worker| workers.contains(w) && w.pool == pool implies #[trigger]
            kept.contains(w) by {
            let k = choose|k: int| 0 <= k < workers.len() && workers[k] == w;
            if k < head.len() {
                assert(head[k] == w);
                assert(kept_head.contains(w));
                let j = choose|j: int| 0 <= j < kept_head.len() && kept_head[j] == w;
                assert(kept[j] == w);
            } else {
                assert(kept[kept.len() - 1] == w);
            }
        }
    }
}

/// Choosing a pool keeps the order by id, so no worker stands twice.
proof fn lemma_filtered_by_id(workers: Seq<Worker>, pool: Pool)
    requires
        forall|i: int, j: int| 0 <= i < j < workers.len() ==> workers[i].id < workers[j].id,
    ensures
        forall|i: int, j: int|
            0 <= i < j < in_pool(workers, pool).len() ==> in_pool(workers, pool)[i].id < in_pool(
                workers,
                pool,
            )[j].id,
    decreases workers.len(),
{
    reveal(Seq::filter);
    if workers.len() > 0 {
        let head = workers.drop_last();
        lemma_filtered_by_id(head, pool);
        lemma_filtered(head, pool);
        let kept = in_pool(workers, pool);
        let kept_head = in_pool(head, pool);
        assert forall|i: int, j: int| 0 <= i < j < kept.len() implies kept[i].id < kept[j].id by {
            if j == kept_head.len() {
                let k = choose|k: int| 0 <= k < head.len() && head[k] == kept_head[i];
                assert(workers[k].id < workers[workers.len() - 1].id);
            }
        }
    }
}

proof fn lemma_winner_in_range(candidates: Seq<Candidate>)
    requires
        candidates.len() > 0,
    ensures
        0 <= winner(candidates) < candidates.len(),
    decreases candidates.len(),
{
    if candidates.len() > 1 {
        lemma_winner_in_range(candidates.drop_last());
    }
}

/// The worker of a decision that goes to the best of `workers` is one of them.
proof fn lemma_best_is_one_of<F: Fn(usize, u64) -> Score>(
    scoring: F,
    before: RouterView,
    workers: Seq<Worker>,
    chain: Seq<u64>,
    decision: RouteDecision,
)
    requires
        workers.len() > 0,
        before.sends_to_best(scoring, workers, chain, decision),
    ensures
        workers.contains(decision.worker),
{
    let candidates = choose|candidates: Seq<Candidate>| #[trigger]
        scored(scoring, before, workers, chain, candidates) && before.sends_to(
            workers[winner(candidates)],
            chain,
            candidates[winner(candidates)].score,
            decision,
        );
    lemma_winner_in_range(candidates);
}

proof fn lemma_chat_goes_to_a_candidate<F: Fn(usize, u64) -> Score>(
    scoring: F,
    before: RouterView,
    prompt: Seq<char>,
    now: u64,
    decision: RouteDecision,
    after: RouterView,
)
    requires
        before.chat_outcome(scoring, prompt, now, Ok(decision), after),
    ensures
        chat_candidates(before.registry.healthy_workers()).contains(decision.worker),
{
    let workers = chat_candidates(before.registry.healthy_workers());
    let chain = prompt_chain(prompt, before.block_size);
    match before.policy {
        RoutingPolicy::RoundRobin => {
            let at = before.next_worker as int % workers.len() as int;
            assert(0 <= at < workers.len());
            assert(workers[at] == decision.worker);
        },
        RoutingPolicy::CacheAware => {
            lemma_best_is_one_of(scoring, before, workers, chain, decision);
        },
        RoutingPolicy::Disaggregated => {},
    }
}

/// No request is ever routed to a worker that is down or unknown, under any
/// policy: a decision always names a registered, healthy worker.
pub proof fn law_never_routes_to_a_down_worker<F: Fn(usize, u64) -> Score>(
    scoring: F,
    before: RouterView,
    prompt: Seq<char>,
    now: u64,
    decision: RouteDecision,
    after: RouterView,
)
    requires
        before.registry.well_filed(),
        before.chat_outcome(scoring, prompt, now, Ok(decision), after),
    ensures
        before.registry.is_healthy(decision.worker.id),
        before.registry.workers[decision.worker.id].worker == decision.worker,
{
    let healthy = before.registry.healthy_workers();
    lemma_chat_goes_to_a_candidate(scoring, before, prompt, now, decision, after);
    lemma_filtered(healthy, Pool::Both);
    law_healthy_workers_are_listed(before.registry);
    let workers = chat_candidates(healthy);
    let at = choose|at: int| 0 <= at < workers.len() && workers[at] == decision.worker;
    assert(healthy.contains(workers[at]));
    let k = choose|k: int| 0 <= k < healthy.len() && healthy[k] == decision.worker;
    assert(before.registry.healthy_ids().contains(healthy[k].id));
}

/// A pool selection names a registered, healthy worker of the pool asked for.
pub proof fn law_pool_selection_stays_in_the_pool<F: Fn(usize, u64) -> Score>(
    scoring: F,
    before: RouterView,
    pool: Pool,
    chain: Seq<u64>,
    now: u64,
    decision: RouteDecision,
    after: RouterView,
)
    requires
        before.registry.well_filed(),
        before.pool_outcome(scoring, pool, chain, now, Ok(decision), after),
    ensures
        decision.worker.pool == pool,
        before.registry.is_healthy(decision.worker.id),
        before.registry.workers[decision.worker.id].worker == decision.worker,
{
    let healthy = before.registry.healthy_workers();
    let workers = in_pool(healthy, pool);
    lemma_best_is_one_of(scoring, before, workers, chain, decision);
    lemma_filtered(healthy, pool);
    law_healthy_workers_are_listed(before.registry);
    let at = choose|at: int| 0 <= at < workers.len() && workers[at] == decision.worker;
    assert(healthy.contains(workers[at]));
    let k = choose|k: int| 0 <= k < healthy.len() && healthy[k] == decision.worker;
    assert(before.registry.healthy_ids().contains(healthy[k].id));
}

/// As long as a healthy worker serves both phases, a chat completion goes to
/// such a worker.
pub proof fn law_workers_serving_both_are_preferred<F: Fn(usize, u64) -> Score>(
    scoring: F,
    before: RouterView,
    prompt: Seq<char>,
    now: u64,
    decision: RouteDecision,
    after: RouterView,
    both: WorkerId,
)
    requires
        before.registry.well_filed(),
        before.registry.is_healthy(both),
        before.registry.workers[both].worker.pool == Pool::Both,
        before.chat_outcome(scoring, prompt, now, Ok(decision), after),
    ensures
        decision.worker.pool == Pool::Both,
{
    let healthy = before.registry.healthy_workers();
    lemma_chat_goes_to_a_candidate(scoring, before, prompt, now, decision, after);
    lemma_filtered(healthy, Pool::Both);
    law_healthy_workers_are_listed(before.registry);
    assert(before.registry.healthy_ids().contains(both));
    let k = choose|k: int| 0 <= k < healthy.len() && healthy[k].id == both;
    assert(before.registry.healthy_ids().contains(healthy[k].id));
    assert(healthy.contains(healthy[k]));
    assert(in_pool(healthy, Pool::Both).contains(healthy[k]));
    let workers = chat_candidates(healthy);
    let at = choose|at: int| 0 <= at < workers.len() && workers[at] == decision.worker;
    assert(workers[at].pool == Pool::Both);
}

/// A chat completion is refused exactly where no worker is healthy, or where
/// the policy routes in two phases; a refusal changes nothing.
pub proof fn law_chat_is_refused_only_without_workers<F: Fn(usize, u64) -> Score>(
    scoring: F,
    before: RouterView,
    prompt: Seq<char>,
    now: u64,
    result: Result<RouteDecision, RouterError>,
    after: RouterView,
)
    requires
        before.registry.well_filed(),
        before.chat_outcome(scoring, prompt, now, result, after),
    ensures
        result is Err <==> (before.policy == RoutingPolicy::Disaggregated || forall|id: WorkerId|
            !#[trigger] before.registry.is_healthy(id)),
        result is Err ==> after == before,
{
    let healthy = before.registry.healthy_workers();
    law_healthy_workers_are_listed(before.registry);
    if healthy.len() == 0 {
        assert forall|id: WorkerId| !#[trigger] before.registry.is_healthy(id) by {
            if before.registry.is_healthy(id) {
                assert(before.registry.healthy_ids().contains(id));
            }
        }
    } else {
        assert(before.registry.healthy_ids().contains(healthy[0].id));
        assert(before.registry.is_healthy(healthy[0].id));
    }
}

/// Where every score has a place in the order, a cache-aware decision goes to
/// the one worker that is strictly better than every other candidate, by
/// score, then load, then id.
pub proof fn law_cache_aware_picks_the_best<F: Fn(usize, u64) -> Score>(
    scoring: F,
    before: RouterView,
    prompt: Seq<char>,
    now: u64,
    decision: RouteDecision,
    after: RouterView,
) -> (candidates: Seq<Candidate>)
    requires
        before.registry.well_filed(),
        before.policy == RoutingPolicy::CacheAware,
        forall|matched: usize, in_flight: u64, score: Score|
            call_ensures(scoring, (matched, in_flight), score) ==> score is Rank,
        before.chat_outcome(scoring, prompt, now, Ok(decision), after),
    ensures
        scored(
            scoring,
            before,
            chat_candidates(before.registry.healthy_workers()),
            prompt_chain(prompt, before.block_size),
            candidates,
        ),
        exists|at: int|
            {
                &&& 0 <= at < candidates.len()
                &&& (#[trigger] candidates[at]).id == decision.worker.id
                &&& candidates[at].score == decision.score
                &&& forall|i: int|
                    0 <= i < candidates.len() && i != at ==> better(
                        candidates[at],
                        #[trigger] candidates[i],
                    )
            },
{
    let healthy = before.registry.healthy_workers();
    let workers = chat_candidates(healthy);
    let chain = prompt_chain(prompt, before.block_size);
    let candidates = choose|candidates: Seq<Candidate>| #[trigger]
        scored(scoring, before, workers, chain, candidates) && before.sends_to(
            workers[winner(candidates)],
            chain,
            candidates[winner(candidates)].score,
            decision,
        );
    law_healthy_workers_are_listed(before.registry);
    lemma_filtered_by_id(healthy, Pool::Both);
    assert forall|i: int, j: int| 0 <= i < j < candidates.len() implies candidates[i].id
        != candidates[j].id by {
        assert(candidates[i].id == workers[i].id);
        assert(candidates[j].id == workers[j].id);
    }
    law_winner_beats_all(candidates);
    let at = winner(candidates);
    assert(candidates[at].id == workers[at].id);
    candidates
}

/// After a dispatch the same prompt matches in full at the chosen worker, and
/// what any other worker is believed to hold has not changed.
pub proof fn law_dispatch_is_remembered(
    before: RouterView,
    worker: WorkerId,
    chain: Seq<u64>,
    now: u64,
    other: WorkerId,
    probe: Seq<u64>,
)
    requires
        other != worker,
    ensures
        match_len(before.dispatched(worker, chain, now).index, worker, chain) == chain.len(),
        match_len(before.dispatched(worker, chain, now).index, other, probe) == match_len(
            before.index,
            other,
            probe,
        ),
{
    law_recorded_chain_matches_in_full(before.index, worker, chain, now);
    law_recording_is_per_worker(before.index, worker, chain, now, other, probe);
}

/// Consecutive round-robin requests: each state follows from the one before.
pub open spec fn round_robin_run<F: Fn(usize, u64) -> Score>(
    scoring: F,
    states: Seq<RouterView>,
    prompts: Seq<Seq<char>>,
    times: Seq<u64>,
    decisions: Seq<RouteDecision>,
) -> bool {
    &&& states.len() == decisions.len() + 1
    &&& prompts.len() == decisions.len()
    &&& times.len() == decisions.len()
    &&& states[0].policy == RoutingPolicy::RoundRobin
    &&& forall|k: int|
        0 <= k < decisions.len() ==> states[k].chat_outcome(
            scoring,
            prompts[k],
            times[k],
            Ok(#[trigger] decisions[k]),
            states[k + 1],
        )
}

proof fn lemma_round_robin_turn<F: Fn(usize, u64) -> Score>(
    scoring: F,
    states: Seq<RouterView>,
    prompts: Seq<Seq<char>>,
    times: Seq<u64>,
    decisions: Seq<RouteDecision>,
    k: int,
)
    requires
        round_robin_run(scoring, states, prompts, times, decisions),
        states[0].next_worker + decisions.len() <= usize::MAX,
        0 <= k <= decisions.len(),
    ensures
        states[k].policy == RoutingPolicy::RoundRobin,
        states[k].registry == states[0].registry,
        states[k].next_worker == states[0].next_worker + k,
    decreases k,
{
    if k > 0 {
        lemma_round_robin_turn(scoring, states, prompts, times, decisions, k - 1);
        assert(states[k - 1].chat_outcome(
            scoring,
            prompts[k - 1],
            times[k - 1],
            Ok(decisions[k - 1]),
            states[k],
        ));
    }
}

/// Turns less than a cycle apart differ; turns a cycle apart coincide.
proof fn lemma_turns(a: int, b: int, n: int)
    requires
        0 <= a < b,
        n > 0,
    ensures
        0 <= a % n < n,
        0 <= b % n < n,
        b - a < n ==> a % n != b % n,
        b - a == n ==> a % n == b % n,
{
    vstd::arithmetic::div_mod::lemma_fundamental_div_mod(a, n);
    vstd::arithmetic::div_mod::lemma_fundamental_div_mod(b, n);
    let qa = a / n;
    let qb = b / n;
    if b - a < n && a % n == b % n {
        assert(b - a == n * (qb - qa)) by (nonlinear_arith)
            requires
                a == n * qa + a % n,
                b == n * qb + b % n,
                a % n == b % n,
        ;
        assert(qb - qa >= 1 ==> n * (qb - qa) >= n) by (nonlinear_arith)
            requires
                n > 0,
        ;
        assert(qb - qa <= 0 ==> n * (qb - qa) <= 0) by (nonlinear_arith)
            requires
                n > 0,
        ;
    }
    if b - a == n {
        vstd::arithmetic::div_mod::lemma_mod_add_multiples_vanish(a, n);
    }
}

/// Round-robin is strictly cyclic while the registry stays as it is: request
/// `k` goes to the candidate `k` places on, so a full cycle visits every
/// candidate once and then repeats. (The counter is a machine word; the law is
/// stated for runs in which it does not wrap.)
pub proof fn law_round_robin_is_cyclic<F: Fn(usize, u64) -> Score>(
    scoring: F,
    states: Seq<RouterView>,
    prompts: Seq<Seq<char>>,
    times: Seq<u64>,
    decisions: Seq<RouteDecision>,
    i: int,
    j: int,
)
    requires
        states.len() > 0,
        states[0].registry.well_filed(),
        round_robin_run(scoring, states, prompts, times, decisions),
        states[0].next_worker + decisions.len() <= usize::MAX,
        0 <= i < j < decisions.len(),
    ensures
        ({
            let workers = chat_candidates(states[0].registry.healthy_workers());
            &&& workers.len() > 0
            &&& decisions[i].worker == workers[(states[0].next_worker + i) % (workers.len() as int)]
            &&& j - i < workers.len() ==> decisions[i].worker.id != decisions[j].worker.id
            &&& j - i == workers.len() ==> decisions[i].worker == decisions[j].worker
        }),
{
    let healthy = states[0].registry.healthy_workers();
    let workers = chat_candidates(healthy);
    lemma_round_robin_turn(scoring, states, prompts, times, decisions, i);
    lemma_round_robin_turn(scoring, states, prompts, times, decisions, j);
    assert(states[i].chat_outcome(
        scoring,
        prompts[i],
        times[i],
        Ok(decisions[i]),
        states[i + 1],
    ));
    assert(states[j].chat_outcome(
        scoring,
        prompts[j],
        times[j],
        Ok(decisions[j]),
        states[j + 1],
    ));
    let n = workers.len() as int;
    let a = states[0].next_worker + i;
    let b = states[0].next_worker + j;
    assert(n > 0);
    law_healthy_workers_are_listed(states[0].registry);
    lemma_filtered_by_id(healthy, Pool::Both);
    lemma_turns(a, b, n);
    if b - a < n {
        let x = a % n;
        let y = b % n;
        if x < y {
            assert(workers[x].id < workers[y].id);
        } else {
            assert(workers[y].id < workers[x].id);
        }
    }
}

/// The workers of one pool that a selection chooses from are the healthy
/// workers that serve it, each once and ordered by id.
pub proof fn law_pool_candidates_are_the_eligible(registry: RegistryView, pool: Pool, id: WorkerId)
    requires
        registry.well_filed(),
    ensures
        ({
            let listed = in_pool(registry.healthy_workers(), pool);
            &&& forall|i: int, j: int| 0 <= i < j < listed.len() ==> listed[i].id < listed[j].id
            &&& (exists|i: int|
                0 <= i < listed.len() && (#[trigger] listed[i]).id == id && listed[i]
                    == registry.workers[id].worker) <==> {
                &&& registry.workers.contains_key(id)
                &&& registry.workers[id].healthy
                &&& registry.workers[id].worker.pool == pool
            }
            &&& (exists|i: int| 0 <= i < listed.len() && (#[trigger] listed[i]).id == id)
                ==> registry.workers.contains_key(id) && registry.workers[id].healthy
                && registry.workers[id].worker.pool == pool
        }),
{
    let healthy = registry.healthy_workers();
    let listed = in_pool(healthy, pool);
    law_healthy_workers_are_listed(registry);
    lemma_filtered(healthy, pool);
    lemma_filtered_by_id(healthy, pool);
    if exists|i: int| 0 <= i < listed.len() && (#[trigger] listed[i]).id == id {
        let i = choose|i: int| 0 <= i < listed.len() && (#[trigger] listed[i]).id == id;
        assert(healthy.contains(listed[i]));
        let k = choose|k: int| 0 <= k < healthy.len() && healthy[k] == listed[i];
        assert(registry.healthy_ids().contains(healthy[k].id));
        assert(listed[i].pool == pool);
    }
    if registry.workers.contains_key(id) && registry.workers[id].healthy
        && registry.workers[id].worker.pool == pool {
        assert(registry.healthy_ids().contains(id));
        let k = choose|k: int| 0 <= k < healthy.len() && healthy[k].id == id;
        assert(healthy[k] == registry.workers[id].worker);
        assert(healthy.contains(healthy[k]));
        assert(listed.contains(healthy[k]));
        let i = choose|i: int| 0 <= i < listed.len() && listed[i] == healthy[k];
        assert(listed[i].id == id && listed[i] == registry.workers[id].worker);
    }
}

/// The workers a chat completion may go to are the healthy workers that serve
/// both phases or, where there is none, all healthy ones, each once and ordered
/// by id.
pub proof fn law_chat_candidates_are_the_eligible(registry: RegistryView, id: WorkerId)
    requires
        registry.well_filed(),
    ensures
        ({
            let listed = chat_candidates(registry.healthy_workers());
            &&& forall|i: int, j: int| 0 <= i < j < listed.len() ==> listed[i].id < listed[j].id
            &&& (exists|i: int|
                0 <= i < listed.len() && (#[trigger] listed[i]).id == id && listed[i]
                    == registry.workers[id].worker) <==> {
                &&& registry.workers.contains_key(id)
                &&& registry.workers[id].healthy
                &&& registry.workers[id].worker.pool == Pool::Both || !(exists|other: WorkerId| #[trigger]
                    registry.workers.contains_key(other) && registry.workers[other].healthy
                        && registry.workers[other].worker.pool == Pool::Both)
            }
            &&& (exists|i: int| 0 <= i < listed.len() && (#[trigger] listed[i]).id == id)
                ==> registry.workers.contains_key(id) && registry.workers[id].healthy
        }),
{
    let healthy = registry.healthy_workers();
    let both = in_pool(healthy, Pool::Both);
    law_pool_candidates_are_the_eligible(registry, Pool::Both, id);
    law_healthy_workers_are_listed(registry);
    if both.len() > 0 {
        let other = both[0].id;
        law_pool_candidates_are_the_eligible(registry, Pool::Both, other);
        assert(both[0].id == other);
        assert(registry.workers.contains_key(other));
    } else {
        assert forall|other: WorkerId| #[trigger]
            registry.workers.contains_key(other) && registry.workers[other].healthy implies
            registry.workers[other].worker.pool != Pool::Both by {
            law_pool_candidates_are_the_eligible(registry, Pool::Both, other);
        }
        if exists|i: int| 0 <= i < healthy.len() && (#[trigger] healthy[i]).id == id {
            let i = choose|i: int| 0 <= i < healthy.len() && (#[trigger] healthy[i]).id == id;
            assert(registry.healthy_ids().contains(healthy[i].id));
        }
        if registry.workers.contains_key(id) && registry.workers[id].healthy {
            assert(registry.healthy_ids().contains(id));
            let k = choose|k: int| 0 <= k < healthy.len() && healthy[k].id == id;
            assert(healthy[k].id == id && healthy[k] == registry.workers[id].worker);
        }
    }
}

/// The decision for the best of some workers, against any one of them.
proof fn lemma_best_beats<F: Fn(usize, u64) -> Score>(
    scoring: F,
    before: RouterView,
    workers: Seq<Worker>,
    chain: Seq<u64>,
    decision: RouteDecision,
    at: int,
) -> (score: Score)
    requires
        forall|i: int, j: int| 0 <= i < j < workers.len() ==> workers[i].id < workers[j].id,
        before.sends_to_best(scoring, workers, chain, decision),
        0 <= at < workers.len(),
    ensures
        ({
            let chosen = Candidate {
                score: decision.score,
                in_flight: count_of(before.counts, decision.worker.id),
                id: decision.worker.id,
            };
            let rival = Candidate {
                score,
                in_flight: count_of(before.counts, workers[at].id),
                id: workers[at].id,
            };
            &&& decision.matched_prefix_len == match_len(before.index, chosen.id, chain)
            &&& call_ensures(
                scoring,
                (decision.matched_prefix_len, chosen.in_flight),
                decision.score,
            )
            &&& call_ensures(
                scoring,
                (match_len(before.index, rival.id, chain) as usize, rival.in_flight),
                score,
            )
            &&& rival.id != chosen.id && (chosen.id < rival.id || forall|
                m: usize,
                l: u64,
                s: Score,
            |
                call_ensures(scoring, (m, l), s) ==> s is Rank) ==> better(chosen, rival)
        }),
{
    let candidates = choose|candidates: Seq<Candidate>| #[trigger]
        scored(scoring, before, workers, chain, candidates) && before.sends_to(
            workers[winner(candidates)],
            chain,
            candidates[winner(candidates)].score,
            decision,
        );
    let best = winner(candidates);
    lemma_winner_in_range(candidates);
    assert(candidates[best].id == workers[best].id);
    assert(candidates[at].id == workers[at].id);
    if best < at {
        law_winner_beats_those_after(candidates, at);
    } else if at < best && forall|m: usize, l: u64, s: Score|
        call_ensures(scoring, (m, l), s) ==> s is Rank {
        assert forall|i: int, j: int| 0 <= i < j < candidates.len() implies candidates[i].id
            != candidates[j].id by {
            assert(candidates[i].id == workers[i].id);
            assert(candidates[j].id == workers[j].id);
        }
        law_winner_beats_all(candidates);
        assert(better(candidates[best], candidates[at]));
    }
    candidates[at].score
}

/// A cache-aware decision is the best tradeoff of cache and load. The chosen
/// worker's score is what the scoring function gives for the leading blocks of
/// the prompt it holds and all its requests in flight. Any other worker that
/// could have been chosen (healthy, and serving both phases if some healthy
/// worker does), scored for the `held` leading blocks it holds and its own
/// requests in flight, is no better: its score is lower, or equal with more
/// requests in flight, or with as many and a higher id. A score without a place
/// in the order counts as equal to any other; where there are such scores, this
/// is said of rivals with higher ids.
pub proof fn law_chat_goes_to_the_best_tradeoff<F: Fn(usize, u64) -> Score>(
    scoring: F,
    before: RouterView,
    prompt: Seq<char>,
    now: u64,
    decision: RouteDecision,
    after: RouterView,
    rival: WorkerId,
    held: nat,
) -> (score: Score)
    requires
        before.registry.well_filed(),
        before.policy == RoutingPolicy::CacheAware,
        before.chat_outcome(scoring, prompt, now, Ok(decision), after),
        before.registry.workers.contains_key(rival),
        before.registry.workers[rival].healthy,
        before.registry.workers[rival].worker.pool == Pool::Both || forall|other: WorkerId|
            #[trigger]
            before.registry.workers.contains_key(other) && before.registry.workers[other].healthy
                ==> before.registry.workers[other].worker.pool != Pool::Both,
        held <= prompt_chain(prompt, before.block_size).len(),
        forall|i: int|
            0 <= i < held ==> before.index.contains_key(
                #[trigger] prompt_chain(prompt, before.block_size)[i],
            ) && before.index[prompt_chain(prompt, before.block_size)[i]].workers.contains(rival),
        held < prompt_chain(prompt, before.block_size).len() ==> !(before.index.contains_key(
            prompt_chain(prompt, before.block_size)[held as int],
        ) && before.index[prompt_chain(prompt, before.block_size)[held as int]].workers.contains(rival)),
    ensures
        ({
            let chosen = decision.worker.id;
            let load: u64 = if chosen < before.counts.len() {
                before.counts[chosen as int]
            } else {
                0
            };
            let rival_load: u64 = if rival < before.counts.len() {
                before.counts[rival as int]
            } else {
                0
            };
            let fewer = load < rival_load || (load == rival_load && chosen < rival);
            &&& call_ensures(scoring, (decision.matched_prefix_len, load), decision.score)
            &&& call_ensures(scoring, (held as usize, rival_load), score)
            &&& rival == chosen ==> held == decision.matched_prefix_len
            &&& rival != chosen && (chosen < rival || forall|m: usize, l: u64, s: Score|
                call_ensures(scoring, (m, l), s) ==> s is Rank) ==> match (decision.score, score) {
                (Score::Rank(x), Score::Rank(y)) => x > y || (x == y && fewer),
                _ => fewer,
            }
        }),
{
    let chain = prompt_chain(prompt, before.block_size);
    let workers = chat_candidates(before.registry.healthy_workers());
    law_chat_candidates_are_the_eligible(before.registry, rival);
    let at = choose|at: int|
        0 <= at < workers.len() && (#[trigger] workers[at]).id == rival && workers[at]
            == before.registry.workers[rival].worker;
    assert forall|i: int| 0 <= i < held implies holds(before.index, rival, #[trigger] chain[i]) by {
        assert(before.index.contains_key(chain[i]));
    }
    lemma_match_ends(before.index, rival, chain, held);
    lemma_best_beats(scoring, before, workers, chain, decision, at)
}

/// A selection in a pool is the best tradeoff of cache and load for the chain
/// that was passed in, whatever the policy: as for a cache-aware chat
/// completion, with the healthy workers of the pool as rivals.
pub proof fn law_pool_selection_is_the_best_tradeoff<F: Fn(usize, u64) -> Score>(
    scoring: F,
    before: RouterView,
    pool: Pool,
    chain: Seq<u64>,
    now: u64,
    decision: RouteDecision,
    after: RouterView,
    rival: WorkerId,
    held: nat,
) -> (score: Score)
    requires
        before.registry.well_filed(),
        before.pool_outcome(scoring, pool, chain, now, Ok(decision), after),
        before.registry.workers.contains_key(rival),
        before.registry.workers[rival].healthy,
        before.registry.workers[rival].worker.pool == pool,
        held <= chain.len(),
        forall|i: int|
            0 <= i < held ==> before.index.contains_key(
                #[trigger] chain[i],
            ) && before.index[chain[i]].workers.contains(rival),
        held < chain.len() ==> !(before.index.contains_key(
            chain[held as int],
        ) && before.index[chain[held as int]].workers.contains(rival)),
    ensures
        ({
            let chosen = decision.worker.id;
            let load: u64 = if chosen < before.counts.len() {
                before.counts[chosen as int]
            } else {
                0
            };
            let rival_load: u64 = if rival < before.counts.len() {
                before.counts[rival as int]
            } else {
                0
            };
            let fewer = load < rival_load || (load == rival_load && chosen < rival);
            &&& call_ensures(scoring, (decision.matched_prefix_len, load), decision.score)
            &&& call_ensures(scoring, (held as usize, rival_load), score)
            &&& rival == chosen ==> held == decision.matched_prefix_len
            &&& rival != chosen && (chosen < rival || forall|m: usize, l: u64, s: Score|
                call_ensures(scoring, (m, l), s) ==> s is Rank) ==> match (decision.score, score) {
                (Score::Rank(x), Score::Rank(y)) => x > y || (x == y && fewer),
                _ => fewer,
            }
        }),
{
    let workers = in_pool(before.registry.healthy_workers(), pool);
    law_pool_candidates_are_the_eligible(before.registry, pool, rival);
    let at = choose|at: int|
        0 <= at < workers.len() && (#[trigger] workers[at]).id == rival && workers[at]
            == before.registry.workers[rival].worker;
    assert forall|i: int| 0 <= i < held implies holds(before.index, rival, #[trigger] chain[i]) by {
        assert(before.index.contains_key(chain[i]));
    }
    lemma_match_ends(before.index, rival, chain, held);
    lemma_best_beats(scoring, before, workers, chain, decision, at)
}

/// A chat completion reports how many leading blocks of the prompt its worker
/// held before, and leaves that worker holding every block of the prompt, each
/// touched now. Nothing else is forgotten, moved or credited to anyone.
pub proof fn law_chat_is_recorded_whole<F: Fn(usize, u64) -> Score>(
    scoring: F,
    before: RouterView,
    prompt: Seq<char>,
    now: u64,
    decision: RouteDecision,
    after: RouterView,
)
    requires
        before.chat_outcome(scoring, prompt, now, Ok(decision), after),
    ensures
        ({
            let worker = decision.worker.id;
            let matched = decision.matched_prefix_len as int;
            let chain = prompt_chain(prompt, before.block_size);
            &&& decision.prompt_blocks == chain.len()
            &&& matched <= chain.len()
            &&& forall|i: int|
                0 <= i < matched ==> before.index.contains_key(#[trigger] chain[i])
                    && before.index[chain[i]].workers.contains(worker)
            &&& matched < chain.len() ==> !(before.index.contains_key(chain[matched])
                && before.index[chain[matched]].workers.contains(worker))
            &&& forall|hash: u64| #[trigger]
                after.index.contains_key(hash) <==> before.index.contains_key(hash)
                    || chain.contains(hash)
            &&& forall|hash: u64, other: WorkerId|
                chain.contains(hash) ==> (#[trigger] after.index[hash].workers.contains(other)
                    <==> other == worker || (before.index.contains_key(hash)
                    && before.index[hash].workers.contains(other)))
            &&& forall|hash: u64|
                chain.contains(hash) ==> (#[trigger] after.index[hash]).last_touched == now
            &&& forall|hash: u64|
                before.index.contains_key(hash) && !chain.contains(hash)
                    ==> #[trigger] after.index[hash] == before.index[hash]
            &&& after.registry == before.registry
            &&& after.policy == before.policy
            &&& after.counts == before.counts
            &&& after.block_size == before.block_size
            &&& after.next_worker == (if before.policy == RoutingPolicy::RoundRobin {
                if before.next_worker == usize::MAX {
                    0
                } else {
                    before.next_worker + 1
                }
            } else {
                before.next_worker as int
            })
        }),
{
    let chain = prompt_chain(prompt, before.block_size);
    let worker = decision.worker.id;
    let matched = decision.matched_prefix_len as nat;
    law_match_len_is_the_held_prefix(before.index, worker, chain, 0);
    law_match_len_is_the_held_prefix(before.index, worker, chain, matched);
    if matched < chain.len() {
        law_match_len_is_the_held_prefix(before.index, worker, chain, matched + 1);
        assert(!holds(before.index, worker, chain[matched as int]));
    }
    assert forall|i: int| 0 <= i < matched implies before.index.contains_key(#[trigger] chain[i])
        && before.index[chain[i]].workers.contains(worker) by {
        assert(holds(before.index, worker, chain[i]));
    }
}

/// A selection in a pool reports how many leading blocks of the chain its
/// worker held before, and leaves that worker holding every block of it, each
/// touched now. Nothing else is forgotten, moved or credited to anyone.
pub proof fn law_pool_selection_is_recorded_whole<F: Fn(usize, u64) -> Score>(
    scoring: F,
    before: RouterView,
    pool: Pool,
    chain: Seq<u64>,
    now: u64,
    decision: RouteDecision,
    after: RouterView,
)
    requires
        before.pool_outcome(scoring, pool, chain, now, Ok(decision), after),
    ensures
        ({
            let worker = decision.worker.id;
            let matched = decision.matched_prefix_len as int;
            &&& decision.prompt_blocks == chain.len()
            &&& matched <= chain.len()
            &&& forall|i: int|
                0 <= i < matched ==> before.index.contains_key(#[trigger] chain[i])
                    && before.index[chain[i]].workers.contains(worker)
            &&& matched < chain.len() ==> !(before.index.contains_key(chain[matched])
                && before.index[chain[matched]].workers.contains(worker))
            &&& forall|hash: u64| #[trigger]
                after.index.contains_key(hash) <==> before.index.contains_key(hash)
                    || chain.contains(hash)
            &&& forall|hash: u64, other: WorkerId|
                chain.contains(hash) ==> (#[trigger] after.index[hash].workers.contains(other)
                    <==> other == worker || (before.index.contains_key(hash)
                    && before.index[hash].workers.contains(other)))
            &&& forall|hash: u64|
                chain.contains(hash) ==> (#[trigger] after.index[hash]).last_touched == now
            &&& forall|hash: u64|
                before.index.contains_key(hash) && !chain.contains(hash)
                    ==> #[trigger] after.index[hash] == before.index[hash]
            &&& after.registry == before.registry
            &&& after.policy == before.policy
            &&& after.counts == before.counts
            &&& after.block_size == before.block_size
            &&& after.next_worker == before.next_worker
        }),
{
    let worker = decision.worker.id;
    let matched = decision.matched_prefix_len as nat;
    law_match_len_is_the_held_prefix(before.index, worker, chain, 0);
    law_match_len_is_the_held_prefix(before.index, worker, chain, matched);
    if matched < chain.len() {
        law_match_len_is_the_held_prefix(before.index, worker, chain, matched + 1);
        assert(!holds(before.index, worker, chain[matched as int]));
    }
    assert forall|i: int| 0 <= i < matched implies before.index.contains_key(#[trigger] chain[i])
        && before.index[chain[i]].workers.contains(worker) by {
        assert(holds(before.index, worker, chain[i]));
    }
}

/// A round-robin decision goes to the candidate whose turn it is, with score
/// zero, whatever is held or in flight.
pub proof fn law_round_robin_takes_the_next_turn<F: Fn(usize, u64) -> Score>(
    scoring: F,
    before: RouterView,
    prompt: Seq<char>,
    now: u64,
    decision: RouteDecision,
    after: RouterView,
)
    requires
        before.registry.well_filed(),
        before.policy == RoutingPolicy::RoundRobin,
        before.chat_outcome(scoring, prompt, now, Ok(decision), after),
    ensures
        ({
            let listed = chat_candidates(before.registry.healthy_workers());
            &&& listed.len() > 0
            &&& decision.worker == listed[before.next_worker as int % listed.len() as int]
            &&& decision.score == Score::Rank(0)
        }),
{
    let healthy = before.registry.healthy_workers();
    assert(healthy.len() > 0);
}

/// Where routing is refused, the error says why: no worker is healthy, under
/// the policy named, or the policy routes in two phases.
pub proof fn law_chat_refusals_say_why<F: Fn(usize, u64) -> Score>(
    scoring: F,
    before: RouterView,
    prompt: Seq<char>,
    now: u64,
    result: Result<RouteDecision, RouterError>,
    after: RouterView,
)
    requires
        before.registry.well_filed(),
        before.chat_outcome(scoring, prompt, now, result, after),
    ensures
        ({
            let none = forall|id: WorkerId| #[trigger]
                before.registry.workers.contains_key(id) ==> !before.registry.workers[id].healthy;
            &&& none ==> (result matches Err(RouterError::NoHealthyWorkers { policy }) && policy@
                == match before.policy {
                RoutingPolicy::RoundRobin => "round_robin"@,
                RoutingPolicy::CacheAware => "cache_aware"@,
                RoutingPolicy::Disaggregated => "disaggregated"@,
            })
            &&& !none && before.policy == RoutingPolicy::Disaggregated ==> (result matches Err(
                RouterError::DisaggregatedRequiresTwoPhase,
            ))
            &&& !none && before.policy != RoutingPolicy::Disaggregated ==> result is Ok
            &&& result is Err ==> after == before
        }),
{
    let healthy = before.registry.healthy_workers();
    law_healthy_workers_are_listed(before.registry);
    if healthy.len() > 0 {
        assert(before.registry.healthy_ids().contains(healthy[0].id));
        assert(before.registry.workers.contains_key(healthy[0].id));
    } else {
        assert forall|id: WorkerId| #[trigger]
            before.registry.workers.contains_key(id) implies !before.registry.workers[id].healthy by {
            if before.registry.workers[id].healthy {
                assert(before.registry.healthy_ids().contains(id));
            }
        }
    }
}

/// A selection in a pool is refused exactly where no healthy worker serves the
/// pool, with the pool and the policy named and nothing changed.
pub proof fn law_pool_refusals_say_why<F: Fn(usize, u64) -> Score>(
    scoring: F,
    before: RouterView,
    pool: Pool,
    chain: Seq<u64>,
    now: u64,
    result: Result<RouteDecision, RouterError>,
    after: RouterView,
)
    requires
        before.registry.well_filed(),
        before.pool_outcome(scoring, pool, chain, now, result, after),
    ensures
        ({
            let none = forall|id: WorkerId| #[trigger]
                before.registry.workers.contains_key(id) ==> !(before.registry.workers[id].healthy
                    && before.registry.workers[id].worker.pool == pool);
            &&& none ==> (result matches Err(
                RouterError::NoHealthyWorkersInPool { pool: name, policy },
            ) && name@ == match pool {
                Pool::Prefill => "prefill"@,
                Pool::Decode => "decode"@,
                Pool::Both => "both"@,
            } && policy@ == match before.policy {
                RoutingPolicy::RoundRobin => "round_robin"@,
                RoutingPolicy::CacheAware => "cache_aware"@,
                RoutingPolicy::Disaggregated => "disaggregated"@,
            })
            &&& !none ==> result is Ok
            &&& result is Err ==> after == before
        }),
{
    let listed = in_pool(before.registry.healthy_workers(), pool);
    if listed.len() > 0 {
        law_pool_candidates_are_the_eligible(before.registry, pool, listed[0].id);
        assert(listed[0].id == listed[0].id);
        assert(before.registry.workers.contains_key(listed[0].id));
    } else {
        assert forall|id: WorkerId| #[trigger]
            before.registry.workers.contains_key(id) implies !(before.registry.workers[id].healthy
            && before.registry.workers[id].worker.pool == pool) by {
            law_pool_candidates_are_the_eligible(before.registry, pool, id);
        }
    }
}

/// Within one cycle of round-robin requests every candidate gets a turn, while
/// the registry stays as it is and the counter does not wrap.
pub proof fn law_round_robin_visits_everyone<F: Fn(usize, u64) -> Score>(
    scoring: F,
    states: Seq<RouterView>,
    prompts: Seq<Seq<char>>,
    times: Seq<u64>,
    decisions: Seq<RouteDecision>,
    id: WorkerId,
)
    requires
        states.len() > 0,
        states[0].registry.well_filed(),
        round_robin_run(scoring, states, prompts, times, decisions),
        states[0].next_worker + decisions.len() <= usize::MAX,
        decisions.len() >= states[0].registry.workers.dom().len(),
        states[0].registry.workers.contains_key(id),
        states[0].registry.workers[id].healthy,
        states[0].registry.workers[id].worker.pool == Pool::Both || forall|other: WorkerId|
            #[trigger]
            states[0].registry.workers.contains_key(other)
                && states[0].registry.workers[other].healthy
                ==> states[0].registry.workers[other].worker.pool != Pool::Both,
    ensures
        exists|k: int| 0 <= k < decisions.len() && (#[trigger] decisions[k]).worker.id == id,
{
    let registry = states[0].registry;
    let listed = chat_candidates(registry.healthy_workers());
    law_chat_candidates_are_the_eligible(registry, id);
    let at = choose|at: int|
        0 <= at < listed.len() && (#[trigger] listed[at]).id == id && listed[at]
            == registry.workers[id].worker;
    let n = listed.len() as int;
    lemma_candidates_bounded(registry);
    let first = states[0].next_worker as int;
    vstd::arithmetic::div_mod::lemma_fundamental_div_mod(first, n);
    let turn = first % n;
    assert(0 <= turn < n);
    let k: int = if at >= turn {
        at - turn
    } else {
        at - turn + n
    };
    assert((first + k) % n == at) by {
        let base = n * (first / n);
        if at >= turn {
            assert(first + k == base + at);
        } else {
            assert(first + k == n * (first / n + 1) + at) by (nonlinear_arith)
                requires
                    first == n * (first / n) + turn,
                    k == at - turn + n,
            ;
        }
        vstd::arithmetic::div_mod::lemma_fundamental_div_mod_converse(
            first + k,
            n,
            if at >= turn {
                first / n
            } else {
                first / n + 1
            },
            at,
        );
    }
    lemma_round_robin_turn(scoring, states, prompts, times, decisions, k);
    assert(states[k].chat_outcome(
        scoring,
        prompts[k],
        times[k],
        Ok(decisions[k]),
        states[k + 1],
    ));
    assert(decisions[k].worker == listed[at]);
}

proof fn lemma_candidates_bounded(registry: RegistryView)
    requires
        registry.well_filed(),
    ensures
        chat_candidates(registry.healthy_workers()).len() <= registry.workers.dom().len(),
{
    let listed = chat_candidates(registry.healthy_workers());
    let ids = listed.map_values(|w: Worker| w.id);
    law_chat_candidates_are_the_eligible(registry, 0);
    assert forall|i: int, j: int| 0 <= i < ids.len() && 0 <= j < ids.len() && i != j implies ids[i]
        != ids[j] by {
        if i < j {
            assert(listed[i].id < listed[j].id);
        } else {
            assert(listed[j].id < listed[i].id);
        }
    }
    assert(ids.no_duplicates());
    ids.unique_seq_to_set();
    assert forall|id: WorkerId| ids.to_set().contains(id) implies registry.workers.dom().contains(
        id,
    ) by {
        let i = choose|i: int| 0 <= i < ids.len() && ids[i] == id;
        assert(listed[i].id == id);
        law_chat_candidates_are_the_eligible(registry, id);
    }
    assert(ids.to_set().subset_of(registry.workers.dom()));
    vstd::set_lib::lemma_len_subset(ids.to_set(), registry.workers.dom());
}

} // verus!
