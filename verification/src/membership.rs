//! What discovery, routing, probing and eviction keep together: the workers
//! that discovery registered stay registered under the ids it knows, whatever
//! happens in between.

use vstd::prelude::*;

use crate::beliefs::{holds, match_len, newest, recorded, touched, unexpired, Belief};
use crate::config::Pool;
use crate::discovery::{
    law_discovery_reaches_the_desired_set, law_reconciling_counts_changes,
    law_reconciling_keeps_consistency,
    law_survivors_keep_their_identity, DiscoveryView,
};
use crate::endpoints::{after_event, discovery_view, handled, SliceEvent, SliceView};
use crate::error::RouterError;
use crate::hashing::prompt_chain;
use crate::health::probed;
use crate::router::{
    law_never_routes_to_a_down_worker, law_pool_selection_stays_in_the_pool, RouteDecision,
    RouterView,
};
use crate::score::Score;
use crate::urls::{all_distinct, text_set};
use crate::worker::WorkerId;

verus! {

/// The state of the service.
#[verifier::ext_equal]
pub struct ServiceView {
    /// The router.
    pub router: RouterView,
    /// Workers that discovery registered, by URL.
    pub known: Map<Seq<char>, WorkerId>,
    /// The slices seen.
    pub slices: SliceView,
}

impl ServiceView {
    /// Registry, index and discovery agree, and discovery knows exactly the
    /// URLs that the slices advertise.
    pub open spec fn consistent(self) -> bool {
        &&& discovery_view(self.router, self.known).consistent()
        &&& self.known.dom() == self.slices.wanted()
    }
}

/// One thing that happens to the service.
pub enum ServiceStep {
    /// A chat completion is routed.
    Chat { prompt: Seq<char>, now: u64, result: Result<RouteDecision, RouterError> },
    /// A worker of one pool is selected.
    Select { pool: Pool, chain: Seq<u64>, now: u64, result: Result<RouteDecision, RouterError> },
    /// Blocks are looked up.
    LookUp { hashes: Seq<u64>, now: u64 },
    /// A probe result comes in.
    Probe { id: WorkerId, healthy: bool },
    /// The index is swept.
    Evict { now: u64, ttl: u64, max_entries: nat },
    /// A worker is registered by something other than discovery.
    Register { url: String, pool: Pool },
    /// A worker that discovery does not own is removed.
    Remove { id: WorkerId },
    /// Requests come into flight or leave it.
    InFlight,
    /// The watch reports an event.
    Event { event: SliceEvent, counted: (usize, usize) },
}

/// Whether a step leads from one state to another.
pub open spec fn leads_to<F: Fn(usize, u64) -> Score>(
    scoring: F,
    before: ServiceView,
    step: ServiceStep,
    after: ServiceView,
) -> bool {
    let r = before.router;
    match step {
        ServiceStep::Chat { prompt, now, result } => {
            &&& r.chat_outcome(scoring, prompt, now, result, after.router)
            &&& after.known == before.known
            &&& after.slices == before.slices
        },
        ServiceStep::Select { pool, chain, now, result } => {
            &&& r.pool_outcome(scoring, pool, chain, now, result, after.router)
            &&& after.known == before.known
            &&& after.slices == before.slices
        },
        ServiceStep::LookUp { hashes, now } => after == ServiceView {
            router: RouterView { index: touched(r.index, hashes, now), ..r },
            ..before
        },
        ServiceStep::Probe { id, healthy } => after == ServiceView {
            router: probed(r, id, healthy),
            ..before
        },
        ServiceStep::Evict { now, ttl, max_entries } => {
            &&& newest(unexpired(r.index, now, ttl), max_entries, after.router.index)
            &&& after == ServiceView {
                router: RouterView { index: after.router.index, ..r },
                ..before
            }
        },
        ServiceStep::Register { url, pool } => after == ServiceView {
            router: RouterView { registry: r.registry.registered(url, pool), ..r },
            ..before
        },
        ServiceStep::Remove { id } => {
            &&& forall|url: Seq<char>| #[trigger]
                before.known.contains_key(url) ==> before.known[url] != id
            &&& after == ServiceView {
                router: RouterView { registry: r.registry.removed(id), ..r },
                ..before
            }
        },
        ServiceStep::InFlight => after == ServiceView {
            router: RouterView { counts: after.router.counts, ..r },
            ..before
        },
        ServiceStep::Event { event, counted } => {
            &&& after.slices == before.slices.after(event)
            &&& handled(r, before.known, after.slices.wanted(), after.router, after.known, counted)
        },
    }
}

/// A step finds ids left for the workers it registers.
pub open spec fn ids_left(before: ServiceView, step: ServiceStep) -> bool {
    match step {
        ServiceStep::Register { .. } => before.router.registry.next_id < u64::MAX,
        ServiceStep::Event { counted, .. } => before.router.registry.next_id + counted.1
            <= u64::MAX,
        _ => true,
    }
}

/// A service starts consistent: with a fresh registry, an empty index, and
/// nothing discovered.
pub proof fn law_service_starts_consistent(start: ServiceView)
    requires
        start.router.registry.well_filed(),
        start.router.registry.ids_are_fresh(),
        start.router.index == Map::<u64, Belief>::empty(),
        start.known == Map::<Seq<char>, WorkerId>::empty(),
        start.slices == (SliceView { slices: Map::empty(), listed: None }),
    ensures
        start.consistent(),
{
    assert(start.known.dom() =~= start.slices.wanted());
}

/// Recording blocks at a registered worker keeps the state consistent.
proof fn lemma_dispatch_keeps_consistency(
    before: RouterView,
    known: Map<Seq<char>, WorkerId>,
    worker: WorkerId,
    chain: Seq<u64>,
    now: u64,
    after: RouterView,
)
    requires
        discovery_view(before, known).consistent(),
        before.registry.workers.contains_key(worker),
        after.registry == before.registry,
        after.index == recorded(before.index, worker, chain, now),
    ensures
        discovery_view(after, known).consistent(),
{
    let view = discovery_view(after, known);
    assert forall|w: WorkerId, hash: u64| #[trigger] holds(view.index, w, hash) implies w
        < view.registry.next_id by {
        if w != worker {
            assert(holds(before.index, w, hash));
            assert(holds(discovery_view(before, known).index, w, hash));
        }
    }
    assert forall|url: Seq<char>| #[trigger]
        view.known.contains_key(url) implies view.registry.workers.contains_key(view.known[url])
        && view.registry.workers[view.known[url]].worker.url@ == url by {
        assert(discovery_view(before, known).known.contains_key(url));
    }
}

/// Fewer beliefs, and the same registry, keep the state consistent.
proof fn lemma_forgetting_keeps_consistency(before: DiscoveryView, after: DiscoveryView)
    requires
        before.consistent(),
        after.registry.well_filed(),
        after.registry.ids_are_fresh(),
        after.registry.next_id >= before.registry.next_id,
        after.known == before.known,
        forall|url: Seq<char>| #[trigger]
            before.known.contains_key(url) ==> after.registry.workers.contains_key(
                before.known[url],
            ) && after.registry.workers[before.known[url]].worker
                == before.registry.workers[before.known[url]].worker,
        forall|w: WorkerId, hash: u64| #[trigger]
            holds(after.index, w, hash) ==> holds(before.index, w, hash),
    ensures
        after.consistent(),
{
}

proof fn lemma_event_keeps_consistency(
    before: RouterView,
    known: Map<Seq<char>, WorkerId>,
    wanted: Set<Seq<char>>,
    after: RouterView,
    known_after: Map<Seq<char>, WorkerId>,
    r: (usize, usize),
)
    requires
        discovery_view(before, known).consistent(),
        before.registry.next_id + r.1 <= u64::MAX,
        handled(before, known, wanted, after, known_after, r),
    ensures
        discovery_view(after, known_after).consistent(),
        known_after.dom() == wanted,
{
    let desired = choose|desired: Seq<String>|
        {
            &&& all_distinct(desired)
            &&& text_set(desired) == wanted
            &&& #[trigger] after_event(before, known, desired, after, known_after, r)
        };
    let view = discovery_view(before, known);
    law_reconciling_keeps_consistency(view, desired);
    law_discovery_reaches_the_desired_set(view, desired);
    assert(discovery_view(after, known_after) =~= view.reconciled(desired));
}

/// Routing, look-ups, probes, eviction, registration, the removal of workers
/// that discovery does not own, request accounting and discovery itself all
/// keep the service consistent.
pub proof fn law_every_step_keeps_consistency<F: Fn(usize, u64) -> Score>(
    scoring: F,
    before: ServiceView,
    step: ServiceStep,
    after: ServiceView,
)
    requires
        before.consistent(),
        leads_to(scoring, before, step, after),
        ids_left(before, step),
    ensures
        after.consistent(),
{
    let old_view = discovery_view(before.router, before.known);
    let new_view = discovery_view(after.router, after.known);
    match step {
        ServiceStep::Chat { prompt, now, result } => {
            match result {
                Ok(decision) => {
                    law_never_routes_to_a_down_worker(
                        scoring,
                        before.router,
                        prompt,
                        now,
                        decision,
                        after.router,
                    );
                    lemma_dispatch_keeps_consistency(
                        before.router,
                        before.known,
                        decision.worker.id,
                        prompt_chain(prompt, before.router.block_size),
                        now,
                        after.router,
                    );
                },
                Err(_) => {},
            }
        },
        ServiceStep::Select { pool, chain, now, result } => {
            match result {
                Ok(decision) => {
                    law_pool_selection_stays_in_the_pool(
                        scoring,
                        before.router,
                        pool,
                        chain,
                        now,
                        decision,
                        after.router,
                    );
                    lemma_dispatch_keeps_consistency(
                        before.router,
                        before.known,
                        decision.worker.id,
                        chain,
                        now,
                        after.router,
                    );
                },
                Err(_) => {},
            }
        },
        ServiceStep::Probe { id, healthy } => {
            if before.router.registry.workers.contains_key(id) {
                assert(new_view.registry.workers.dom() =~= old_view.registry.workers.dom());
            }
            lemma_forgetting_keeps_consistency(old_view, new_view);
        },
        ServiceStep::Event { event, counted } => {
            lemma_event_keeps_consistency(
                before.router,
                before.known,
                after.slices.wanted(),
                after.router,
                after.known,
                counted,
            );
        },
        ServiceStep::Evict { now, ttl, max_entries } => {
            assert forall|w: WorkerId, hash: u64| #[trigger]
                holds(new_view.index, w, hash) implies holds(old_view.index, w, hash) by {
                assert(new_view.index.contains_key(hash));
            }
            lemma_forgetting_keeps_consistency(old_view, new_view);
        },
        ServiceStep::Remove { id } => {
            assert(new_view.registry.workers.dom() =~= old_view.registry.workers.dom().remove(id));
            lemma_forgetting_keeps_consistency(old_view, new_view);
        },
        _ => {
            lemma_forgetting_keeps_consistency(old_view, new_view);
        },
    }
}

/// The states of a service, one step after the other.
pub open spec fn service_run<F: Fn(usize, u64) -> Score>(
    scoring: F,
    states: Seq<ServiceView>,
    steps: Seq<ServiceStep>,
) -> bool {
    &&& states.len() == steps.len() + 1
    &&& forall|k: int|
        0 <= k < steps.len() ==> leads_to(scoring, states[k], #[trigger] steps[k], states[k + 1])
            && ids_left(states[k], steps[k])
}

/// Every state that a service reaches is consistent.
pub proof fn law_every_reachable_state_is_consistent<F: Fn(usize, u64) -> Score>(
    scoring: F,
    states: Seq<ServiceView>,
    steps: Seq<ServiceStep>,
    k: int,
)
    requires
        service_run(scoring, states, steps),
        states[0].router.registry.well_filed(),
        states[0].router.registry.ids_are_fresh(),
        states[0].router.index == Map::<u64, Belief>::empty(),
        states[0].known == Map::<Seq<char>, WorkerId>::empty(),
        states[0].slices == (SliceView { slices: Map::empty(), listed: None }),
        0 <= k <= steps.len(),
    ensures
        states[k].consistent(),
    decreases k,
{
    if k == 0 {
        law_service_starts_consistent(states[0]);
    } else {
        law_every_reachable_state_is_consistent(scoring, states, steps, k - 1);
        assert(leads_to(scoring, states[k - 1], steps[k - 1], states[k - 1 + 1]));
        law_every_step_keeps_consistency(scoring, states[k - 1], steps[k - 1], states[k]);
    }
}

/// Whether an event leaves a slice as it is: it is about another slice, or
/// about none, or it completes a listing that has the slice.
pub open spec fn spares(slices: SliceView, event: SliceEvent, name: Seq<char>) -> bool {
    match event {
        SliceEvent::ListingStarted => true,
        SliceEvent::Applied(slice) => slice.name@ != name,
        SliceEvent::Deleted(gone) => gone@ != name,
        SliceEvent::ListingDone => slices.listed matches Some(names) ==> names.contains(name),
    }
}

/// An event for one slice never removes the workers that another advertises:
/// each stays known under the same id and registered, with its health and
/// with everything it is believed to hold. It does not matter in which watch
/// the other slice was seen.
pub proof fn law_other_slices_keep_their_workers(
    before: ServiceView,
    event: SliceEvent,
    after: ServiceView,
    counted: (usize, usize),
    other: Seq<char>,
    url: Seq<char>,
    probe: Seq<u64>,
)
    requires
        before.consistent(),
        before.router.registry.next_id + counted.1 <= u64::MAX,
        after.slices == before.slices.after(event),
        handled(
            before.router,
            before.known,
            after.slices.wanted(),
            after.router,
            after.known,
            counted,
        ),
        spares(before.slices, event, other),
        before.slices.slices.contains_key(other),
        before.slices.slices[other].contains(url),
    ensures
        before.known.contains_key(url),
        after.slices.slices.contains_key(other),
        after.slices.slices[other] == before.slices.slices[other],
        ({
            let id = before.known[url];
            &&& after.known.contains_key(url) && after.known[url] == id
            &&& after.router.registry.workers.contains_key(id)
            &&& after.router.registry.workers[id] == before.router.registry.workers[id]
            &&& match_len(after.router.index, id, probe) == match_len(
                before.router.index,
                id,
                probe,
            )
        }),
{
    assert(before.slices.slices.contains_key(other) && before.slices.slices[other].contains(url));
    assert(before.slices.wanted().contains(url));
    assert(before.known.dom().contains(url));
    assert(after.slices.slices.contains_key(other) && after.slices.slices[other].contains(url));
    assert(after.slices.wanted().contains(url));
    let desired = choose|desired: Seq<String>|
        {
            &&& all_distinct(desired)
            &&& text_set(desired) == after.slices.wanted()
            &&& #[trigger] after_event(
                before.router,
                before.known,
                desired,
                after.router,
                after.known,
                counted,
            )
        };
    assert(text_set(desired).contains(url));
    law_survivors_keep_their_identity(
        discovery_view(before.router, before.known),
        desired,
        url,
        probe,
    );
}

/// After every event each discovered worker has an in-flight counter, so its
/// load is seen.
pub proof fn law_discovered_workers_are_counted(
    before: RouterView,
    known: Map<Seq<char>, WorkerId>,
    wanted: Set<Seq<char>>,
    after: RouterView,
    known_after: Map<Seq<char>, WorkerId>,
    counted: (usize, usize),
    url: Seq<char>,
)
    requires
        discovery_view(before, known).consistent(),
        before.registry.next_id + counted.1 <= u64::MAX,
        after.registry.next_id <= usize::MAX,
        handled(before, known, wanted, after, known_after, counted),
        known_after.contains_key(url),
    ensures
        known_after[url] < after.counts.len(),
{
    lemma_event_keeps_consistency(before, known, wanted, after, known_after, counted);
    let view = discovery_view(after, known_after);
    assert(view.known.contains_key(url));
    assert(view.registry.workers.contains_key(view.known[url]));
}

/// After an event discovery knows a worker for exactly the URLs that are
/// wanted, and each is registered under the id known for it. The counts returned
/// are the URLs that went and those that came.
pub proof fn law_event_leaves_exactly_the_wanted(
    before: RouterView,
    known: Map<Seq<char>, WorkerId>,
    wanted: Set<Seq<char>>,
    after: RouterView,
    known_after: Map<Seq<char>, WorkerId>,
    counted: (usize, usize),
    url: Seq<char>,
)
    requires
        discovery_view(before, known).consistent(),
        before.registry.next_id + counted.1 <= u64::MAX,
        handled(before, known, wanted, after, known_after, counted),
    ensures
        known_after.contains_key(url) <==> wanted.contains(url),
        wanted.contains(url) ==> {
            &&& after.registry.workers.contains_key(known_after[url])
            &&& after.registry.workers[known_after[url]].worker.id == known_after[url]
            &&& after.registry.workers[known_after[url]].worker.url@ == url
        },
        counted.0 == known.dom().difference(wanted).len(),
        counted.1 == wanted.difference(known.dom()).len(),
{
    lemma_event_keeps_consistency(before, known, wanted, after, known_after, counted);
    let view = discovery_view(after, known_after);
    assert(known_after.contains_key(url) <==> known_after.dom().contains(url));
    if wanted.contains(url) {
        assert(view.known.contains_key(url));
        assert(view.registry.workers.contains_key(view.known[url]));
    }
    let desired = choose|desired: Seq<String>|
        {
            &&& all_distinct(desired)
            &&& text_set(desired) == wanted
            &&& #[trigger] after_event(before, known, desired, after, known_after, counted)
        };
    law_reconciling_counts_changes(known, desired);
}

} // verus!
