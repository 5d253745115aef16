//! Health polling: what a probe of a worker means for the router.
//!
//! Each worker's `/health` endpoint is probed at an interval and the result is
//! mirrored into the registry. Requests consult the registry on every
//! selection, so a failed probe immediately removes the worker from rotation.

use vstd::prelude::*;

use crate::beliefs::{
    law_purged_worker_matches_nothing, law_purging_is_exact, law_purging_spares_other_workers,
    match_len, without_worker,
};
use crate::router::{law_never_routes_to_a_down_worker, RouteDecision, Router, RouterView};
use crate::score::Score;
use crate::text::{join_url, url_under};
use crate::worker::{Worker, WorkerId};

verus! {

/// Where a worker is probed.
pub fn probe_url(worker: &Worker) -> (url: String)
    ensures
        url@ == url_under(worker.url@, "/health"@),
{
    join_url(worker.url.as_str(), "/health")
}

/// Whether a status code reports success.
pub open spec fn is_success(status: u16) -> bool {
    200 <= status <= 299
}

/// Whether a probe found the worker healthy: it answered, and with success.
/// `status` is absent where the probe got no answer.
pub fn probe_succeeded(status: Option<u16>) -> (healthy: bool)
    ensures
        healthy == (status matches Some(code) && is_success(code)),
        healthy == (status matches Some(code) && 200 <= code <= 299),
{
    match status {
        Some(code) => 200 <= code && code <= 299,
        None => false,
    }
}

/// Whether a probe result changes what the registry says of a worker.
pub open spec fn health_changes(before: RouterView, id: WorkerId, healthy: bool) -> bool {
    before.registry.workers.contains_key(id) && before.registry.workers[id].healthy != healthy
}

/// The state after a probe: health is mirrored, and a worker that went down is
/// purged from the prefix index, for its KV cache died with it.
pub open spec fn probed(before: RouterView, id: WorkerId, healthy: bool) -> RouterView {
    RouterView {
        registry: before.registry.with_health(id, healthy),
        index: if health_changes(before, id, healthy) && !healthy {
            without_worker(before.index, id)
        } else {
            before.index
        },
        ..before
    }
}

/// Take a probe result into account. Returns whether the worker's health state
/// changed.
pub fn apply_probe<F: Fn(usize, u64) -> Score>(
    router: &mut Router<F>,
    id: WorkerId,
    healthy: bool,
) -> (changed: bool)
    requires
        old(router).wf(),
    ensures
        final(router).wf(),
        final(router).scoring() == old(router).scoring(),
        final(router)@ == probed(old(router)@, id, healthy),
        changed == health_changes(old(router)@, id, healthy),
        changed == (old(router)@.registry.workers.contains_key(id)
            && old(router)@.registry.workers[id].healthy != healthy),
{
    let changed = router.registry().set_healthy(id, healthy);
    if changed && !healthy {
        router.prefix_index().remove_worker(id);
    }
    changed
}

/// A failed probe takes the worker out of rotation, and if it was up nothing
/// matches against it any more.
pub proof fn law_failed_probe_takes_the_worker_out(
    before: RouterView,
    id: WorkerId,
    probe: Seq<u64>,
)
    ensures
        !probed(before, id, false).registry.is_healthy(id),
        before.registry.is_healthy(id) ==> match_len(probed(before, id, false).index, id, probe)
            == 0,
{
    law_purged_worker_matches_nothing(before.index, id, probe);
}

/// A probe of one worker changes neither the health of another nor what the
/// other is believed to hold.
pub proof fn law_probe_leaves_other_workers_alone(
    before: RouterView,
    id: WorkerId,
    healthy: bool,
    other: WorkerId,
    chain: Seq<u64>,
)
    requires
        other != id,
    ensures
        probed(before, id, healthy).registry.is_healthy(other) == before.registry.is_healthy(other),
        match_len(probed(before, id, healthy).index, other, chain) == match_len(
            before.index,
            other,
            chain,
        ),
{
    law_purging_spares_other_workers(before.index, id, other, chain);
}

/// No request reaches a worker after its probe failed, until a later probe
/// finds it healthy again.
pub proof fn law_down_workers_get_no_requests<F: Fn(usize, u64) -> Score>(
    scoring: F,
    before: RouterView,
    id: WorkerId,
    prompt: Seq<char>,
    now: u64,
    decision: RouteDecision,
    after: RouterView,
)
    requires
        before.registry.well_filed(),
        probed(before, id, false).chat_outcome(scoring, prompt, now, Ok(decision), after),
    ensures
        decision.worker.id != id,
{
    let down = probed(before, id, false);
    if before.registry.workers.contains_key(id) {
        assert(down.registry.workers.dom() =~= before.registry.workers.dom());
    }
    assert(down.registry.well_filed());
    law_never_routes_to_a_down_worker(scoring, down, prompt, now, decision, after);
}

/// A probe sets the health of the worker it is about and nothing else in the
/// registry; only where it finds a worker down that was up does the index
/// change, and then that worker holds nothing and every other one holds what it
/// held.
pub proof fn law_probe_is_mirrored_exactly(
    before: RouterView,
    id: WorkerId,
    healthy: bool,
    other: WorkerId,
    hash: u64,
)
    ensures
        ({
            let after = probed(before, id, healthy);
            let workers = before.registry.workers;
            let went_down = workers.contains_key(id) && workers[id].healthy && !healthy;
            let held_before = before.index.contains_key(hash)
                && before.index[hash].workers.contains(other);
            let held_after = after.index.contains_key(hash)
                && after.index[hash].workers.contains(other);
            &&& after.registry.workers.contains_key(other) <==> workers.contains_key(other)
            &&& workers.contains_key(other) ==> {
                &&& after.registry.workers[other].worker == workers[other].worker
                &&& after.registry.workers[other].healthy == (if other == id {
                    healthy
                } else {
                    workers[other].healthy
                })
            }
            &&& after.registry.next_id == before.registry.next_id
            &&& held_after <==> held_before && !(went_down && other == id)
            &&& !went_down ==> after.index == before.index
            &&& after.index.contains_key(hash) ==> before.index.contains_key(hash)
                && after.index[hash].last_touched == before.index[hash].last_touched
            &&& after.counts == before.counts
            &&& after.policy == before.policy
            &&& after.next_worker == before.next_worker
            &&& after.block_size == before.block_size
        }),
{
    law_purging_is_exact(before.index, id, hash, other);
}

} // verus!
