//! One chat completion, from its routing to the worker's answer.

use vstd::prelude::*;

use crate::api::{
    chat_url, error_text, router_error_text, upstream_text, ApiError, RequestTelemetry,
};
use crate::config::RoutingPolicy;
use crate::error::RouterError;
use crate::health::is_success;
use crate::inflight::{incremented, InflightGuard};
use crate::request::{prompt_of, ChatCompletionRequest};
use crate::router::{RouteDecision, Router, RouterView};
use crate::score::Score;
use crate::text::url_under;
use crate::worker::{Worker, WorkerId};

verus! {

/// A chat completion that was routed and is about to be sent to its worker.
#[derive(Debug)]
pub struct ChatStart {
    /// What is kept of the request.
    pub telemetry: RequestTelemetry,
    /// Where the request is sent.
    pub url: String,
    /// Counts the request against its worker.
    pub guard: InflightGuard,
}

impl RouterView {
    /// The state with one more request in flight at a worker.
    pub open spec fn with_request_at(self, worker: WorkerId) -> RouterView {
        RouterView { counts: incremented(self.counts, worker), ..self }
    }
}

/// What starting a chat completion returns, given what routing returned and
/// the state `routed` it left: the request is counted against the chosen worker
/// and addressed to it, or the routing error is answered and nothing changes
/// further.
pub open spec fn starts(
    policy: RoutingPolicy,
    request_id: Seq<char>,
    routing: Result<RouteDecision, RouterError>,
    routed: RouterView,
    r: Result<ChatStart, ApiError>,
    after: RouterView,
) -> bool {
    match routing {
        Ok(decision) => {
            &&& r matches Ok(start)
            &&& start.telemetry.request_id@ == request_id
            &&& start.telemetry.policy == policy
            &&& start.telemetry.decision == decision
            &&& start.url@ == url_under(decision.worker.url@, "/v1/chat/completions"@)
            &&& start.guard@ == decision.worker.id
            &&& after == routed.with_request_at(decision.worker.id)
        },
        Err(error) => {
            &&& r matches Err(answer)
            &&& error_text(answer) == router_error_text(error)
            &&& after == routed
        },
    }
}

/// Count and address a request whose routing is known.
fn start_routed<F: Fn(usize, u64) -> Score>(
    router: &mut Router<F>,
    request_id: String,
    routing: Result<RouteDecision, RouterError>,
) -> (r: Result<ChatStart, ApiError>)
    requires
        old(router).wf(),
    ensures
        final(router).wf(),
        final(router).scoring() == old(router).scoring(),
        starts(
            old(router)@.policy,
            request_id@,
            routing,
            old(router)@,
            r,
            final(router)@,
        ),
{
    match routing {
        Ok(decision) => {
            let url = chat_url(&decision.worker);
            let guard = InflightGuard::acquire(router.inflight(), decision.worker.id);
            let policy = router.policy();
            Ok(ChatStart { telemetry: RequestTelemetry { request_id, policy, decision }, url, guard })
        },
        Err(error) => Err(ApiError::from_router(&error)),
    }
}

/// Route a chat completion to one worker and count it there.
pub fn start_chat<F: Fn(usize, u64) -> Score>(
    router: &mut Router<F>,
    request: &ChatCompletionRequest,
    request_id: String,
) -> (r: Result<ChatStart, ApiError>)
    requires
        old(router).wf(),
    ensures
        final(router).wf(),
        final(router).scoring() == old(router).scoring(),
        exists|now: u64, routing: Result<RouteDecision, RouterError>, routed: RouterView|
            {
                &&& #[trigger] old(router)@.chat_outcome(
                    old(router).scoring(),
                    prompt_of(request.messages@),
                    now,
                    routing,
                    routed,
                )
                &&& starts(
                    old(router)@.policy,
                    request_id@,
                    routing,
                    routed,
                    r,
                    final(router)@,
                )
            },
{
    let routing = router.select_for_chat(request);
    start_routed(router, request_id, routing)
}

/// What came back from a worker.
#[derive(Debug)]
pub enum Upstream {
    /// The worker could not be reached; the reason is given.
    Unreachable(String),
    /// The worker answered with this status code and status line.
    Answered(u16, String),
}

/// Decide whether a worker's answer is passed on. Where it is not, the client
/// is told which worker failed and how.
pub fn check_upstream(worker: &Worker, answer: &Upstream) -> (r: Result<(), ApiError>)
    ensures
        match answer {
            Upstream::Unreachable(reason) => r matches Err(error) && error_text(error)
                == upstream_text(worker.url@, reason@),
            Upstream::Answered(status, line) => if is_success(*status) {
                r is Ok
            } else {
                r matches Err(error) && error_text(error) == upstream_text(
                    worker.url@,
                    "upstream returned "@ + line@,
                )
            },
        },
        match answer {
            Upstream::Unreachable(reason) => r matches Err(error) && error.status == 502
                && error.error_type@ == "upstream_error"@ && error.message@ == "worker "@
                + worker.url@ + " failed: "@ + reason@,
            Upstream::Answered(status, line) => if 200 <= *status <= 299 {
                r is Ok
            } else {
                r matches Err(error) && error.status == 502 && error.error_type@
                    == "upstream_error"@ && error.message@ == "worker "@ + worker.url@
                    + " failed: "@ + ("upstream returned "@ + line@)
            },
        },
{
    match answer {
        Upstream::Unreachable(reason) => Err(ApiError::upstream(worker, reason.as_str())),
        Upstream::Answered(status, line) => if 200 <= *status && *status <= 299 {
            Ok(())
        } else {
            Err(ApiError::upstream_status(worker, line.as_str()))
        },
    }
}

/// A routed request is sent to the worker of the decision and counted there,
/// once and nowhere else; a refused one is answered and changes nothing.
pub proof fn law_started_requests_are_counted_once(
    policy: RoutingPolicy,
    request_id: Seq<char>,
    routing: Result<RouteDecision, RouterError>,
    routed: RouterView,
    r: Result<ChatStart, ApiError>,
    after: RouterView,
    worker: WorkerId,
)
    requires
        starts(policy, request_id, routing, routed, r, after),
    ensures
        r is Ok <==> routing is Ok,
        r matches Ok(start) ==> {
            &&& routing == Ok::<RouteDecision, RouterError>(start.telemetry.decision)
            &&& start.telemetry.request_id@ == request_id
            &&& start.telemetry.policy == policy
            &&& start.guard@ == start.telemetry.decision.worker.id
            &&& start.url@ == url_under(
                start.telemetry.decision.worker.url@,
                "/v1/chat/completions"@,
            )
            &&& after.counts.len() == routed.counts.len()
            &&& worker < routed.counts.len() && worker != start.guard@
                ==> after.counts[worker as int] == routed.counts[worker as int]
            &&& start.guard@ < routed.counts.len() && routed.counts[start.guard@ as int] < u64::MAX
                ==> after.counts[start.guard@ as int] == routed.counts[start.guard@ as int] + 1
        },
        r is Err ==> after.counts == routed.counts,
        r matches Err(answer) ==> (routing matches Err(error) && match error {
            RouterError::NoHealthyWorkers { .. } => answer.status == 503,
            RouterError::NoHealthyWorkersInPool { .. } => answer.status == 503,
            RouterError::DisaggregatedRequiresTwoPhase => answer.status == 500,
            RouterError::PolicyNotImplemented(_) => answer.status == 501,
            RouterError::Config(_) => answer.status == 500,
        }),
        after.registry == routed.registry,
        after.index == routed.index,
        after.policy == routed.policy,
        after.next_worker == routed.next_worker,
        after.block_size == routed.block_size,
{
}

} // verus!
