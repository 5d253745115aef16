//! What the HTTP surface answers: errors, readiness, headers, and the record
//! kept of each request.

use vstd::prelude::*;

use crate::config::{Pool, RoutingPolicy};
use crate::error::RouterError;
use crate::metrics::{
    per_worker, record_cache_hit_blocks, record_prompt_blocks, record_request,
    record_tokens_generated, request_view, update_views, MetricKind, MetricUpdate, MetricView,
};
use crate::proxy::ProxyStream;
use crate::router::{law_chat_is_refused_only_without_workers, RouteDecision, RouterView};
use crate::score::Score;
use crate::text::{decimal, decimal_text, join_url, url_under};
use crate::worker::{Worker, WorkerId, WorkerRegistry};

verus! {

/// Errors surfaced over HTTP, as OpenAI-style `{"error": {...}}` bodies.
#[derive(Debug)]
pub struct ApiError {
    /// HTTP status code; also the body's `code`.
    pub status: u16,
    /// The body's `type`.
    pub error_type: String,
    /// The body's `message`.
    pub message: String,
}

/// What an error says: status, type and message.
pub open spec fn error_text(error: ApiError) -> (u16, Seq<char>, Seq<char>) {
    (error.status, error.error_type@, error.message@)
}

/// The answer where no worker can take a request.
pub open spec fn no_workers_text() -> (u16, Seq<char>, Seq<char>) {
    (503, "no_healthy_workers"@, "no healthy workers are currently available"@)
}

/// The answer where a worker failed.
pub open spec fn upstream_text(url: Seq<char>, message: Seq<char>) -> (
    u16,
    Seq<char>,
    Seq<char>,
) {
    (502, "upstream_error"@, "worker "@ + url + " failed: "@ + message)
}

/// The answer to a routing error.
pub open spec fn router_error_text(error: RouterError) -> (u16, Seq<char>, Seq<char>) {
    match error {
        RouterError::NoHealthyWorkers { .. } => no_workers_text(),
        RouterError::NoHealthyWorkersInPool { .. } => no_workers_text(),
        RouterError::DisaggregatedRequiresTwoPhase => (
            500,
            "internal_error"@,
            error.message(),
        ),
        RouterError::PolicyNotImplemented(policy) => (
            501,
            "unimplemented"@,
            "routing policy `"@ + policy@ + "` is not implemented yet"@,
        ),
        RouterError::Config(message) => (500, "config_error"@, message@),
    }
}

impl ApiError {
    fn new(status: u16, error_type: &str, message: &str) -> (r: ApiError)
        ensures
            error_text(r) == (status, error_type@, message@),
            r.status == status,
            r.error_type@ == error_type@,
            r.message@ == message@,
    {
        ApiError { status, error_type: error_type.to_owned(), message: message.to_owned() }
    }

    /// A worker could not be reached, or its answer could not be used.
    pub fn upstream(worker: &Worker, message: &str) -> (r: ApiError)
        ensures
            error_text(r) == upstream_text(worker.url@, message@),
            r.status == 502,
            r.error_type@ == "upstream_error"@,
            r.message@ == "worker "@ + worker.url@ + " failed: "@ + message@,
    {
        let mut text = String::new();
        text.append("worker ");
        text.append(worker.url.as_str());
        text.append(" failed: ");
        text.append(message);
        let r = ApiError::new(502, "upstream_error", text.as_str());
        assert(error_text(r).2 =~= upstream_text(worker.url@, message@).2);
        r
    }

    /// A worker answered with something other than success; `status` is its
    /// status line.
    pub fn upstream_status(worker: &Worker, status: &str) -> (r: ApiError)
        ensures
            error_text(r) == upstream_text(worker.url@, "upstream returned "@ + status@),
            r.status == 502,
            r.error_type@ == "upstream_error"@,
            r.message@ == "worker "@ + worker.url@ + " failed: "@ + ("upstream returned "@
                + status@),
    {
        let mut message = String::new();
        message.append("upstream returned ");
        message.append(status);
        assert(message@ =~= "upstream returned "@ + status@);
        ApiError::upstream(worker, message.as_str())
    }

    /// No worker can take the request.
    pub fn no_healthy_workers() -> (r: ApiError)
        ensures
            error_text(r) == no_workers_text(),
            r.status == 503,
            r.error_type@ == "no_healthy_workers"@,
            r.message@ == "no healthy workers are currently available"@,
    {
        ApiError::new(503, "no_healthy_workers", "no healthy workers are currently available")
    }

    /// The request body was not understood; the message is that of the parser.
    /// Whatever the parser objects to, the client is answered with 400.
    pub fn invalid_request(message: &str) -> (r: ApiError)
        ensures
            error_text(r) == (400u16, "invalid_request"@, message@),
            r.status == 400,
            r.error_type@ == "invalid_request"@,
            r.message@ == message@,
    {
        ApiError::new(400, "invalid_request", message)
    }

    /// The router itself failed.
    pub fn internal(message: &str) -> (r: ApiError)
        ensures
            error_text(r) == (500u16, "internal_error"@, message@),
            r.status == 500,
            r.error_type@ == "internal_error"@,
            r.message@ == message@,
    {
        ApiError::new(500, "internal_error", message)
    }

    /// The answer to a routing error.
    pub fn from_router(error: &RouterError) -> (r: ApiError)
        ensures
            error_text(r) == router_error_text(*error),
            match *error {
                RouterError::NoHealthyWorkers { .. } => r.status == 503 && r.error_type@
                    == "no_healthy_workers"@ && r.message@
                    == "no healthy workers are currently available"@,
                RouterError::NoHealthyWorkersInPool { .. } => r.status == 503 && r.error_type@
                    == "no_healthy_workers"@ && r.message@
                    == "no healthy workers are currently available"@,
                RouterError::DisaggregatedRequiresTwoPhase => r.status == 500 && r.error_type@
                    == "internal_error"@ && r.message@
                    == "the disaggregated policy routes in two phases"@,
                RouterError::PolicyNotImplemented(policy) => r.status == 501 && r.error_type@
                    == "unimplemented"@ && r.message@ == "routing policy `"@ + policy@
                    + "` is not implemented yet"@,
                RouterError::Config(message) => r.status == 500 && r.error_type@
                    == "config_error"@ && r.message@ == message@,
            },
    {
        match error {
            RouterError::NoHealthyWorkers { .. } => ApiError::no_healthy_workers(),
            RouterError::NoHealthyWorkersInPool { .. } => ApiError::no_healthy_workers(),
            RouterError::DisaggregatedRequiresTwoPhase => {
                let message = error.to_string();
                ApiError::internal(message.as_str())
            },
            RouterError::PolicyNotImplemented(_) => {
                let message = error.to_string();
                ApiError::new(501, "unimplemented", message.as_str())
            },
            RouterError::Config(message) => ApiError::new(500, "config_error", message.as_str()),
        }
    }
}

/// The answer to a readiness check.
#[derive(Debug, Clone, Copy, PartialEq, Eq, Structural)]
pub struct Readiness {
    /// HTTP status code.
    pub status: u16,
    /// Workers that are healthy.
    pub healthy_workers: usize,
}

/// Readiness: ready once at least one worker has passed a health probe.
pub fn readiness(registry: &WorkerRegistry) -> (r: Readiness)
    requires
        registry.wf(),
    ensures
        r.healthy_workers == registry@.healthy_ids().len(),
        r.status == if (exists|id: u64| registry@.is_healthy(id)) {
            200u16
        } else {
            503u16
        },
        r.healthy_workers == registry@.workers.dom().filter(
            |id: WorkerId| registry@.workers[id].healthy,
        ).len(),
        r.status == if (exists|id: WorkerId| #[trigger]
            registry@.workers.contains_key(id) && registry@.workers[id].healthy) {
            200u16
        } else {
            503u16
        },
{
    let healthy_workers = registry.healthy_count();
    let status: u16 = if registry.any_healthy() {
        200
    } else {
        503
    };
    Readiness { status, healthy_workers }
}

/// The worker that answers requests any worker can answer: the first healthy
/// one.
pub fn first_healthy(registry: &WorkerRegistry) -> (r: Result<Worker, ApiError>)
    requires
        registry.wf(),
    ensures
        match r {
            Ok(worker) => registry@.healthy_workers().len() > 0 && worker
                == registry@.healthy_workers()[0],
            Err(error) => registry@.healthy_workers().len() == 0 && error_text(error)
                == no_workers_text(),
        },
        match r {
            Ok(worker) => {
                &&& registry@.workers.contains_key(worker.id)
                &&& registry@.workers[worker.id].healthy
                &&& registry@.workers[worker.id].worker == worker
                &&& forall|other: WorkerId| #[trigger]
                    registry@.workers.contains_key(other) && registry@.workers[other].healthy
                        ==> worker.id <= other
            },
            Err(error) => {
                &&& error.status == 503
                &&& forall|other: WorkerId| #[trigger]
                    registry@.workers.contains_key(other) ==> !registry@.workers[other].healthy
            },
        },
{
    let healthy = registry.healthy_workers();
    proof {
        if healthy@.len() > 0 {
            let first = healthy@[0].id;
            assert(healthy@[0].id == first);
            assert forall|other: WorkerId| #[trigger]
                registry@.workers.contains_key(other)
                    && registry@.workers[other].healthy implies first <= other by {
                let i = choose|i: int| 0 <= i < healthy@.len() && healthy@[i].id == other;
                assert(i > 0 ==> healthy@[0].id < healthy@[i].id);
            }
        }
    }
    if healthy.is_empty() {
        Err(ApiError::no_healthy_workers())
    } else {
        Ok(healthy[0].clone())
    }
}

/// Where a worker lists its models.
pub fn models_url(worker: &Worker) -> (url: String)
    ensures
        url@ == url_under(worker.url@, "/v1/models"@),
{
    join_url(worker.url.as_str(), "/v1/models")
}

/// Where a worker takes chat completions.
pub fn chat_url(worker: &Worker) -> (url: String)
    ensures
        url@ == url_under(worker.url@, "/v1/chat/completions"@),
{
    join_url(worker.url.as_str(), "/v1/chat/completions")
}

/// Whether a character is a lowercase hexadecimal digit.
pub open spec fn is_hex(c: char) -> bool {
    ('0' <= c && c <= '9') || ('a' <= c && c <= 'f')
}

/// The places of the hyphens in a hyphenated UUID.
pub open spec fn is_hyphen_place(i: int) -> bool {
    i == 8 || i == 13 || i == 18 || i == 23
}

/// The text of a random (version 4) UUID in hyphenated form.
pub open spec fn is_random_uuid(text: Seq<char>) -> bool {
    &&& text.len() == 36
    &&& forall|i: int|
        0 <= i < 36 ==> if is_hyphen_place(i) {
            (#[trigger] text[i]) == '-'
        } else {
            is_hex(text[i])
        }
    &&& text[14] == '4'
    &&& (text[19] == '8' || text[19] == '9' || text[19] == 'a' || text[19] == 'b')
}

/// `uuid::Uuid::new_v4`, rendered by its `Display`. Which UUID comes is left to
/// chance; every one is a version 4 UUID of the RFC 9562 variant, and `Display`
/// writes it in lowercase, in the hyphenated form. The call asks the operating
/// system for random bytes and panics if that fails.
#[verifier::external_body]
fn random_uuid() -> (r: String)
    ensures
        is_random_uuid(r@),
{
    uuid::Uuid::new_v4().to_string()
}

/// A fresh request id: a random UUID.
pub fn new_request_id() -> (id: String)
    ensures
        is_random_uuid(id@),
{
    random_uuid()
}

/// Headers as texts.
pub open spec fn header_texts(headers: Seq<(String, String)>) -> Seq<(Seq<char>, Seq<char>)> {
    headers.map_values(|header: (String, String)| (header.0@, header.1@))
}

fn add_header(headers: &mut Vec<(String, String)>, name: &str, value: &str)
    ensures
        header_texts(final(headers)@) == header_texts(old(headers)@).push((name@, value@)),
{
    headers.push((name.to_owned(), value.to_owned()));
    assert(header_texts(headers@) =~= header_texts(old(headers)@).push((name@, value@)));
}

/// Headers of a proxied chat completion.
pub open spec fn chat_headers(
    request_id: Seq<char>,
    worker_url: Seq<char>,
    matched: nat,
    streaming: bool,
) -> Seq<(Seq<char>, Seq<char>)> {
    let common = seq![
        ("x-request-id"@, request_id),
        ("x-router-worker"@, worker_url),
        ("x-router-matched-prefix"@, decimal(matched)),
    ];
    if streaming {
        common.push(("content-type"@, "text/event-stream; charset=utf-8"@)).push(
            ("cache-control"@, "no-cache"@),
        )
    } else {
        common.push(("content-type"@, "application/json"@))
    }
}

/// The headers to answer a chat completion with: who served it, how much of
/// the prompt that worker was believed to hold, and how the body reads.
pub fn response_headers(request_id: &str, decision: &RouteDecision, streaming: bool) -> (r: Vec<
    (String, String),
>)
    ensures
        header_texts(r@) == chat_headers(
            request_id@,
            decision.worker.url@,
            decision.matched_prefix_len as nat,
            streaming,
        ),
        r@.len() == if streaming {
            5nat
        } else {
            4
        },
        r@[0].0@ == "x-request-id"@ && r@[0].1@ == request_id@,
        r@[1].0@ == "x-router-worker"@ && r@[1].1@ == decision.worker.url@,
        r@[2].0@ == "x-router-matched-prefix"@ && r@[2].1@ == decimal(
            decision.matched_prefix_len as nat,
        ),
        r@[3].0@ == "content-type"@,
        !streaming ==> r@[3].1@ == "application/json"@,
        streaming ==> r@[3].1@ == "text/event-stream; charset=utf-8"@,
        streaming ==> r@[4].0@ == "cache-control"@ && r@[4].1@ == "no-cache"@,
{
    let mut headers: Vec<(String, String)> = Vec::new();
    assert(header_texts(headers@) =~= seq![]);
    let matched = decimal_text(decision.matched_prefix_len as u64);
    add_header(&mut headers, "x-request-id", request_id);
    add_header(&mut headers, "x-router-worker", decision.worker.url.as_str());
    add_header(&mut headers, "x-router-matched-prefix", matched.as_str());
    if streaming {
        add_header(&mut headers, "content-type", "text/event-stream; charset=utf-8");
        add_header(&mut headers, "cache-control", "no-cache");
    } else {
        add_header(&mut headers, "content-type", "application/json");
    }
    assert(header_texts(headers@) =~= chat_headers(
        request_id@,
        decision.worker.url@,
        decision.matched_prefix_len as nat,
        streaming,
    ));
    proof {
        let told = header_texts(headers@);
        assert(told[0] == (headers@[0].0@, headers@[0].1@));
        assert(told[1] == (headers@[1].0@, headers@[1].1@));
        assert(told[2] == (headers@[2].0@, headers@[2].1@));
        assert(told[3] == (headers@[3].0@, headers@[3].1@));
        if streaming {
            assert(told[4] == (headers@[4].0@, headers@[4].1@));
        }
    }
    headers
}

/// Bookkeeping for one proxied request, including streaming requests whose
/// body finishes after the handler returns.
#[derive(Debug)]
pub struct RequestTelemetry {
    /// The request's id.
    pub request_id: String,
    /// The policy in force.
    pub policy: RoutingPolicy,
    /// The routing decision.
    pub decision: RouteDecision,
}

/// The structured log record of a served request.
#[derive(Debug)]
pub struct ServedRecord {
    /// The request's id.
    pub request_id: String,
    /// URL of the worker.
    pub worker: String,
    /// Pool of the worker.
    pub pool: String,
    /// The policy in force.
    pub policy: String,
    /// Blocks the worker was believed to hold.
    pub matched_prefix_len: usize,
    /// The selection score.
    pub score: Score,
    /// The share of the prompt the engine reports to have had cached.
    pub upstream_prefix_hit: String,
    /// Time to first token, milliseconds.
    pub ttft_ms: u64,
    /// Time to the end of the body, milliseconds.
    pub total_latency_ms: u64,
}

impl RequestTelemetry {
    /// Counter updates once the body was passed on: the request (unless it was
    /// already counted as failed), its blocks, and the tokens streamed.
    pub open spec fn counted(self, stream: ProxyStream) -> Seq<MetricView> {
        let url = self.decision.worker.url@;
        let request = if stream.failed {
            seq![]
        } else {
            seq![request_view(url, self.policy, 200)]
        };
        request + seq![
            MetricView {
                kind: MetricKind::Counter,
                name: "kvrouter_cache_hit_blocks"@,
                labels: seq![],
                value: self.decision.matched_prefix_len as u64,
            },
            MetricView {
                kind: MetricKind::Counter,
                name: "kvrouter_prompt_blocks_total"@,
                labels: seq![],
                value: self.decision.prompt_blocks as u64,
            },
            per_worker(
                MetricKind::Counter,
                "kvrouter_tokens_generated_total"@,
                url,
                stream.tokens,
            ),
        ]
    }

    /// The counter updates of a body that was passed on.
    pub fn updates(&self, stream: &ProxyStream) -> (r: Vec<MetricUpdate>)
        ensures
            update_views(r@) == self.counted(*stream),
            ({
                let first: int = if stream.failed {
                    0
                } else {
                    1
                };
                let url = self.decision.worker.url@;
                &&& r@.len() == first + 3
                &&& !stream.failed ==> r@[0]@ == request_view(url, self.policy, 200)
                &&& r@[first]@ == (MetricView {
                    kind: MetricKind::Counter,
                    name: "kvrouter_cache_hit_blocks"@,
                    labels: seq![],
                    value: self.decision.matched_prefix_len as u64,
                })
                &&& r@[first + 1]@ == (MetricView {
                    kind: MetricKind::Counter,
                    name: "kvrouter_prompt_blocks_total"@,
                    labels: seq![],
                    value: self.decision.prompt_blocks as u64,
                })
                &&& r@[first + 2]@ == (MetricView {
                    kind: MetricKind::Counter,
                    name: "kvrouter_tokens_generated_total"@,
                    labels: seq![("worker"@, url)],
                    value: stream.tokens,
                })
            }),
    {
        let url = self.decision.worker.url.as_str();
        let hits = record_cache_hit_blocks(self.decision.matched_prefix_len as u64);
        let prompts = record_prompt_blocks(self.decision.prompt_blocks as u64);
        let tokens = record_tokens_generated(url, stream.tokens);
        let mut updates: Vec<MetricUpdate> = Vec::new();
        if !stream.failed {
            updates.push(record_request(url, self.policy, 200));
        }
        updates.push(hits);
        updates.push(prompts);
        updates.push(tokens);
        assert(update_views(updates@) =~= self.counted(*stream));
        updates
    }

    /// The counter update of a request whose worker failed.
    pub fn failure(&self) -> (r: MetricUpdate)
        ensures
            r@ == request_view(self.decision.worker.url@, self.policy, 502),
    {
        record_request(self.decision.worker.url.as_str(), self.policy, 502)
    }

    /// The log record of a served request. Times are in nanoseconds; what the
    /// engine reports of its cache is `n/a` where it reports nothing.
    pub fn record(&self, ttft: u64, total: u64, upstream_prefix_hit: Option<String>) -> (r:
        ServedRecord)
        ensures
            r.request_id@ == self.request_id@,
            r.worker@ == self.decision.worker.url@,
            r.pool@ == self.decision.worker.pool.name(),
            r.pool@ == match self.decision.worker.pool {
                Pool::Prefill => "prefill"@,
                Pool::Decode => "decode"@,
                Pool::Both => "both"@,
            },
            r.policy@ == self.policy.name(),
            r.policy@ == match self.policy {
                RoutingPolicy::RoundRobin => "round_robin"@,
                RoutingPolicy::CacheAware => "cache_aware"@,
                RoutingPolicy::Disaggregated => "disaggregated"@,
            },
            r.matched_prefix_len == self.decision.matched_prefix_len,
            r.score == self.decision.score,
            r.upstream_prefix_hit@ == match upstream_prefix_hit {
                Some(hit) => hit@,
                None => "n/a"@,
            },
            r.ttft_ms == ttft / 1_000_000,
            r.total_latency_ms == total / 1_000_000,
    {
        ServedRecord {
            request_id: self.request_id.clone(),
            worker: self.decision.worker.url.clone(),
            pool: self.decision.worker.pool.to_string(),
            policy: self.policy.to_string(),
            matched_prefix_len: self.decision.matched_prefix_len,
            score: self.decision.score,
            upstream_prefix_hit: match upstream_prefix_hit {
                Some(hit) => hit,
                None => "n/a".to_owned(),
            },
            ttft_ms: ttft / 1_000_000,
            total_latency_ms: total / 1_000_000,
        }
    }
}

/// A single-phase request that is refused is answered with 503, and that
/// happens exactly where the readiness check answers 503 too: no worker is
/// healthy.
pub proof fn law_refused_requests_are_answered_503<F: Fn(usize, u64) -> Score>(
    scoring: F,
    before: RouterView,
    prompt: Seq<char>,
    now: u64,
    result: Result<RouteDecision, RouterError>,
    after: RouterView,
)
    requires
        before.registry.well_filed(),
        before.policy != RoutingPolicy::Disaggregated,
        before.chat_outcome(scoring, prompt, now, result, after),
    ensures
        result is Err <==> !(exists|id: u64| before.registry.is_healthy(id)),
        result matches Err(error) ==> router_error_text(error) == no_workers_text(),
{
    law_chat_is_refused_only_without_workers(scoring, before, prompt, now, result, after);
}

} // verus!
