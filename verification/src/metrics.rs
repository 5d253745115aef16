//! `kvrouter_*` metrics: names, labels and values.
//!
//! Counters are cumulative; hit rate is derived as
//! `rate(kvrouter_cache_hit_blocks) / rate(kvrouter_prompt_blocks_total)`.

use vstd::prelude::*;

use crate::config::RoutingPolicy;
use crate::inflight::count_of;
use crate::router::{Router, RouterView};
use crate::score::Score;
use crate::string_map::StringMap;
use crate::text::{decimal, decimal_text};
use crate::worker::Worker;

verus! {

/// How a metric behaves.
#[derive(Debug, Clone, Copy, PartialEq, Eq, Structural)]
pub enum MetricKind {
    /// Only grows; an update is an increment.
    Counter,
    /// Goes up and down; an update is the new value.
    Gauge,
    /// A distribution of observed values.
    Histogram,
}

/// One change to one metric series.
#[derive(Debug)]
pub struct MetricUpdate {
    /// Kind of the metric.
    pub kind: MetricKind,
    /// Name of the metric.
    pub name: String,
    /// Labels of the series.
    pub labels: Vec<(String, String)>,
    /// Increment of a counter, new value of a gauge.
    pub value: u64,
}

/// What a metric update says.
#[verifier::ext_equal]
pub struct MetricView {
    /// Kind of the metric.
    pub kind: MetricKind,
    /// Name of the metric.
    pub name: Seq<char>,
    /// Labels of the series.
    pub labels: Seq<(Seq<char>, Seq<char>)>,
    /// Increment or new value.
    pub value: u64,
}

/// Labels as texts.
pub open spec fn label_texts(labels: Seq<(String, String)>) -> Seq<(Seq<char>, Seq<char>)> {
    labels.map_values(|label: (String, String)| (label.0@, label.1@))
}

impl View for MetricUpdate {
    type V = MetricView;

    open spec fn view(&self) -> MetricView {
        MetricView {
            kind: self.kind,
            name: self.name@,
            labels: label_texts(self.labels@),
            value: self.value,
        }
    }
}

/// What a list of updates says.
pub open spec fn update_views(updates: Seq<MetricUpdate>) -> Seq<MetricView> {
    updates.map_values(|update: MetricUpdate| update@)
}

/// HELP text of one metric.
#[derive(Debug)]
pub struct Description {
    /// Kind of the metric.
    pub kind: MetricKind,
    /// Name of the metric.
    pub name: String,
    /// The text.
    pub help: String,
}

/// What some descriptions say.
pub open spec fn description_texts(all: Seq<Description>) -> Seq<
    (MetricKind, Seq<char>, Seq<char>),
> {
    all.map_values(|d: Description| (d.kind, d.name@, d.help@))
}

fn describe(all: &mut Vec<Description>, kind: MetricKind, name: &str, help: &str)
    ensures
        description_texts(final(all)@) == description_texts(old(all)@).push((kind, name@, help@)),
{
    all.push(Description { kind, name: name.to_owned(), help: help.to_owned() });
    assert(description_texts(all@) =~= description_texts(old(all)@).push((kind, name@, help@)));
}

/// HELP text of every metric.
pub open spec fn descriptions() -> Seq<(MetricKind, Seq<char>, Seq<char>)> {
    seq![
        (
            MetricKind::Counter,
            "kvrouter_requests_total"@,
            "Chat completion requests by worker, policy and status."@,
        ),
        (
            MetricKind::Counter,
            "kvrouter_cache_hit_blocks"@,
            "Cache-hit blocks credited to routing decisions (matched prefix length)."@,
        ),
        (
            MetricKind::Counter,
            "kvrouter_prompt_blocks_total"@,
            "Prompt blocks across routed requests."@,
        ),
        (
            MetricKind::Histogram,
            "kvrouter_ttft_seconds"@,
            "Time to first token, seconds."@,
        ),
        (
            MetricKind::Histogram,
            "kvrouter_request_duration_seconds"@,
            "End-to-end request duration, seconds."@,
        ),
        (
            MetricKind::Counter,
            "kvrouter_tokens_generated_total"@,
            "Tokens streamed back to clients, counted from streamed chunks."@,
        ),
        (
            MetricKind::Gauge,
            "kvrouter_inflight_requests"@,
            "Requests currently in flight, per worker."@,
        ),
        (
            MetricKind::Gauge,
            "kvrouter_prefix_index_entries"@,
            "Router-side prefix index size."@,
        ),
        (
            MetricKind::Gauge,
            "kvrouter_worker_up"@,
            "1 if the worker is currently healthy."@,
        ),
        (
            MetricKind::Histogram,
            "kvrouter_kv_transfer_seconds"@,
            "KV transfer duration between prefill and decode workers (disaggregated mode)."@,
        ),
        (
            MetricKind::Gauge,
            "kvrouter_engine_cache_hit_rate"@,
            "Engine-reported prefix cache hit rate (metrics_scrape mode)."@,
        ),
        (
            MetricKind::Gauge,
            "kvrouter_predicted_cache_hit_rate"@,
            "Router-predicted prefix cache hit rate from its belief index."@,
        ),
        (
            MetricKind::Gauge,
            "kvrouter_hit_rate_prediction_error"@,
            "Predicted minus engine-reported cache hit rate."@,
        ),
    ]
}

/// The HELP text to register for every metric.
pub fn register_descriptions() -> (all: Vec<Description>)
    ensures
        description_texts(all@) == descriptions(),
        all@.len() == 13,
        all@[0].kind == MetricKind::Counter && all@[0].name@ == "kvrouter_requests_total"@
            && all@[0].help@ == "Chat completion requests by worker, policy and status."@,
        all@[1].kind == MetricKind::Counter && all@[1].name@ == "kvrouter_cache_hit_blocks"@
            && all@[1].help@ == "Cache-hit blocks credited to routing decisions (matched prefix length)."@,
        all@[2].kind == MetricKind::Counter && all@[2].name@ == "kvrouter_prompt_blocks_total"@
            && all@[2].help@ == "Prompt blocks across routed requests."@,
        all@[3].kind == MetricKind::Histogram && all@[3].name@ == "kvrouter_ttft_seconds"@
            && all@[3].help@ == "Time to first token, seconds."@,
        all@[4].kind == MetricKind::Histogram && all@[4].name@ == "kvrouter_request_duration_seconds"@
            && all@[4].help@ == "End-to-end request duration, seconds."@,
        all@[5].kind == MetricKind::Counter && all@[5].name@ == "kvrouter_tokens_generated_total"@
            && all@[5].help@ == "Tokens streamed back to clients, counted from streamed chunks."@,
        all@[6].kind == MetricKind::Gauge && all@[6].name@ == "kvrouter_inflight_requests"@
            && all@[6].help@ == "Requests currently in flight, per worker."@,
        all@[7].kind == MetricKind::Gauge && all@[7].name@ == "kvrouter_prefix_index_entries"@
            && all@[7].help@ == "Router-side prefix index size."@,
        all@[8].kind == MetricKind::Gauge && all@[8].name@ == "kvrouter_worker_up"@
            && all@[8].help@ == "1 if the worker is currently healthy."@,
        all@[9].kind == MetricKind::Histogram && all@[9].name@ == "kvrouter_kv_transfer_seconds"@
            && all@[9].help@ == "KV transfer duration between prefill and decode workers (disaggregated mode)."@,
        all@[10].kind == MetricKind::Gauge && all@[10].name@ == "kvrouter_engine_cache_hit_rate"@
            && all@[10].help@ == "Engine-reported prefix cache hit rate (metrics_scrape mode)."@,
        all@[11].kind == MetricKind::Gauge && all@[11].name@ == "kvrouter_predicted_cache_hit_rate"@
            && all@[11].help@ == "Router-predicted prefix cache hit rate from its belief index."@,
        all@[12].kind == MetricKind::Gauge && all@[12].name@ == "kvrouter_hit_rate_prediction_error"@
            && all@[12].help@ == "Predicted minus engine-reported cache hit rate."@,
{
    let mut all: Vec<Description> = Vec::new();
    assert(description_texts(all@) =~= seq![]);
    describe(
        &mut all,
        MetricKind::Counter,
        "kvrouter_requests_total",
        "Chat completion requests by worker, policy and status.",
    );
    describe(
        &mut all,
        MetricKind::Counter,
        "kvrouter_cache_hit_blocks",
        "Cache-hit blocks credited to routing decisions (matched prefix length).",
    );
    describe(
        &mut all,
        MetricKind::Counter,
        "kvrouter_prompt_blocks_total",
        "Prompt blocks across routed requests.",
    );
    describe(
        &mut all,
        MetricKind::Histogram,
        "kvrouter_ttft_seconds",
        "Time to first token, seconds.",
    );
    describe(
        &mut all,
        MetricKind::Histogram,
        "kvrouter_request_duration_seconds",
        "End-to-end request duration, seconds.",
    );
    describe(
        &mut all,
        MetricKind::Counter,
        "kvrouter_tokens_generated_total",
        "Tokens streamed back to clients, counted from streamed chunks.",
    );
    describe(
        &mut all,
        MetricKind::Gauge,
        "kvrouter_inflight_requests",
        "Requests currently in flight, per worker.",
    );
    describe(
        &mut all,
        MetricKind::Gauge,
        "kvrouter_prefix_index_entries",
        "Router-side prefix index size.",
    );
    describe(
        &mut all,
        MetricKind::Gauge,
        "kvrouter_worker_up",
        "1 if the worker is currently healthy.",
    );
    describe(
        &mut all,
        MetricKind::Histogram,
        "kvrouter_kv_transfer_seconds",
        "KV transfer duration between prefill and decode workers (disaggregated mode).",
    );
    describe(
        &mut all,
        MetricKind::Gauge,
        "kvrouter_engine_cache_hit_rate",
        "Engine-reported prefix cache hit rate (metrics_scrape mode).",
    );
    describe(
        &mut all,
        MetricKind::Gauge,
        "kvrouter_predicted_cache_hit_rate",
        "Router-predicted prefix cache hit rate from its belief index.",
    );
    describe(
        &mut all,
        MetricKind::Gauge,
        "kvrouter_hit_rate_prediction_error",
        "Predicted minus engine-reported cache hit rate.",
    );
    assert(description_texts(all@) =~= descriptions());
    assert forall|i: int| 0 <= i < all@.len() implies #[trigger] description_texts(all@)[i] == (
        all@[i].kind,
        all@[i].name@,
        all@[i].help@,
    ) by {}
    all
}

fn unlabelled(kind: MetricKind, name: &str, value: u64) -> (r: MetricUpdate)
    ensures
        r@ == (MetricView { kind, name: name@, labels: seq![], value }),
{
    let r = MetricUpdate { kind, name: name.to_owned(), labels: Vec::new(), value };
    assert(r@ =~= (MetricView { kind, name: name@, labels: seq![], value }));
    r
}

/// The series of a metric for one worker.
pub open spec fn per_worker(
    kind: MetricKind,
    name: Seq<char>,
    worker: Seq<char>,
    value: u64,
) -> MetricView {
    MetricView { kind, name, labels: seq![("worker"@, worker)], value }
}

fn for_worker(kind: MetricKind, name: &str, worker: &str, value: u64) -> (r: MetricUpdate)
    ensures
        r@ == per_worker(kind, name@, worker@, value),
{
    let mut labels: Vec<(String, String)> = Vec::new();
    labels.push(("worker".to_owned(), worker.to_owned()));
    let r = MetricUpdate { kind, name: name.to_owned(), labels, value };
    assert(r@ =~= per_worker(kind, name@, worker@, value));
    r
}

/// One more request, by worker, policy and status.
pub open spec fn request_view(worker: Seq<char>, policy: RoutingPolicy, status: u16) -> MetricView {
    MetricView {
        kind: MetricKind::Counter,
        name: "kvrouter_requests_total"@,
        labels: seq![
            ("worker"@, worker),
            ("policy"@, policy.name()),
            ("status"@, decimal(status as nat)),
        ],
        value: 1,
    }
}

/// Count a request.
pub fn record_request(worker: &str, policy: RoutingPolicy, status: u16) -> (r: MetricUpdate)
    ensures
        r@ == request_view(worker@, policy, status),
        r.kind == MetricKind::Counter,
        r.name@ == "kvrouter_requests_total"@,
        r.value == 1,
        r@.labels == seq![
            ("worker"@, worker@),
            (
                "policy"@,
                match policy {
                    RoutingPolicy::RoundRobin => "round_robin"@,
                    RoutingPolicy::CacheAware => "cache_aware"@,
                    RoutingPolicy::Disaggregated => "disaggregated"@,
                },
            ),
            ("status"@, decimal(status as nat)),
        ],
{
    let mut labels: Vec<(String, String)> = Vec::new();
    labels.push(("worker".to_owned(), worker.to_owned()));
    labels.push(("policy".to_owned(), policy.to_string()));
    labels.push(("status".to_owned(), decimal_text(status as u64)));
    let r = MetricUpdate {
        kind: MetricKind::Counter,
        name: "kvrouter_requests_total".to_owned(),
        labels,
        value: 1,
    };
    assert(r@ =~= request_view(worker@, policy, status));
    r
}

/// Credit cache-hit blocks.
pub fn record_cache_hit_blocks(blocks: u64) -> (r: MetricUpdate)
    ensures
        r@ == (MetricView {
            kind: MetricKind::Counter,
            name: "kvrouter_cache_hit_blocks"@,
            labels: seq![],
            value: blocks,
        }),
{
    unlabelled(MetricKind::Counter, "kvrouter_cache_hit_blocks", blocks)
}

/// Count prompt blocks.
pub fn record_prompt_blocks(blocks: u64) -> (r: MetricUpdate)
    ensures
        r@ == (MetricView {
            kind: MetricKind::Counter,
            name: "kvrouter_prompt_blocks_total"@,
            labels: seq![],
            value: blocks,
        }),
{
    unlabelled(MetricKind::Counter, "kvrouter_prompt_blocks_total", blocks)
}

/// Count tokens streamed back from a worker.
pub fn record_tokens_generated(worker: &str, tokens: u64) -> (r: MetricUpdate)
    ensures
        r@ == per_worker(
            MetricKind::Counter,
            "kvrouter_tokens_generated_total"@,
            worker@,
            tokens,
        ),
        r.kind == MetricKind::Counter,
        r.name@ == "kvrouter_tokens_generated_total"@,
        r@.labels == seq![("worker"@, worker@)],
        r.value == tokens,
{
    for_worker(MetricKind::Counter, "kvrouter_tokens_generated_total", worker, tokens)
}

/// A worker's in-flight gauge.
pub open spec fn inflight_view(worker: Seq<char>, count: u64) -> MetricView {
    per_worker(MetricKind::Gauge, "kvrouter_inflight_requests"@, worker, count)
}

/// Set a worker's in-flight gauge.
pub fn set_inflight(worker: &str, count: u64) -> (r: MetricUpdate)
    ensures
        r@ == inflight_view(worker@, count),
        r.kind == MetricKind::Gauge,
        r.name@ == "kvrouter_inflight_requests"@,
        r@.labels == seq![("worker"@, worker@)],
        r.value == count,
{
    for_worker(MetricKind::Gauge, "kvrouter_inflight_requests", worker, count)
}

/// The index size gauge.
pub open spec fn index_view(entries: u64) -> MetricView {
    MetricView {
        kind: MetricKind::Gauge,
        name: "kvrouter_prefix_index_entries"@,
        labels: seq![],
        value: entries,
    }
}

/// Set the index size gauge.
pub fn set_prefix_index_entries(entries: u64) -> (r: MetricUpdate)
    ensures
        r@ == index_view(entries),
        r.kind == MetricKind::Gauge,
        r.name@ == "kvrouter_prefix_index_entries"@,
        r@.labels == Seq::<(Seq<char>, Seq<char>)>::empty(),
        r.value == entries,
{
    unlabelled(MetricKind::Gauge, "kvrouter_prefix_index_entries", entries)
}

/// A worker's health gauge: one while it is up, else zero.
pub open spec fn up_view(worker: Seq<char>, up: bool) -> MetricView {
    per_worker(
        MetricKind::Gauge,
        "kvrouter_worker_up"@,
        worker,
        if up {
            1
        } else {
            0
        },
    )
}

/// Set a worker's health gauge.
pub fn set_worker_up(worker: &str, up: bool) -> (r: MetricUpdate)
    ensures
        r@ == up_view(worker@, up),
        r.kind == MetricKind::Gauge,
        r.name@ == "kvrouter_worker_up"@,
        r@.labels == seq![("worker"@, worker@)],
        r.value == if up {
            1u64
        } else {
            0
        },
{
    for_worker(
        MetricKind::Gauge,
        "kvrouter_worker_up",
        worker,
        if up {
            1
        } else {
            0
        },
    )
}

/// Health and in-flight gauges of some workers, in order.
pub open spec fn worker_gauges(view: RouterView, workers: Seq<Worker>) -> Seq<MetricView>
    decreases workers.len(),
{
    if workers.len() == 0 {
        seq![]
    } else {
        let worker = workers.last();
        worker_gauges(view, workers.drop_last()).push(
            up_view(worker.url@, view.registry.is_healthy(worker.id)),
        ).push(inflight_view(worker.url@, count_of(view.counts, worker.id)))
    }
}

/// Re-derive live gauges from their sources right before a scrape: worker
/// health from the registry, in-flight counts from the tracker, and index size
/// from the prefix index. Gauges are otherwise only written on transitions,
/// which would make them lag reality between scrapes.
pub fn refresh_gauges<F: Fn(usize, u64) -> Score>(router: &Router<F>) -> (r: Vec<MetricUpdate>)
    requires
        router.wf(),
    ensures
        router@.index.len() <= usize::MAX ==> update_views(r@) == worker_gauges(
            router@,
            router@.registry.all_workers(),
        ).push(index_view(router@.index.len() as u64)),
        router@.index.len() > usize::MAX ==> update_views(r@) == worker_gauges(
            router@,
            router@.registry.all_workers(),
        ).push(index_view(usize::MAX as u64)),
{
    let registry = router.read_registry();
    let workers = registry.all_workers();
    let mut updates: Vec<MetricUpdate> = Vec::new();
    let mut i: usize = 0;
    assert(update_views(updates@) =~= seq![]);
    assert(workers@.take(0) =~= seq![]);
    while i < workers.len()
        invariant
            registry@ == router@.registry,
            i <= workers@.len(),
            update_views(updates@) == worker_gauges(router@, workers@.take(i as int)),
        decreases workers@.len() - i,
    {
        let ghost before = updates@;
        let up = set_worker_up(
            workers[i].url.as_str(),
            registry.is_healthy(workers[i].id),
        );
        let inflight = set_inflight(
            workers[i].url.as_str(),
            router.read_inflight().count(workers[i].id),
        );
        let ghost (up_says, inflight_says) = (up@, inflight@);
        updates.push(up);
        updates.push(inflight);
        proof {
            assert(workers@.take(i + 1).drop_last() =~= workers@.take(i as int));
            assert(update_views(updates@) =~= update_views(before).push(up_says).push(
                inflight_says,
            ));
        }
        i += 1;
    }
    assert(workers@.take(i as int) =~= workers@);
    let entries = set_prefix_index_entries(router.read_index().len() as u64);
    let ghost before = updates@;
    let ghost entries_say = entries@;
    updates.push(entries);
    assert(update_views(updates@) =~= update_views(before).push(entries_say));
    updates
}

/// Cumulative blocks of the requests routed to a worker.
#[derive(Debug, Clone, Copy, PartialEq, Eq, Structural)]
pub struct HitTotals {
    /// Blocks the worker was believed to hold.
    pub hits: u64,
    /// Blocks in the prompts.
    pub prompts: u64,
}

/// The totals of a worker; zero where it has served nothing.
pub open spec fn totals_of(stats: Map<Seq<char>, HitTotals>, worker: Seq<char>) -> HitTotals {
    if stats.contains_key(worker) {
        stats[worker]
    } else {
        HitTotals { hits: 0, prompts: 0 }
    }
}

/// Per-worker cumulative blocks from routing decisions. The metrics facade can
/// only be written; the scraper reads these back to derive the predicted hit
/// rate.
#[derive(Debug)]
pub struct HitStats {
    by_worker: StringMap<HitTotals>,
}

impl View for HitStats {
    type V = Map<Seq<char>, HitTotals>;

    closed spec fn view(&self) -> Map<Seq<char>, HitTotals> {
        self.by_worker@
    }
}

impl HitStats {
    /// Validity: one entry per worker.
    pub closed spec fn wf(self) -> bool {
        self.by_worker.wf()
    }

    /// No traffic yet.
    pub fn new() -> (r: HitStats)
        ensures
            r.wf(),
            r@ == Map::<Seq<char>, HitTotals>::empty(),
    {
        HitStats { by_worker: StringMap::new() }
    }

    /// The totals of a worker; zero where it has served nothing.
    pub fn totals(&self, worker: &str) -> (r: HitTotals)
        requires
            self.wf(),
        ensures
            r == totals_of(self@, worker@),
            self@.contains_key(worker@) ==> r == self@[worker@],
            !self@.contains_key(worker@) ==> r.hits == 0 && r.prompts == 0,
    {
        match self.by_worker.get(&worker.to_owned()) {
            Some(totals) => *totals,
            None => HitTotals { hits: 0, prompts: 0 },
        }
    }

    /// Record a completed request's matched and prompt blocks against a
    /// worker.
    pub fn record_hit_stats(&mut self, worker: &str, matched_blocks: u64, prompt_blocks: u64)
        requires
            old(self).wf(),
            totals_of(old(self)@, worker@).hits + matched_blocks <= u64::MAX,
            totals_of(old(self)@, worker@).prompts + prompt_blocks <= u64::MAX,
        ensures
            final(self).wf(),
            final(self)@ == old(self)@.insert(
                worker@,
                HitTotals {
                    hits: (totals_of(old(self)@, worker@).hits + matched_blocks) as u64,
                    prompts: (totals_of(old(self)@, worker@).prompts + prompt_blocks) as u64,
                },
            ),
    {
        let before = self.totals(worker);
        self.by_worker.insert(
            worker.to_owned(),
            HitTotals {
                hits: before.hits + matched_blocks,
                prompts: before.prompts + prompt_blocks,
            },
        );
    }

    /// The fraction that is a worker's predicted hit rate: cumulative hits over
    /// cumulative prompt blocks. None where it has served no blocks.
    pub fn predicted_cache_hit_rate(&self, worker: &str) -> (r: Option<HitTotals>)
        requires
            self.wf(),
        ensures
            r == if totals_of(self@, worker@).prompts > 0 {
                Some(totals_of(self@, worker@))
            } else {
                None
            },
    {
        let totals = self.totals(worker);
        if totals.prompts > 0 {
            Some(totals)
        } else {
            None
        }
    }
}

/// One record of a completed request.
pub struct HitRecord {
    /// The worker's URL.
    pub worker: Seq<char>,
    /// Matched blocks.
    pub matched: u64,
    /// Prompt blocks.
    pub prompt: u64,
}

/// Matched blocks of a worker over some records.
pub open spec fn matched_sum(records: Seq<HitRecord>, worker: Seq<char>) -> nat
    decreases records.len(),
{
    if records.len() == 0 {
        0
    } else {
        matched_sum(records.drop_last(), worker) + (if records.last().worker == worker {
            records.last().matched as nat
        } else {
            0
        })
    }
}

/// Prompt blocks of a worker over some records.
pub open spec fn prompt_sum(records: Seq<HitRecord>, worker: Seq<char>) -> nat
    decreases records.len(),
{
    if records.len() == 0 {
        0
    } else {
        prompt_sum(records.drop_last(), worker) + (if records.last().worker == worker {
            records.last().prompt as nat
        } else {
            0
        })
    }
}

/// The stats after some records.
pub open spec fn stats_after(records: Seq<HitRecord>) -> Map<Seq<char>, HitTotals>
    decreases records.len(),
{
    if records.len() == 0 {
        Map::empty()
    } else {
        let before = stats_after(records.drop_last());
        let record = records.last();
        before.insert(
            record.worker,
            HitTotals {
                hits: (totals_of(before, record.worker).hits + record.matched) as u64,
                prompts: (totals_of(before, record.worker).prompts + record.prompt) as u64,
            },
        )
    }
}

/// The totals of a worker are the sums over its own requests, and a match is
/// never longer than its prompt, so a predicted hit rate is at most one.
pub proof fn law_totals_are_sums(records: Seq<HitRecord>, worker: Seq<char>)
    requires
        forall|w: Seq<char>| #[trigger] prompt_sum(records, w) <= u64::MAX,
        forall|i: int| 0 <= i < records.len() ==> (#[trigger] records[i]).matched <= records[i].prompt,
    ensures
        totals_of(stats_after(records), worker).hits == matched_sum(records, worker),
        totals_of(stats_after(records), worker).prompts == prompt_sum(records, worker),
        matched_sum(records, worker) <= prompt_sum(records, worker),
    decreases records.len(),
{
    if records.len() > 0 {
        let head = records.drop_last();
        assert forall|w: Seq<char>| #[trigger] prompt_sum(head, w) <= u64::MAX by {
            assert(prompt_sum(records, w) <= u64::MAX);
        }
        assert forall|i: int| 0 <= i < head.len() implies (#[trigger] head[i]).matched
            <= head[i].prompt by {
            assert(records[i].matched <= records[i].prompt);
        }
        law_totals_are_sums(head, worker);
        law_totals_are_sums(head, records.last().worker);
        assert(records[records.len() - 1].matched <= records[records.len() - 1].prompt);
        assert(prompt_sum(records, records.last().worker) <= u64::MAX);
    }
}

/// Every worker has its two gauges, one after the other and in the order of the
/// workers: whether it is up, and how many requests it has in flight.
pub proof fn law_every_worker_has_its_gauges(view: RouterView, workers: Seq<Worker>, i: int)
    requires
        0 <= i < workers.len(),
    ensures
        ({
            let gauges = worker_gauges(view, workers);
            let id = workers[i].id;
            &&& gauges.len() == 2 * workers.len()
            &&& gauges[2 * i].kind == MetricKind::Gauge
            &&& gauges[2 * i].name == "kvrouter_worker_up"@
            &&& gauges[2 * i].labels == seq![("worker"@, workers[i].url@)]
            &&& gauges[2 * i].value == (if view.registry.workers.contains_key(id)
                && view.registry.workers[id].healthy {
                1u64
            } else {
                0
            })
            &&& gauges[2 * i + 1].kind == MetricKind::Gauge
            &&& gauges[2 * i + 1].name == "kvrouter_inflight_requests"@
            &&& gauges[2 * i + 1].labels == seq![("worker"@, workers[i].url@)]
            &&& gauges[2 * i + 1].value == (if id < view.counts.len() {
                view.counts[id as int]
            } else {
                0
            })
        }),
    decreases workers.len(),
{
    lemma_gauges_len(view, workers);
    lemma_gauges_len(view, workers.drop_last());
    if i < workers.len() - 1 {
        law_every_worker_has_its_gauges(view, workers.drop_last(), i);
        assert(workers.drop_last()[i] == workers[i]);
    }
}

proof fn lemma_gauges_len(view: RouterView, workers: Seq<Worker>)
    ensures
        worker_gauges(view, workers).len() == 2 * workers.len(),
    decreases workers.len(),
{
    if workers.len() > 0 {
        lemma_gauges_len(view, workers.drop_last());
    }
}

/// An update says its kind, name, labels and value, each label with its name
/// and its value, in order.
pub proof fn law_updates_say_what_they_hold(updates: Seq<MetricUpdate>, i: int, k: int)
    requires
        0 <= i < updates.len(),
        0 <= k < updates[i].labels@.len(),
    ensures
        update_views(updates).len() == updates.len(),
        update_views(updates)[i].kind == updates[i].kind,
        update_views(updates)[i].name == updates[i].name@,
        update_views(updates)[i].value == updates[i].value,
        update_views(updates)[i].labels.len() == updates[i].labels@.len(),
        update_views(updates)[i].labels[k] == (updates[i].labels@[k].0@, updates[i].labels@[k].1@),
{
}

} // verus!
