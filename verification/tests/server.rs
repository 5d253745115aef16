//! The decisions of the HTTP service.

use kvrouters::api::{
    chat_url, first_healthy, models_url, new_request_id, readiness, response_headers, ApiError,
    RequestTelemetry,
};
use kvrouters::chat::{check_upstream, start_chat, Upstream};
use kvrouters::disaggregated::{begin, hand_off, phase_header};
use kvrouters::engine_metrics::{scrape_report, scrape_url, ScrapeReport};
use kvrouters::health::{apply_probe, probe_succeeded, probe_url};
use kvrouters::metrics::{
    record_request, refresh_gauges, register_descriptions, HitStats, HitTotals, MetricKind,
    MetricUpdate,
};
use kvrouters::proxy::{chunk_contains_done, ProxyStream, StreamAction, StreamEvent};
use kvrouters::{
    ChatCompletionRequest, ChatMessage, DiscoveryConfig, InflightGuard, MockKvTransfer, Pool,
    RouteDecision, Router, RouterConfig, RouterError, RoutingPolicy, Score, Worker, WorkerConfig,
    WorkerRegistry, WorkerState,
};

fn config(policy: RoutingPolicy, pools: &[Pool]) -> RouterConfig {
    RouterConfig {
        workers: pools
            .iter()
            .enumerate()
            .map(|(i, pool)| WorkerConfig {
                url: format!("http://w{i}/"),
                pool: *pool,
            })
            .collect(),
        routing_policy: policy,
        health_check_interval_secs: 5,
        prompt_block_chars: 4,
        prefix_index_ttl_secs: 300,
        prefix_index_max_entries: 100_000,
        kv_transfer_cost_ms: 20,
        metrics_scrape: false,
        engine_metrics_interval_secs: 15,
        engine_cache_hit_metric: String::new(),
        discovery: DiscoveryConfig::default(),
    }
}

fn weigh(matched: usize, in_flight: u64) -> Score {
    Score::from_bits((matched as f64 - in_flight as f64 * 0.5).to_bits())
}

fn router(policy: RoutingPolicy, pools: &[Pool]) -> Router<fn(usize, u64) -> Score> {
    let config = config(policy, pools);
    let mut registry = WorkerRegistry::from_config(&config.workers);
    for id in 0..pools.len() {
        registry.set_healthy(id as u64, true);
    }
    Router::new(registry, &config, weigh as fn(usize, u64) -> Score)
}

fn request(content: &str) -> ChatCompletionRequest {
    ChatCompletionRequest {
        model: "mock".to_string(),
        messages: vec![ChatMessage {
            role: "user".to_string(),
            content: content.to_string(),
        }],
        max_tokens: Some(8),
        stream: true,
    }
}

fn worker() -> Worker {
    Worker {
        id: 3,
        url: "http://w3//".to_string(),
        pool: Pool::Decode,
    }
}

fn said(error: &ApiError) -> (u16, &str, &str) {
    (error.status, &error.error_type, &error.message)
}

#[test]
fn errors_are_answered_by_kind() {
    let no_workers = (
        503,
        "no_healthy_workers",
        "no healthy workers are currently available",
    );
    let error = RouterError::NoHealthyWorkers {
        policy: "round_robin".to_string(),
    };
    assert_eq!(said(&ApiError::from_router(&error)), no_workers);
    let error = RouterError::NoHealthyWorkersInPool {
        pool: "decode".to_string(),
        policy: "disaggregated".to_string(),
    };
    assert_eq!(said(&ApiError::from_router(&error)), no_workers);
    let error = RouterError::PolicyNotImplemented("sla".to_string());
    assert_eq!(
        said(&ApiError::from_router(&error)),
        (
            501,
            "unimplemented",
            "routing policy `sla` is not implemented yet"
        )
    );
    let error = RouterError::Config("bad".to_string());
    assert_eq!(said(&ApiError::from_router(&error)), (500, "config_error", "bad"));
    let error = ApiError::from_router(&RouterError::DisaggregatedRequiresTwoPhase);
    assert_eq!((error.status, error.error_type.as_str()), (500, "internal_error"));
    assert_eq!(
        said(&ApiError::upstream(&worker(), "timed out")),
        (502, "upstream_error", "worker http://w3// failed: timed out")
    );
    assert_eq!(
        said(&ApiError::upstream_status(&worker(), "500 Internal Server Error")),
        (
            502,
            "upstream_error",
            "worker http://w3// failed: upstream returned 500 Internal Server Error"
        )
    );
    assert_eq!(
        said(&ApiError::invalid_request("missing field `messages`")),
        (400, "invalid_request", "missing field `messages`")
    );
    assert_eq!(said(&ApiError::internal("x")), (500, "internal_error", "x"));
}

#[test]
fn router_errors_render() {
    assert_eq!(
        RouterError::NoHealthyWorkers {
            policy: "cache_aware".to_string()
        }
        .to_string(),
        "no healthy workers available (policy: cache_aware)"
    );
    assert_eq!(
        RouterError::NoHealthyWorkersInPool {
            pool: "decode".to_string(),
            policy: "disaggregated".to_string()
        }
        .to_string(),
        "no healthy workers available in pool `decode` (policy: disaggregated)"
    );
    assert_eq!(
        RouterError::DisaggregatedRequiresTwoPhase.to_string(),
        "the disaggregated policy routes in two phases"
    );
    assert_eq!(
        RouterError::Config("x".to_string()).to_string(),
        "invalid configuration: x"
    );
    assert_eq!(
        RouterError::PolicyNotImplemented("y".to_string()).to_string(),
        "routing policy `y` is not implemented yet"
    );
}

#[test]
fn readiness_follows_health() {
    let mut registry =
        WorkerRegistry::from_config(&config(RoutingPolicy::RoundRobin, &[Pool::Both; 3]).workers);
    let none = readiness(&registry);
    assert_eq!((none.status, none.healthy_workers), (503, 0));
    assert_eq!(first_healthy(&registry).unwrap_err().status, 503);
    registry.set_healthy(2, true);
    registry.set_healthy(1, true);
    let two = readiness(&registry);
    assert_eq!((two.status, two.healthy_workers), (200, 2));
    assert_eq!(first_healthy(&registry).unwrap().id, 1);
}

#[test]
fn worker_urls_lose_trailing_slashes() {
    assert_eq!(models_url(&worker()), "http://w3/v1/models");
    assert_eq!(chat_url(&worker()), "http://w3/v1/chat/completions");
    assert_eq!(probe_url(&worker()), "http://w3/health");
}

#[test]
fn request_ids_are_random_uuids() {
    let id = new_request_id();
    assert_eq!(id.len(), 36);
    for (i, c) in id.chars().enumerate() {
        match i {
            8 | 13 | 18 | 23 => assert_eq!(c, '-'),
            14 => assert_eq!(c, '4'),
            19 => assert!("89ab".contains(c)),
            _ => assert!(c.is_ascii_digit() || ('a'..='f').contains(&c)),
        }
    }
    assert_ne!(id, new_request_id());
}

fn decision() -> RouteDecision {
    RouteDecision {
        worker: worker(),
        matched_prefix_len: 12,
        prompt_blocks: 40,
        score: Score::Rank(7),
    }
}

fn pairs(headers: &[(String, String)]) -> Vec<(&str, &str)> {
    headers.iter().map(|(n, v)| (n.as_str(), v.as_str())).collect()
}

#[test]
fn responses_name_their_worker() {
    let common = [
        ("x-request-id", "abc"),
        ("x-router-worker", "http://w3//"),
        ("x-router-matched-prefix", "12"),
    ];
    let mut streaming = common.to_vec();
    streaming.push(("content-type", "text/event-stream; charset=utf-8"));
    streaming.push(("cache-control", "no-cache"));
    assert_eq!(pairs(&response_headers("abc", &decision(), true)), streaming);
    let mut plain = common.to_vec();
    plain.push(("content-type", "application/json"));
    assert_eq!(pairs(&response_headers("abc", &decision(), false)), plain);
}

fn run(streaming: bool, chunks: &[&str]) -> (Vec<String>, u64) {
    let mut stream = ProxyStream::new(streaming);
    let mut sent = Vec::new();
    for (i, chunk) in chunks.iter().enumerate() {
        match stream.step(StreamEvent::Chunk(chunk.as_bytes().to_vec()), 10 + i as u64) {
            StreamAction::Send(bytes) => sent.push(String::from_utf8(bytes).unwrap()),
            other => panic!("unexpected action: {other:?}"),
        }
    }
    loop {
        match stream.step(StreamEvent::Ended, 99) {
            StreamAction::Send(bytes) => sent.push(String::from_utf8(bytes).unwrap()),
            StreamAction::Finish(ttft) => return (sent, ttft),
            StreamAction::Fail => panic!("nothing failed"),
        }
    }
}

#[test]
fn event_streams_are_always_terminated() {
    assert_eq!(
        run(true, &["data: a\n\n", "data: b\n\n"]),
        (
            vec![
                "data: a\n\n".to_string(),
                "data: b\n\n".to_string(),
                "data: [DONE]\n\n".to_string()
            ],
            10
        )
    );
    assert_eq!(
        run(true, &["data: a\n\ndata: [DONE]\n\n"]).0,
        vec!["data: a\n\ndata: [DONE]\n\n"]
    );
    assert_eq!(run(true, &[]), (vec!["data: [DONE]\n\n".to_string()], 99));
    assert_eq!(run(false, &["{}"]), (vec!["{}".to_string()], 10));
    assert_eq!(run(false, &[]), (vec![], 99));
}

#[test]
fn a_finished_body_is_the_chunks_and_at_most_one_terminator() {
    let bodies: [&[&str]; 4] = [
        &[],
        &["data: a\n\n", "data: [DO", "NE]\n\n"],
        &["data: [DONE]\n\n", "tail"],
        &["a", "", "data: [DONE] data: [DONE]"],
    ];
    for chunks in bodies {
        let marked = chunks.iter().any(|chunk| chunk.contains("data: [DONE]"));
        for streaming in [false, true] {
            let (sent, ttft) = run(streaming, chunks);
            let mut whole = chunks.concat();
            if streaming && !marked {
                whole.push_str("data: [DONE]\n\n");
            }
            assert_eq!(sent.concat(), whole);
            assert_eq!(ttft, if chunks.is_empty() { 99 } else { 10 });
        }
    }
}

#[test]
fn a_scrape_reports_what_it_found() {
    let totals = Some(HitTotals {
        hits: 3,
        prompts: 4,
    });
    let nothing = ScrapeReport {
        engine: false,
        prediction: None,
    };
    assert_eq!(
        scrape_report(true, Some(200), true, totals),
        ScrapeReport {
            engine: true,
            prediction: totals
        }
    );
    assert_eq!(
        scrape_report(true, Some(204), true, None),
        ScrapeReport {
            engine: true,
            prediction: None
        }
    );
    assert_eq!(scrape_report(false, Some(200), true, totals), nothing);
    assert_eq!(scrape_report(true, Some(500), true, totals), nothing);
    assert_eq!(scrape_report(true, None, true, totals), nothing);
    assert_eq!(scrape_report(true, Some(200), false, totals), nothing);
}

#[test]
fn the_marker_is_found_anywhere_in_a_chunk() {
    assert!(chunk_contains_done(b"data: [DONE]"));
    assert!(chunk_contains_done(b"xx data: [DONE]\n\nyy"));
    assert!(!chunk_contains_done(b"data: [DONE"));
    assert!(!chunk_contains_done(b"data:[DONE] data: DONE]"));
    assert!(!chunk_contains_done(b""));
}

#[test]
fn failures_fail_the_body() {
    let mut stream = ProxyStream::new(true);
    stream.step(StreamEvent::Chunk(b"data: a\n\n".to_vec()), 1);
    assert!(matches!(stream.step(StreamEvent::Failed, 2), StreamAction::Fail));
    assert!(stream.failed);
    assert_eq!(stream.tokens, 1);
}

fn shown(update: &MetricUpdate) -> String {
    let labels: Vec<String> = update
        .labels
        .iter()
        .map(|(name, value)| format!("{name}={value}"))
        .collect();
    format!("{:?} {}{{{}}} {}", update.kind, update.name, labels.join(","), update.value)
}

#[test]
fn a_served_request_is_counted() {
    let telemetry = RequestTelemetry {
        request_id: "abc".to_string(),
        policy: RoutingPolicy::CacheAware,
        decision: decision(),
    };
    let mut stream = ProxyStream::new(true);
    stream.step(StreamEvent::Chunk(b"data: a\n\n".to_vec()), 1);
    stream.step(StreamEvent::Chunk(b"data: b\n\n".to_vec()), 2);
    stream.step(StreamEvent::Chunk(b"data: [DONE]\n\n".to_vec()), 3);
    let updates: Vec<String> = telemetry.updates(&stream).iter().map(shown).collect();
    assert_eq!(
        updates,
        vec![
            "Counter kvrouter_requests_total{worker=http://w3//,policy=cache_aware,status=200} 1",
            "Counter kvrouter_cache_hit_blocks{} 12",
            "Counter kvrouter_prompt_blocks_total{} 40",
            "Counter kvrouter_tokens_generated_total{worker=http://w3//} 2",
        ]
    );
    stream.step(StreamEvent::Failed, 4);
    assert_eq!(telemetry.updates(&stream).len(), 3);
    assert_eq!(
        shown(&telemetry.failure()),
        "Counter kvrouter_requests_total{worker=http://w3//,policy=cache_aware,status=502} 1"
    );
    let record = telemetry.record(2_500_000, 7_999_999, None);
    assert_eq!(record.upstream_prefix_hit, "n/a");
    assert_eq!((record.ttft_ms, record.total_latency_ms), (2, 7));
    assert_eq!((record.pool.as_str(), record.policy.as_str()), ("decode", "cache_aware"));
    let record = telemetry.record(0, 0, Some("0.5".to_string()));
    assert_eq!(record.upstream_prefix_hit, "0.5");
    assert_eq!(record.matched_prefix_len, 12);
    assert_eq!(record.score, Score::Rank(7));
    assert_eq!(record.request_id, "abc");
}

#[test]
fn statuses_are_written_in_decimal() {
    let update = record_request("w", RoutingPolicy::RoundRobin, 65535);
    assert_eq!(update.labels[2], ("status".to_string(), "65535".to_string()));
    assert_eq!(update.labels[1].1, "round_robin");
}

#[test]
fn gauges_are_derived_from_their_sources() {
    let mut router = router(RoutingPolicy::RoundRobin, &[Pool::Both; 2]);
    router.registry().set_healthy(1, false);
    let guard = InflightGuard::acquire(router.inflight(), 0);
    router.prefix_index().record_at(0, &[1, 2, 3], 5);
    let gauges: Vec<String> = refresh_gauges(&router).iter().map(shown).collect();
    assert_eq!(
        gauges,
        vec![
            "Gauge kvrouter_worker_up{worker=http://w0/} 1",
            "Gauge kvrouter_inflight_requests{worker=http://w0/} 1",
            "Gauge kvrouter_worker_up{worker=http://w1/} 0",
            "Gauge kvrouter_inflight_requests{worker=http://w1/} 0",
            "Gauge kvrouter_prefix_index_entries{} 3",
        ]
    );
    guard.release(router.inflight());
}

#[test]
fn every_metric_is_described_once() {
    let all = register_descriptions();
    assert_eq!(all.len(), 13);
    assert_eq!(all[0].name, "kvrouter_requests_total");
    assert_eq!(all[3].kind, MetricKind::Histogram);
    assert_eq!(
        all[12].help,
        "Predicted minus engine-reported cache hit rate."
    );
    for (i, one) in all.iter().enumerate() {
        assert!(one.name.starts_with("kvrouter_"));
        assert!(all[i + 1..].iter().all(|other| other.name != one.name));
    }
}

#[test]
fn predicted_hit_rates_accumulate_per_worker() {
    let mut stats = HitStats::new();
    assert_eq!(stats.predicted_cache_hit_rate("w"), None);
    stats.record_hit_stats("w", 0, 0);
    assert_eq!(stats.predicted_cache_hit_rate("w"), None);
    stats.record_hit_stats("w", 3, 4);
    stats.record_hit_stats("v", 0, 5);
    stats.record_hit_stats("w", 1, 4);
    assert_eq!(
        stats.predicted_cache_hit_rate("w"),
        Some(HitTotals { hits: 4, prompts: 8 })
    );
    assert_eq!(stats.totals("v"), HitTotals { hits: 0, prompts: 5 });
    assert_eq!(stats.totals("u"), HitTotals { hits: 0, prompts: 0 });
}

#[test]
fn a_down_transition_purges_the_worker() {
    let mut router = router(RoutingPolicy::RoundRobin, &[Pool::Both; 2]);
    router.prefix_index().record_at(0, &[1, 2], 5);
    router.prefix_index().record_at(1, &[1], 5);
    assert!(apply_probe(&mut router, 0, false));
    assert!(!router.registry().is_healthy(0));
    assert_eq!(router.prefix_index().longest_match(0, &[1, 2]), 0);
    assert_eq!(router.prefix_index().longest_match(1, &[1]), 1);
    for _ in 0..4 {
        assert_eq!(router.select_for_chat(&request("x")).unwrap().worker.id, 1);
    }
    assert!(!apply_probe(&mut router, 0, false));
    assert!(apply_probe(&mut router, 0, true));
    assert!(!apply_probe(&mut router, 7, true));
}

#[test]
fn probes_succeed_on_success_statuses_only() {
    assert!(probe_succeeded(Some(200)));
    assert!(probe_succeeded(Some(299)));
    assert!(!probe_succeeded(Some(199)));
    assert!(!probe_succeeded(Some(300)));
    assert!(!probe_succeeded(None));
}

#[test]
fn only_healthy_workers_are_scraped() {
    let mut router = router(RoutingPolicy::RoundRobin, &[Pool::Both; 2]);
    router.registry().set_healthy(1, false);
    let workers = router.registry().all_workers();
    assert_eq!(
        scrape_url(router.registry(), &workers[0]),
        Some("http://w0/metrics".to_string())
    );
    assert_eq!(scrape_url(router.registry(), &workers[1]), None);
}

#[test]
fn the_two_phases_hand_the_prompt_over() {
    let mut router = router(
        RoutingPolicy::Disaggregated,
        &[Pool::Prefill, Pool::Decode, Pool::Decode],
    );
    let busy = InflightGuard::acquire(router.inflight(), 1);
    let started = begin(&mut router, &request("abcdefgh")).unwrap();
    assert_eq!(started.prefill.worker.id, 0);
    let blocks = started.chain.len();
    assert_eq!(blocks, 4);
    let chain = started.chain.clone();
    let handed = hand_off(&mut router, started).unwrap();
    assert_eq!(handed.decode.worker.id, 2);
    assert_eq!(
        (handed.transfer.from, handed.transfer.to, handed.transfer.blocks),
        (0, 2, blocks)
    );
    assert_eq!(router.prefix_index().longest_match(2, &chain), blocks);
    busy.release(router.inflight());
    assert_eq!(
        phase_header(Pool::Prefill),
        ("x-router-phase".to_string(), "prefill".to_string())
    );
    assert_eq!(phase_header(Pool::Decode).1, "decode");
}

#[test]
fn a_missing_pool_stops_the_flow() {
    let mut router = router(RoutingPolicy::Disaggregated, &[Pool::Decode]);
    assert!(matches!(
        begin(&mut router, &request("x")),
        Err(RouterError::NoHealthyWorkersInPool { .. })
    ));
    let mut router = self::router(RoutingPolicy::Disaggregated, &[Pool::Prefill]);
    let started = begin(&mut router, &request("x")).unwrap();
    assert!(matches!(
        hand_off(&mut router, started),
        Err(RouterError::NoHealthyWorkersInPool { .. })
    ));
}

#[test]
fn mock_transfers_take_their_cost() {
    let cost = std::time::Duration::from_millis(20);
    assert_eq!(MockKvTransfer::new(cost).cost(), cost);
}

#[test]
fn starting_a_chat_counts_it_at_its_worker() {
    let mut router = router(RoutingPolicy::CacheAware, &[Pool::Both; 2]);
    let start = start_chat(&mut router, &request("x"), "abc".to_string()).unwrap();
    assert_eq!(start.url, "http://w0/v1/chat/completions");
    assert_eq!(start.telemetry.request_id, "abc");
    assert_eq!(start.telemetry.policy, RoutingPolicy::CacheAware);
    assert_eq!(start.guard.worker(), 0);
    assert_eq!(router.inflight().count(0), 1);
    start.guard.release(router.inflight());
    assert_eq!(router.inflight().count(0), 0);

    let mut down = self::router(RoutingPolicy::CacheAware, &[]);
    let error = start_chat(&mut down, &request("x"), "abc".to_string()).unwrap_err();
    assert_eq!(error.status, 503);
}

#[test]
fn upstream_answers_are_passed_on_or_explained() {
    let ok = Upstream::Answered(201, "201 Created".to_string());
    assert!(check_upstream(&worker(), &ok).is_ok());
    let rejected = Upstream::Answered(404, "404 Not Found".to_string());
    assert_eq!(
        said(&check_upstream(&worker(), &rejected).unwrap_err()),
        (
            502,
            "upstream_error",
            "worker http://w3// failed: upstream returned 404 Not Found"
        )
    );
    let lost = Upstream::Unreachable("connection refused".to_string());
    assert_eq!(
        said(&check_upstream(&worker(), &lost).unwrap_err()).2,
        "worker http://w3// failed: connection refused"
    );
}

#[test]
fn values_can_be_cloned() {
    let config = config(RoutingPolicy::CacheAware, &[Pool::Prefill, Pool::Decode]);
    assert_eq!(config.clone(), config);
    assert_eq!(config.workers[1].clone(), config.workers[1]);
    assert_eq!(request("x").clone(), request("x"));
    assert_eq!(request("x").messages[0].clone(), request("x").messages[0]);
    let copy = decision().clone();
    assert_eq!((copy.worker, copy.matched_prefix_len), (worker(), 12));
    assert_eq!((copy.prompt_blocks, copy.score), (40, Score::Rank(7)));
    let state = WorkerState {
        worker: worker(),
        healthy: true,
    };
    assert_eq!(state.clone().worker, state.worker);
    assert!(state.clone().healthy);
    let mock = MockKvTransfer::new(std::time::Duration::from_millis(3));
    assert_eq!(mock.clone().cost(), mock.cost());
}
