//! Worker selection: policies, ordering and bookkeeping.

use kvrouters::candidate::{pick_winner, Candidate};
use kvrouters::{
    chain_hash, ChatCompletionRequest, ChatMessage, DiscoveryConfig, InflightGuard, Pool, Router,
    RouterConfig, RouterError, RoutingPolicy, Score, WorkerConfig, WorkerRegistry,
};

/// The place of a floating-point score among all of them.
fn rank(score: f64) -> Score {
    Score::from_bits(score.to_bits())
}

/// Cache weight 1.0, load weight 0.5.
fn weigh(matched: usize, in_flight: u64) -> Score {
    rank(matched as f64 * 1.0 - in_flight as f64 * 0.5)
}

fn config(policy: RoutingPolicy, pools: [Pool; 2]) -> RouterConfig {
    RouterConfig {
        workers: vec![
            WorkerConfig {
                url: "http://a".to_string(),
                pool: pools[0],
            },
            WorkerConfig {
                url: "http://b".to_string(),
                pool: pools[1],
            },
        ],
        routing_policy: policy,
        health_check_interval_secs: 5,
        prompt_block_chars: 512,
        prefix_index_ttl_secs: 300,
        prefix_index_max_entries: 100_000,
        kv_transfer_cost_ms: 20,
        metrics_scrape: false,
        engine_metrics_interval_secs: 10,
        engine_cache_hit_metric: String::new(),
        discovery: DiscoveryConfig::default(),
    }
}

fn setup(
    policy: RoutingPolicy,
    pools: [Pool; 2],
    healthy: &[u64],
) -> Router<fn(usize, u64) -> Score> {
    let config = config(policy, pools);
    let mut registry = WorkerRegistry::from_config(&config.workers);
    for id in healthy {
        registry.set_healthy(*id, true);
    }
    Router::new(registry, &config, weigh as fn(usize, u64) -> Score)
}

fn request(prompt: &str) -> ChatCompletionRequest {
    ChatCompletionRequest {
        model: "mock".to_string(),
        messages: vec![ChatMessage {
            role: "user".to_string(),
            content: prompt.to_string(),
        }],
        max_tokens: None,
        stream: false,
    }
}

/// 984 chars make 2 blocks at the default 512-char block size.
fn two_blocks() -> String {
    "x".repeat(984)
}

#[test]
fn candidate_ordering_prefers_score_then_load_then_id() {
    let high_score = Candidate {
        score: rank(2.0),
        in_flight: 5,
        id: 1,
    };
    let low_score = Candidate {
        score: rank(1.0),
        in_flight: 0,
        id: 0,
    };
    assert!(high_score > low_score, "score dominates load");

    let idle = Candidate {
        score: rank(1.0),
        in_flight: 0,
        id: 1,
    };
    let busy = Candidate {
        score: rank(1.0),
        in_flight: 3,
        id: 0,
    };
    assert!(idle > busy, "equal score breaks ties on load");

    let first = Candidate {
        score: rank(1.0),
        in_flight: 0,
        id: 0,
    };
    let second = Candidate {
        score: rank(1.0),
        in_flight: 0,
        id: 1,
    };
    assert!(first > second, "equal score and load breaks ties on id");
}

#[test]
fn round_robin_cycles_through_healthy_workers() {
    let mut router = setup(RoutingPolicy::RoundRobin, [Pool::Both; 2], &[0, 1]);
    let first = router.select_for_chat(&request("hello")).unwrap();
    let second = router.select_for_chat(&request("hello")).unwrap();
    let third = router.select_for_chat(&request("hello")).unwrap();
    assert_eq!(
        (first.worker.id, second.worker.id, third.worker.id),
        (0, 1, 0)
    );
}

#[test]
fn never_routes_to_a_down_worker() {
    let mut router = setup(RoutingPolicy::RoundRobin, [Pool::Both; 2], &[0]);
    for _ in 0..16 {
        assert_eq!(router.select_for_chat(&request("x")).unwrap().worker.id, 0);
    }
}

#[test]
fn no_healthy_workers_is_an_error() {
    let mut router = setup(RoutingPolicy::RoundRobin, [Pool::Both; 2], &[]);
    assert!(matches!(
        router.select_for_chat(&request("x")),
        Err(RouterError::NoHealthyWorkers { .. })
    ));
}

#[test]
fn falls_back_to_other_pools_when_no_both_workers_are_healthy() {
    let mut router = setup(RoutingPolicy::RoundRobin, [Pool::Both, Pool::Prefill], &[1]);
    assert_eq!(
        router.select_for_chat(&request("x")).unwrap().worker.pool,
        Pool::Prefill
    );
}

#[test]
fn matched_prefix_length_is_tracked_per_worker() {
    let mut router = setup(RoutingPolicy::RoundRobin, [Pool::Both; 2], &[0, 1]);

    let first = router.select_for_chat(&request(&two_blocks())).unwrap();
    assert_eq!((first.worker.id, first.matched_prefix_len), (0, 0));

    // Round-robin moves to worker 1, which has its own (empty) prefix view.
    let second = router.select_for_chat(&request(&two_blocks())).unwrap();
    assert_eq!((second.worker.id, second.matched_prefix_len), (1, 0));

    // Back on worker 0, both blocks are now known.
    let third = router.select_for_chat(&request(&two_blocks())).unwrap();
    assert_eq!((third.worker.id, third.matched_prefix_len), (0, 2));
}

#[test]
fn cache_aware_prefers_the_worker_that_holds_the_chain() {
    let mut router = setup(RoutingPolicy::CacheAware, [Pool::Both; 2], &[0, 1]);
    // Worker 1 has served this prompt before. The chain is computed over the
    // canonical prompt (role prefixes included).
    let chain = chain_hash(&request(&two_blocks()).canonical_prompt(), 512);
    router.prefix_index().record(1, &chain);

    let decision = router.select_for_chat(&request(&two_blocks())).unwrap();
    assert_eq!(decision.worker.id, 1);
    assert_eq!(decision.matched_prefix_len, 2);
    assert_eq!(decision.score, rank(2.0), "2 blocks * cache weight 1.0");
}

#[test]
fn load_term_redirects_traffic_away_from_a_hot_replica() {
    let mut router = setup(RoutingPolicy::CacheAware, [Pool::Both; 2], &[0, 1]);
    // Worker 0 is drowning in 10 in-flight requests; with empty caches on
    // both sides its score is -5 vs worker 1's 0, so the idle replica wins.
    let guards: Vec<InflightGuard> = (0..10)
        .map(|_| InflightGuard::acquire(router.inflight(), 0))
        .collect();
    let decision = router.select_for_chat(&request("fresh prompt")).unwrap();
    assert_eq!(decision.worker.id, 1);
    assert_eq!(decision.score, rank(0.0));
    for guard in guards {
        guard.release(router.inflight());
    }
    assert_eq!(router.inflight().count(0), 0);
}

#[test]
fn cache_bonus_outweighs_a_small_queue() {
    let mut router = setup(RoutingPolicy::CacheAware, [Pool::Both; 2], &[0, 1]);
    let chain = chain_hash(&request(&two_blocks()).canonical_prompt(), 512);
    router.prefix_index().record(0, &chain);
    // Worker 0: 2 cached blocks (score 2.0) minus 3 queued * 0.5 = 0.5.
    // Worker 1: 0. Cache affinity wins despite the queue.
    let guards: Vec<InflightGuard> = (0..3)
        .map(|_| InflightGuard::acquire(router.inflight(), 0))
        .collect();
    let decision = router.select_for_chat(&request(&two_blocks())).unwrap();
    assert_eq!(decision.worker.id, 0);
    assert_eq!(decision.score, rank(0.5));
    for guard in guards {
        guard.release(router.inflight());
    }
}

#[test]
fn ties_break_on_fewest_in_flight() {
    let mut router = setup(RoutingPolicy::CacheAware, [Pool::Both; 2], &[0, 1]);
    // Empty caches: first pick goes to the lowest id (0)...
    let first = router
        .select_for_chat(&request("brand new prompt"))
        .unwrap();
    assert_eq!(first.worker.id, 0);
    // ...but with worker 0 busy, the tie flips to worker 1.
    let guard = InflightGuard::acquire(router.inflight(), 0);
    let second = router
        .select_for_chat(&request("another new prompt"))
        .unwrap();
    assert_eq!(second.worker.id, 1);
    guard.release(router.inflight());
}

#[test]
fn disaggregated_selects_per_pool() {
    let mut router = setup(
        RoutingPolicy::Disaggregated,
        [Pool::Prefill, Pool::Decode],
        &[0, 1],
    );
    let chain = chain_hash("hello", 512);
    let prefill = router.select_in_pool(Pool::Prefill, &chain).unwrap();
    assert_eq!(prefill.worker.id, 0);
    assert_eq!(prefill.worker.pool, Pool::Prefill);
    let decode = router.select_in_pool(Pool::Decode, &chain).unwrap();
    assert_eq!(decode.worker.id, 1);
    assert_eq!(decode.worker.pool, Pool::Decode);
}

#[test]
fn disaggregated_missing_pool_is_an_error() {
    let mut router = setup(
        RoutingPolicy::Disaggregated,
        [Pool::Prefill, Pool::Prefill],
        &[0, 1],
    );
    let chain = chain_hash("hello", 512);
    assert!(matches!(
        router.select_in_pool(Pool::Decode, &chain),
        Err(RouterError::NoHealthyWorkersInPool { .. })
    ));
}

#[test]
fn disaggregated_rejects_single_phase_routing() {
    let mut router = setup(RoutingPolicy::Disaggregated, [Pool::Both; 2], &[0, 1]);
    assert!(matches!(
        router.select_for_chat(&request("x")),
        Err(RouterError::DisaggregatedRequiresTwoPhase)
    ));
}

#[test]
fn refusals_carry_names_and_change_nothing() {
    let mut router = setup(RoutingPolicy::RoundRobin, [Pool::Both; 2], &[]);
    match router.select_for_chat(&request("x")) {
        Err(RouterError::NoHealthyWorkers { policy }) => assert_eq!(policy, "round_robin"),
        other => panic!("unexpected outcome: {other:?}"),
    }
    match router.select_in_pool(Pool::Prefill, &[1, 2]) {
        Err(RouterError::NoHealthyWorkersInPool { pool, policy }) => {
            assert_eq!(pool, "prefill");
            assert_eq!(policy, "round_robin");
        }
        other => panic!("unexpected outcome: {other:?}"),
    }
    assert_eq!(router.prefix_index().len(), 0);
    // The refusals did not advance the cycle.
    router.registry().set_healthy(0, true);
    router.registry().set_healthy(1, true);
    assert_eq!(router.select_for_chat(&request("x")).unwrap().worker.id, 0);
}

#[test]
fn workers_serving_both_phases_are_preferred() {
    let mut router = setup(RoutingPolicy::RoundRobin, [Pool::Decode, Pool::Both], &[0, 1]);
    for _ in 0..4 {
        let decision = router.select_for_chat(&request("x")).unwrap();
        assert_eq!(decision.worker.pool, Pool::Both);
        assert_eq!(decision.score, Score::Rank(0));
    }
}

#[test]
fn a_dispatch_is_remembered_at_the_chosen_worker_only() {
    let mut router = setup(RoutingPolicy::CacheAware, [Pool::Both; 2], &[0, 1]);
    let first = router.select_for_chat(&request(&two_blocks())).unwrap();
    assert_eq!(first.worker.id, 0);
    assert_eq!(first.matched_prefix_len, 0);
    assert_eq!(first.prompt_blocks, 2);
    let again = router.select_for_chat(&request(&two_blocks())).unwrap();
    assert_eq!(again.worker.id, 0);
    assert_eq!(again.matched_prefix_len, 2);
    let chain = chain_hash(&request(&two_blocks()).canonical_prompt(), 512);
    assert_eq!(router.prefix_index().longest_match(1, &chain), 0);
}

#[test]
fn a_block_size_of_zero_counts_as_one() {
    let mut config = config(RoutingPolicy::RoundRobin, [Pool::Both; 2]);
    config.prompt_block_chars = 0;
    let mut registry = WorkerRegistry::from_config(&config.workers);
    registry.set_healthy(0, true);
    let mut router = Router::new(registry, &config, weigh);
    let decision = router.select_for_chat(&request("ab")).unwrap();
    // "user: ab", one block per character.
    assert_eq!(
        decision.prompt_blocks,
        request("ab").canonical_prompt().chars().count()
    );
}

#[test]
fn scores_without_a_place_leave_the_choice_to_load_and_id() {
    let nan = Candidate {
        score: Score::Unordered,
        in_flight: 1,
        id: 4,
    };
    let high = Candidate {
        score: rank(100.0),
        in_flight: 2,
        id: 5,
    };
    assert!(nan > high);
    assert_eq!(pick_winner(&vec![high, nan]), Some(1));
    assert_eq!(pick_winner(&vec![nan, high]), Some(0));
    assert_eq!(pick_winner(&vec![]), None);
}

#[test]
fn the_last_of_equals_wins() {
    let twin = Candidate {
        score: rank(1.0),
        in_flight: 0,
        id: 0,
    };
    assert_eq!(pick_winner(&vec![twin, twin, twin]), Some(2));
    assert!(twin == twin);
}

#[test]
fn counters_start_at_zero_for_the_configured_workers() {
    let mut router = setup(RoutingPolicy::RoundRobin, [Pool::Both; 2], &[0, 1]);
    assert_eq!(router.policy(), RoutingPolicy::RoundRobin);
    assert_eq!(router.inflight().total(), 0);
    assert_eq!(router.registry().all_workers().len(), 2);
    assert_eq!(router.prefix_index().len(), 0);
}
