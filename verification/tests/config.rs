//! Configuration rules.

use kvrouters::config::{
    default_health_check_interval_secs, default_prefix_index_ttl_secs, default_prompt_block_chars,
};
use kvrouters::{DiscoveryConfig, Pool, RouterConfig, RouterError, RoutingPolicy, WorkerConfig};

fn config(workers: Vec<WorkerConfig>) -> RouterConfig {
    RouterConfig {
        workers,
        routing_policy: RoutingPolicy::RoundRobin,
        health_check_interval_secs: default_health_check_interval_secs(),
        prompt_block_chars: default_prompt_block_chars(),
        prefix_index_ttl_secs: default_prefix_index_ttl_secs(),
        prefix_index_max_entries: 100_000,
        kv_transfer_cost_ms: 20,
        metrics_scrape: false,
        engine_metrics_interval_secs: 15,
        engine_cache_hit_metric: String::new(),
        discovery: DiscoveryConfig::default(),
    }
}

#[test]
fn rejects_empty_workers() {
    let error = config(vec![]).checked().unwrap_err();
    assert!(matches!(error, RouterError::Config(_)));
    assert_eq!(
        error.to_string(),
        "invalid configuration: `workers` must contain at least one entry"
    );
}

#[test]
fn accepts_any_workers() {
    let one = config(vec![WorkerConfig {
        url: "http://x".to_string(),
        pool: Pool::Decode,
    }]);
    assert_eq!(one.checked().unwrap().workers[0].url, "http://x");
}

#[test]
fn names_are_those_of_the_configuration() {
    assert_eq!(RoutingPolicy::RoundRobin.to_string(), "round_robin");
    assert_eq!(RoutingPolicy::CacheAware.to_string(), "cache_aware");
    assert_eq!(RoutingPolicy::Disaggregated.to_string(), "disaggregated");
    assert_eq!(Pool::Prefill.to_string(), "prefill");
    assert_eq!(Pool::Decode.to_string(), "decode");
    assert_eq!(Pool::Both.to_string(), "both");
}

#[test]
fn intervals_have_bounds() {
    let mut config = config(vec![]);
    assert_eq!(config.health_interval_secs(), 5);
    config.health_check_interval_secs = 0;
    assert_eq!(config.health_interval_secs(), 1);
    config.engine_metrics_interval_secs = 0;
    assert_eq!(config.scrape_interval_secs(), 1);
    assert_eq!(config.eviction_interval_secs(), 60);
    config.prefix_index_ttl_secs = 30;
    assert_eq!(config.eviction_interval_secs(), 10);
    config.prefix_index_ttl_secs = 2;
    assert_eq!(config.eviction_interval_secs(), 1);
}
