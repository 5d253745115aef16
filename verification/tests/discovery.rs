//! Worker discovery.

use kvrouters::discovery::{reconcile, DiscoveredWorkers};
use kvrouters::endpoints::{
    endpoint_urls, handle_event, slice_selector, Backoff, Endpoint, EndpointConditions,
    EndpointSlice, SliceEvent, SliceSet,
};
use kvrouters::urls::UrlSet;
use kvrouters::{
    chain_hash, DiscoveryConfig, Pool, PrefixIndex, Router, RouterConfig, RoutingPolicy, Score,
    WorkerRegistry,
};

fn url(ip: &str) -> String {
    format!("http://{ip}:8001")
}

fn urls(all: &[String]) -> UrlSet {
    let mut set = UrlSet::new();
    for one in all {
        set.insert(one.clone());
    }
    set
}

#[test]
fn reconcile_adds_and_removes_workers() {
    let mut registry = WorkerRegistry::from_config(&[]);
    let mut index = PrefixIndex::new();
    let mut discovered = DiscoveredWorkers::default();

    let (removed, added) = reconcile(
        &mut registry,
        &mut index,
        &mut discovered,
        &urls(&[url("10.0.0.1"), url("10.0.0.2")]),
    );
    assert_eq!((removed, added), (0, 2));
    assert_eq!(registry.all_workers().len(), 2);

    // One pod disappears: removed from registry, prefix index purged.
    let chain = chain_hash("shared prompt", 512);
    let survivor = discovered.id_of(&url("10.0.0.2")).unwrap();
    let dead = discovered.id_of(&url("10.0.0.1")).unwrap();
    index.record(dead, &chain);
    index.record(survivor, &chain);
    assert_eq!(index.longest_match(dead, &chain), chain.len());

    let (removed, added) = reconcile(
        &mut registry,
        &mut index,
        &mut discovered,
        &urls(&[url("10.0.0.2")]),
    );
    assert_eq!((removed, added), (1, 0));
    assert_eq!(registry.all_workers().len(), 1);
    assert_eq!(registry.get(dead), None);
    assert_eq!(index.longest_match(dead, &chain), 0);
    assert_eq!(index.longest_match(survivor, &chain), chain.len());

    // Replacement pod gets a fresh id and empty affinity.
    let (_, added) = reconcile(
        &mut registry,
        &mut index,
        &mut discovered,
        &urls(&[url("10.0.0.2"), url("10.0.0.3")]),
    );
    assert_eq!(added, 1);
    let replacement = discovered.id_of(&url("10.0.0.3")).unwrap();
    assert_eq!(index.longest_match(replacement, &chain), 0);
    assert!(replacement > dead);
    assert!(!registry.is_healthy(replacement));
    assert_eq!(registry.get(replacement).unwrap().pool, Pool::Both);

    // A second reconciliation with the same set finds nothing to do.
    assert_eq!(
        reconcile(
            &mut registry,
            &mut index,
            &mut discovered,
            &urls(&[url("10.0.0.3"), url("10.0.0.2")]),
        ),
        (0, 0)
    );
    assert_eq!(discovered.len(), 2);
}

#[test]
fn endpoint_urls_skips_unready_and_uses_first_port() {
    let slice = slice(
        "workers-1",
        Some(vec![Some(8001)]),
        vec![
            endpoint(&["10.0.0.1"], Some(Some(true))),
            endpoint(&["10.0.0.2"], Some(Some(false))),
            endpoint(&["10.0.0.3"], None),
        ],
    );
    let urls = endpoint_urls(&slice);
    assert!(urls.contains(&url("10.0.0.1")));
    assert!(!urls.contains(&url("10.0.0.2")));
    // Kubernetes semantics: `ready` defaults to true when unset.
    assert!(urls.contains(&url("10.0.0.3")));
}

fn endpoint(addresses: &[&str], ready: Option<Option<bool>>) -> Endpoint {
    Endpoint {
        addresses: addresses.iter().map(|a| a.to_string()).collect(),
        conditions: ready.map(|ready| EndpointConditions { ready }),
    }
}

fn slice(name: &str, ports: Option<Vec<Option<i32>>>, endpoints: Vec<Endpoint>) -> EndpointSlice {
    EndpointSlice {
        name: name.to_string(),
        ports,
        endpoints,
    }
}

fn listed(set: &UrlSet) -> Vec<String> {
    (0..set.len()).map(|i| set.get(i).clone()).collect()
}

#[test]
fn ports_default_and_duplicates_collapse() {
    let ready = || vec![endpoint(&["a", "b", "a"], Some(Some(true))), endpoint(&["b"], None)];
    for ports in [None, Some(vec![]), Some(vec![None, Some(9)])] {
        assert_eq!(
            listed(&endpoint_urls(&slice("s", ports, ready()))),
            vec!["http://a:8001", "http://b:8001"]
        );
    }
    assert_eq!(
        listed(&endpoint_urls(&slice("s", Some(vec![Some(9000), Some(1)]), ready()))),
        vec!["http://a:9000", "http://b:9000"]
    );
    // Readiness left out of the conditions is unset too.
    assert_eq!(
        listed(&endpoint_urls(&slice("s", None, vec![endpoint(&["a"], Some(None))]))),
        vec!["http://a:8001"]
    );
}

fn router() -> Router<fn(usize, u64) -> Score> {
    let config = RouterConfig {
        workers: vec![],
        routing_policy: RoutingPolicy::RoundRobin,
        health_check_interval_secs: 5,
        prompt_block_chars: 512,
        prefix_index_ttl_secs: 300,
        prefix_index_max_entries: 100_000,
        kv_transfer_cost_ms: 20,
        metrics_scrape: false,
        engine_metrics_interval_secs: 15,
        engine_cache_hit_metric: String::new(),
        discovery: DiscoveryConfig::default(),
    };
    fn flat(_: usize, _: u64) -> Score {
        Score::Rank(0)
    }
    Router::new(WorkerRegistry::from_config(&[]), &config, flat)
}

#[test]
fn slices_are_tracked_one_by_one() {
    let mut router = router();
    let mut discovered = DiscoveredWorkers::default();
    let mut slices = SliceSet::new();
    let first = slice("one", None, vec![endpoint(&["10.0.0.1", "10.0.0.2"], None)]);
    let second = slice("two", None, vec![endpoint(&["10.0.0.3"], None)]);
    assert_eq!(
        handle_event(&mut router, &mut discovered, &mut slices, SliceEvent::Applied(first)),
        (0, 2)
    );
    assert_eq!(
        handle_event(&mut router, &mut discovered, &mut slices, SliceEvent::Applied(second)),
        (0, 1)
    );
    assert_eq!(
        handle_event(&mut router, &mut discovered, &mut slices, SliceEvent::ListingDone),
        (0, 0)
    );
    // The first slice shrinks; the second one's worker is not touched.
    let kept = discovered.id_of(&url("10.0.0.3")).unwrap();
    let shrunk = slice("one", None, vec![endpoint(&["10.0.0.2"], None)]);
    assert_eq!(
        handle_event(&mut router, &mut discovered, &mut slices, SliceEvent::Applied(shrunk)),
        (1, 0)
    );
    assert_eq!(discovered.id_of(&url("10.0.0.3")), Some(kept));
    assert_eq!(discovered.id_of(&url("10.0.0.1")), None);
    let gone = SliceEvent::Deleted("two".to_string());
    assert_eq!(handle_event(&mut router, &mut discovered, &mut slices, gone), (1, 0));
    assert!(router.registry().get(kept).is_none());
    assert_eq!(router.registry().all_workers().len(), 1);
    assert_eq!(listed(&slices.desired()), vec![url("10.0.0.2")]);
}

#[test]
fn a_new_watch_drops_nothing_before_its_listing_is_complete() {
    let mut router = router();
    let mut discovered = DiscoveredWorkers::default();
    let mut slices = SliceSet::new();
    let one = || slice("one", None, vec![endpoint(&["10.0.0.1"], None)]);
    let two = || slice("two", None, vec![endpoint(&["10.0.0.2"], None)]);
    let three = || slice("three", None, vec![endpoint(&["10.0.0.3"], None)]);
    for event in [
        SliceEvent::ListingStarted,
        SliceEvent::Applied(one()),
        SliceEvent::Applied(two()),
        SliceEvent::Applied(three()),
        SliceEvent::ListingDone,
    ] {
        handle_event(&mut router, &mut discovered, &mut slices, event);
    }
    assert_eq!(discovered.len(), 3);
    let ids: Vec<_> = ["10.0.0.1", "10.0.0.2"]
        .iter()
        .map(|ip| discovered.id_of(&url(ip)))
        .collect();
    // The connection is lost; meanwhile the third slice is deleted.
    for event in [
        SliceEvent::ListingStarted,
        SliceEvent::Applied(two()),
        SliceEvent::Applied(one()),
    ] {
        let counts = handle_event(&mut router, &mut discovered, &mut slices, event);
        assert_eq!(counts, (0, 0));
    }
    let done = SliceEvent::ListingDone;
    assert_eq!(handle_event(&mut router, &mut discovered, &mut slices, done), (1, 0));
    assert_eq!(discovered.id_of(&url("10.0.0.3")), None);
    assert_eq!(discovered.id_of(&url("10.0.0.1")), ids[0]);
    assert_eq!(discovered.id_of(&url("10.0.0.2")), ids[1]);
    assert!(router.registry().get(ids[0].unwrap()).is_some());
}

#[test]
fn counters_keep_up_with_ids_that_are_never_reused() {
    let mut router = router();
    for n in 0..40 {
        router.registry().register_worker(format!("http://static{n}"), Pool::Both);
    }
    let mut discovered = DiscoveredWorkers::default();
    let mut slices = SliceSet::new();
    let first = slice("one", None, vec![endpoint(&["10.0.0.1"], None)]);
    handle_event(&mut router, &mut discovered, &mut slices, SliceEvent::Applied(first));
    let id = discovered.id_of(&url("10.0.0.1")).unwrap();
    assert_eq!(id, 40);
    let guard = kvrouters::InflightGuard::acquire(router.inflight(), id);
    assert_eq!(router.inflight().count(id), 1);
    guard.release(router.inflight());
}

#[test]
fn nothing_desired_leaves_static_workers_alone() {
    let mut registry = WorkerRegistry::from_config(&[]);
    let fixed = registry.register_worker("http://fixed".to_string(), Pool::Both);
    let mut index = PrefixIndex::new();
    let mut discovered = DiscoveredWorkers::default();
    let two = urls(&[url("10.0.0.1"), url("10.0.0.2")]);
    reconcile(&mut registry, &mut index, &mut discovered, &two);
    registry.set_healthy(fixed, true);
    index.record(fixed, &[7u64][..]);
    assert_eq!(
        reconcile(&mut registry, &mut index, &mut discovered, &UrlSet::new()),
        (2, 0)
    );
    assert_eq!(discovered.len(), 0);
    assert_eq!(registry.all_workers().len(), 1);
    assert!(registry.is_healthy(fixed));
    assert_eq!(index.longest_match(fixed, &[7]), 1);
}

#[test]
fn discovered_workers_are_counted_in_flight() {
    let mut router = router();
    let mut discovered = DiscoveredWorkers::default();
    let mut slices = SliceSet::new();
    let first = slice("one", None, vec![endpoint(&["10.0.0.1"], None)]);
    handle_event(&mut router, &mut discovered, &mut slices, SliceEvent::Applied(first));
    let id = discovered.id_of(&url("10.0.0.1")).unwrap();
    let guard = kvrouters::InflightGuard::acquire(router.inflight(), id);
    assert_eq!(router.inflight().count(id), 1);
    guard.release(router.inflight());
    // Sixteen counters are spare.
    let spare = kvrouters::InflightGuard::acquire(router.inflight(), 16);
    assert_eq!(router.inflight().count(16), 1);
    spare.release(router.inflight());
    let beyond = kvrouters::InflightGuard::acquire(router.inflight(), 17);
    assert_eq!(router.inflight().count(17), 0);
    beyond.release(router.inflight());
}

#[test]
fn failed_watches_back_off() {
    let mut backoff = Backoff::new();
    let waits: Vec<u64> = (0..7).map(|_| backoff.failed()).collect();
    assert_eq!(waits, vec![1, 2, 4, 8, 16, 30, 30]);
    backoff.reset();
    assert_eq!(backoff.failed(), 1);
}

#[test]
fn the_watch_is_aimed_by_the_configuration() {
    assert_eq!(slice_selector("workers"), "kubernetes.io/service-name=workers");
    let mut config = DiscoveryConfig::default();
    assert!(!config.enabled);
    assert_eq!(config.namespace_or("default"), "default");
    config.namespace = Some("inference".to_string());
    assert_eq!(config.namespace_or("default"), "inference");
}
