//! Configuration types of the router.

use vstd::prelude::*;

use crate::error::RouterError;

verus! {

/// Which inference phase a worker is provisioned for.
#[derive(Debug, Clone, Copy, PartialEq, Eq, Structural)]
pub enum Pool {
    /// Prefill-heavy workers: long prompts, big KV-cache writes.
    Prefill,
    /// Decode-heavy workers: token generation.
    Decode,
    /// Can serve both phases.
    Both,
}

impl Pool {
    /// The name a pool has in the configuration and in logs.
    pub open spec fn name(self) -> Seq<char> {
        match self {
            Pool::Prefill => "prefill"@,
            Pool::Decode => "decode"@,
            Pool::Both => "both"@,
        }
    }

    /// Render the pool's name.
    pub fn to_string(&self) -> (r: String)
        ensures
            r@ == self.name(),
            r@ == match self {
                Pool::Prefill => "prefill"@,
                Pool::Decode => "decode"@,
                Pool::Both => "both"@,
            },
    {
        match self {
            Pool::Prefill => "prefill".to_owned(),
            Pool::Decode => "decode".to_owned(),
            Pool::Both => "both".to_owned(),
        }
    }
}

/// How the router picks a worker for an incoming request.
#[derive(Debug, Clone, Copy, PartialEq, Eq, Structural)]
pub enum RoutingPolicy {
    /// Strictly cyclic among healthy workers.
    RoundRobin,
    /// The healthy worker with the best cache/load score.
    CacheAware,
    /// Prefill and decode on different pools, selected phase by phase.
    Disaggregated,
}

impl RoutingPolicy {
    /// The name a policy has in the configuration and in logs.
    pub open spec fn name(self) -> Seq<char> {
        match self {
            RoutingPolicy::RoundRobin => "round_robin"@,
            RoutingPolicy::CacheAware => "cache_aware"@,
            RoutingPolicy::Disaggregated => "disaggregated"@,
        }
    }

    /// Render the policy's name.
    pub fn to_string(&self) -> (r: String)
        ensures
            r@ == self.name(),
            r@ == match self {
                RoutingPolicy::RoundRobin => "round_robin"@,
                RoutingPolicy::CacheAware => "cache_aware"@,
                RoutingPolicy::Disaggregated => "disaggregated"@,
            },
    {
        match self {
            RoutingPolicy::RoundRobin => "round_robin".to_owned(),
            RoutingPolicy::CacheAware => "cache_aware".to_owned(),
            RoutingPolicy::Disaggregated => "disaggregated".to_owned(),
        }
    }
}

/// A single backend worker as declared in the configuration.
#[derive(Debug, PartialEq, Eq)]
pub struct WorkerConfig {
    /// Base URL of the worker.
    pub url: String,
    /// The phase it is provisioned for.
    pub pool: Pool,
}

impl Clone for WorkerConfig {
    fn clone(&self) -> (r: WorkerConfig)
        ensures
            r == *self,
    {
        WorkerConfig { url: self.url.clone(), pool: self.pool }
    }
}

/// In-cluster worker discovery.
#[derive(Debug, PartialEq, Eq)]
pub struct DiscoveryConfig {
    /// Whether the router watches the worker service.
    pub enabled: bool,
    /// Namespace of the service; the client's own where absent.
    pub namespace: Option<String>,
    /// Name of the headless worker service.
    pub service: String,
}

impl Clone for DiscoveryConfig {
    fn clone(&self) -> (r: DiscoveryConfig)
        ensures
            r == *self,
    {
        let namespace = match &self.namespace {
            Some(namespace) => Some(namespace.clone()),
            None => None,
        };
        DiscoveryConfig { enabled: self.enabled, namespace, service: self.service.clone() }
    }
}

impl Default for DiscoveryConfig {
    /// Discovery is off unless the configuration turns it on.
    fn default() -> (r: DiscoveryConfig)
        ensures
            !r.enabled,
            r.namespace is None,
            r.service@ == Seq::<char>::empty(),
    {
        DiscoveryConfig { enabled: false, namespace: None, service: String::new() }
    }
}

/// Top-level router configuration.
///
/// The weights of the cache and load terms are not among the fields: they
/// belong to the scoring function that a router is built with.
#[derive(Debug, PartialEq, Eq)]
pub struct RouterConfig {
    /// Statically configured workers.
    pub workers: Vec<WorkerConfig>,
    /// How a worker is picked.
    pub routing_policy: RoutingPolicy,
    /// Seconds between two rounds of health probes.
    pub health_check_interval_secs: u64,
    /// Characters per prompt block.
    pub prompt_block_chars: usize,
    /// Seconds an untouched index entry lives.
    pub prefix_index_ttl_secs: u64,
    /// Upper bound on the size of the prefix index.
    pub prefix_index_max_entries: usize,
    /// Simulated cost of one KV transfer.
    pub kv_transfer_cost_ms: u64,
    /// Whether engine metrics are scraped.
    pub metrics_scrape: bool,
    /// Seconds between two scrapes.
    pub engine_metrics_interval_secs: u64,
    /// Name of the engine's cache hit rate series.
    pub engine_cache_hit_metric: String,
    /// Worker discovery.
    pub discovery: DiscoveryConfig,
}

impl Clone for RouterConfig {
    fn clone(&self) -> (r: RouterConfig)
        ensures
            r.workers@ == self.workers@,
            r == (RouterConfig { workers: r.workers, ..*self }),
    {
        let mut workers: Vec<WorkerConfig> = Vec::new();
        while workers.len() < self.workers.len()
            invariant
                workers@.len() <= self.workers@.len(),
                workers@ == self.workers@.take(workers@.len() as int),
            decreases self.workers@.len() - workers@.len(),
        {
            workers.push(self.workers[workers.len()].clone());
            assert(workers@ =~= self.workers@.take(workers@.len() as int));
        }
        assert(workers@ =~= self.workers@);
        RouterConfig {
            workers,
            routing_policy: self.routing_policy,
            health_check_interval_secs: self.health_check_interval_secs,
            prompt_block_chars: self.prompt_block_chars,
            prefix_index_ttl_secs: self.prefix_index_ttl_secs,
            prefix_index_max_entries: self.prefix_index_max_entries,
            kv_transfer_cost_ms: self.kv_transfer_cost_ms,
            metrics_scrape: self.metrics_scrape,
            engine_metrics_interval_secs: self.engine_metrics_interval_secs,
            engine_cache_hit_metric: self.engine_cache_hit_metric.clone(),
            discovery: self.discovery.clone(),
        }
    }
}

/// Seconds between health probe rounds where the configuration names none.
pub fn default_health_check_interval_secs() -> (secs: u64)
    ensures
        secs == 5,
{
    5
}

/// Characters per prompt block where the configuration names none.
pub fn default_prompt_block_chars() -> (chars: usize)
    ensures
        chars == 512,
{
    512
}

/// Seconds an index entry lives where the configuration names none.
pub fn default_prefix_index_ttl_secs() -> (secs: u64)
    ensures
        secs == 300,
{
    300
}

impl RouterConfig {
    /// Reject a configuration that lists no workers; any other passes
    /// unchanged.
    pub fn checked(self) -> (r: Result<RouterConfig, RouterError>)
        ensures
            self.workers@.len() > 0 ==> r == Ok::<RouterConfig, RouterError>(self),
            self.workers@.len() == 0 ==> (r matches Err(RouterError::Config(message)) && message@
                == "`workers` must contain at least one entry"@),
    {
        if self.workers.is_empty() {
            Err(RouterError::Config("`workers` must contain at least one entry".to_owned()))
        } else {
            Ok(self)
        }
    }

    /// Seconds the health poller waits between rounds: never less than one.
    pub fn health_interval_secs(&self) -> (secs: u64)
        ensures
            secs == if self.health_check_interval_secs == 0 {
                1
            } else {
                self.health_check_interval_secs
            },
    {
        at_least_one(self.health_check_interval_secs)
    }

    /// Seconds the engine metrics scraper waits between rounds: never less
    /// than one.
    pub fn scrape_interval_secs(&self) -> (secs: u64)
        ensures
            secs == if self.engine_metrics_interval_secs == 0 {
                1
            } else {
                self.engine_metrics_interval_secs
            },
    {
        at_least_one(self.engine_metrics_interval_secs)
    }

    /// Seconds between two eviction sweeps: a third of the TTL, kept between
    /// one second and one minute.
    pub fn eviction_interval_secs(&self) -> (secs: u64)
        ensures
            1 <= secs <= 60,
            3 <= self.prefix_index_ttl_secs < 183 ==> secs == self.prefix_index_ttl_secs / 3,
            self.prefix_index_ttl_secs < 3 ==> secs == 1,
            self.prefix_index_ttl_secs >= 180 ==> secs == 60,
    {
        let third = self.prefix_index_ttl_secs / 3;
        if third < 1 {
            1
        } else if third > 60 {
            60
        } else {
            third
        }
    }
}

fn at_least_one(n: u64) -> (r: u64)
    ensures
        r == if n == 0 {
            1
        } else {
            n
        },
{
    if n == 0 {
        1
    } else {
        n
    }
}

} // verus!
