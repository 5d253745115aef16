//! KV-cache-aware inference routing.
//!
//! The crate decides which inference worker serves a chat request: it keeps a
//! registry of workers and their health, an index of the prompt blocks each
//! worker is believed to cache, and a count of requests in flight, and scores
//! workers from them. Around that core stand the decisions of the HTTP
//! service: the proxied stream, worker discovery, health probing and metrics.
//!
//! Everything here is a state transition or a pure function on plain values.
//! Sockets, timers, logging and the metrics recorder belong to the program
//! that drives it.

pub mod affinity;
pub mod api;
pub mod beliefs;
pub mod candidate;
pub mod chat;
mod collections;
pub mod config;
pub mod disaggregated;
pub mod discovery;
pub mod endpoints;
pub mod engine_metrics;
pub mod error;
pub mod hashing;
pub mod health;
pub mod inflight;
pub mod kv_transfer;
pub mod membership;
pub mod metrics;
pub mod numbers;
pub mod prefix;
pub mod prometheus_text;
pub mod proxy;
pub mod request;
pub mod router;
pub mod score;
mod sorting;
pub mod string_map;
pub mod text;
pub mod urls;
pub mod worker;

pub use candidate::Candidate;
pub use config::{DiscoveryConfig, Pool, RouterConfig, RoutingPolicy, WorkerConfig};
pub use error::RouterError;
pub use hashing::chain_hash;
pub use inflight::{InflightGuard, InflightTracker};
pub use kv_transfer::MockKvTransfer;
pub use prefix::{EvictionStats, PrefixIndex};
pub use request::{ChatCompletionRequest, ChatMessage};
pub use router::{RouteDecision, Router};
pub use score::Score;
pub use worker::{Worker, WorkerId, WorkerRegistry, WorkerState};
