//! Engine-side observability: the hit rate an engine reports next to the one
//! the router predicts.

use vstd::prelude::*;

use crate::health::{is_success, probe_succeeded};
use crate::metrics::HitTotals;
use crate::text::{join_url, url_under};
use crate::worker::{Worker, WorkerRegistry};

verus! {

/// Where a worker's engine metrics are scraped; only healthy workers are.
pub fn scrape_url(registry: &WorkerRegistry, worker: &Worker) -> (url: Option<String>)
    ensures
        match url {
            Some(url) => registry@.is_healthy(worker.id) && url@ == url_under(
                worker.url@,
                "/metrics"@,
            ),
            None => !registry@.is_healthy(worker.id),
        },
{
    if registry.is_healthy(worker.id) {
        Some(join_url(worker.url.as_str(), "/metrics"))
    } else {
        None
    }
}

/// Which gauges a scrape of a worker updates.
#[derive(Debug, Clone, Copy, PartialEq, Eq)]
pub struct ScrapeReport {
    /// Whether the engine's hit rate is recorded.
    pub engine: bool,
    /// The totals whose predicted hit rate is recorded next to it, with the
    /// error of the prediction.
    pub prediction: Option<HitTotals>,
}

/// What is recorded of a worker after a scrape. `status` is absent where the
/// worker gave no answer, `rate_found` says whether its metrics hold a hit
/// rate, and `totals` are those of the requests routed to it, if any.
pub fn scrape_report(
    enabled: bool,
    status: Option<u16>,
    rate_found: bool,
    totals: Option<HitTotals>,
) -> (r: ScrapeReport)
    ensures
        r.engine == (enabled && (status matches Some(code) && is_success(code)) && rate_found),
        r.prediction == (if r.engine {
            totals
        } else {
            None
        }),
{
    let engine = enabled && probe_succeeded(status) && rate_found;
    ScrapeReport {
        engine,
        prediction: if engine {
            totals
        } else {
            None
        },
    }
}

} // verus!
