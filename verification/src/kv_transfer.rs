//! Moving KV-cache blocks between workers.
//!
//! In the disaggregated flow the prefill worker owns the prompt's KV blocks
//! after prefill; before the decode phase can run on a decode-pool worker, the
//! blocks must move.

use std::time::Duration;

use vstd::prelude::*;

use crate::worker::WorkerId;

verus! {

/// A move of KV blocks of one prompt.
#[derive(Debug, Clone, Copy, PartialEq, Eq, Structural)]
pub struct Transfer {
    /// The worker that holds the blocks.
    pub from: WorkerId,
    /// The worker that needs them.
    pub to: WorkerId,
    /// How many blocks move.
    pub blocks: usize,
}

/// Simulated connector: a transfer takes a fixed time, whatever moves. It makes
/// the disaggregated flow runnable without any real fabric.
#[derive(Debug)]
pub struct MockKvTransfer {
    cost: Duration,
}

impl View for MockKvTransfer {
    type V = Duration;

    closed spec fn view(&self) -> Duration {
        self.cost
    }
}

impl Clone for MockKvTransfer {
    fn clone(&self) -> (r: MockKvTransfer)
        ensures
            r@ == self@,
    {
        MockKvTransfer { cost: self.cost }
    }
}

impl MockKvTransfer {
    /// A mock transfer that takes `cost` to simulate fabric latency.
    pub fn new(cost: Duration) -> (r: MockKvTransfer)
        ensures
            r@ == cost,
    {
        MockKvTransfer { cost }
    }

    /// How long a transfer takes.
    pub fn cost(&self) -> (r: Duration)
        ensures
            r == self@,
    {
        self.cost
    }
}

} // verus!
