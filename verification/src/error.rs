//! The error type shared by the whole crate.

use vstd::prelude::*;

verus! {

/// Errors produced by the routing core.
#[derive(Debug)]
pub enum RouterError {
    /// No worker is currently marked healthy.
    NoHealthyWorkers { policy: String },
    /// No worker of the requested pool is currently marked healthy.
    NoHealthyWorkersInPool { pool: String, policy: String },
    /// A single-phase selection was asked of the disaggregated policy.
    DisaggregatedRequiresTwoPhase,
    /// The selected routing policy exists but is not implemented.
    PolicyNotImplemented(String),
    /// Configuration could not be loaded or is invalid.
    Config(String),
}

impl RouterError {
    /// The message a reader of logs sees.
    pub open spec fn message(self) -> Seq<char> {
        match self {
            RouterError::NoHealthyWorkers { policy } => "no healthy workers available (policy: "@
                + policy@ + ")"@,
            RouterError::NoHealthyWorkersInPool { pool, policy } =>
                "no healthy workers available in pool `"@ + pool@ + "` (policy: "@ + policy@ + ")"@,
            RouterError::DisaggregatedRequiresTwoPhase =>
                "the disaggregated policy routes in two phases"@,
            RouterError::PolicyNotImplemented(policy) => "routing policy `"@ + policy@
                + "` is not implemented yet"@,
            RouterError::Config(message) => "invalid configuration: "@ + message@,
        }
    }

    /// Render the error.
    pub fn to_string(&self) -> (r: String)
        ensures
            r@ == self.message(),
            match self {
                RouterError::NoHealthyWorkers { policy } => r@
                    == "no healthy workers available (policy: "@ + policy@ + ")"@,
                RouterError::NoHealthyWorkersInPool { pool, policy } => r@
                    == "no healthy workers available in pool `"@ + pool@ + "` (policy: "@ + policy@
                    + ")"@,
                RouterError::DisaggregatedRequiresTwoPhase => r@
                    == "the disaggregated policy routes in two phases"@,
                RouterError::PolicyNotImplemented(policy) => r@ == "routing policy `"@ + policy@
                    + "` is not implemented yet"@,
                RouterError::Config(message) => r@ == "invalid configuration: "@ + message@,
            },
    {
        let mut r = String::new();
        match self {
            RouterError::NoHealthyWorkers { policy } => {
                r.append("no healthy workers available (policy: ");
                r.append(policy.as_str());
                r.append(")");
            },
            RouterError::NoHealthyWorkersInPool { pool, policy } => {
                r.append("no healthy workers available in pool `");
                r.append(pool.as_str());
                r.append("` (policy: ");
                r.append(policy.as_str());
                r.append(")");
            },
            RouterError::DisaggregatedRequiresTwoPhase => {
                r.append("the disaggregated policy routes in two phases");
            },
            RouterError::PolicyNotImplemented(policy) => {
                r.append("routing policy `");
                r.append(policy.as_str());
                r.append("` is not implemented yet");
            },
            RouterError::Config(message) => {
                r.append("invalid configuration: ");
                r.append(message.as_str());
            },
        }
        assert(r@ =~= self.message());
        r
    }
}

} // verus!
