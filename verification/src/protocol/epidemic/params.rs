//! Tunables of binary spray-and-wait.
use vstd::prelude::*;

verus! {

#[derive(Debug, Clone, Copy, PartialEq, Eq, Structural)]
pub struct EpidemicParams {
    /// Copies a bundle starts with.
    pub copies: u32,
    /// Nominal gap between a node's transmissions, in comms rounds.
    pub wake_interval_rounds: u64,
    /// Jitter on that gap, either way.
    pub wake_jitter_rounds: u64,
    /// How often a balloon originates telemetry.
    pub bundle_interval_rounds: u64,
    /// How long a copy lives before it is dropped.
    pub bundle_max_age_rounds: u64,
    /// Copies a balloon may hold at once.
    pub relay_queue_capacity: usize,
    /// Copies handed over in a single tower contact.
    pub tower_contact: usize,
    /// Retained telemetry records per balloon.
    pub comms_log_capacity: usize,
}

/// The parameters a protocol runs with unless told otherwise.
pub open spec fn default_params() -> EpidemicParams {
    EpidemicParams {
        copies: 8,
        wake_interval_rounds: 5,
        wake_jitter_rounds: 1,
        bundle_interval_rounds: 200,
        bundle_max_age_rounds: 150,
        relay_queue_capacity: 8,
        tower_contact: 4,
        comms_log_capacity: 32,
    }
}

impl Default for EpidemicParams {
    fn default() -> (r: EpidemicParams)
        ensures
            r == default_params(),
    {
        EpidemicParams {
            copies: 8,
            wake_interval_rounds: 5,
            wake_jitter_rounds: 1,
            bundle_interval_rounds: 200,
            bundle_max_age_rounds: 150,
            relay_queue_capacity: 8,
            tower_contact: 4,
            comms_log_capacity: 32,
        }
    }
}

} // verus!
