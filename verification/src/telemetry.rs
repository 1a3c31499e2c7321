//! What a balloon measured: the payload of a bundle.
use std::collections::VecDeque;

use vstd::prelude::*;

use crate::balloon::Balloon;
use crate::protocol::dv_dtn::bundle::{AckState, Channel};

verus! {

/// A position and the atmosphere there, as the bit patterns of the
/// floating-point values that the physics code computed. The library carries
/// readings and never computes on them.
#[derive(Debug, Clone, Copy, PartialEq, Eq, Structural)]
pub struct Reading {
    pub lon: u64,
    pub lat: u64,
    pub alt_m: u64,
    pub temperature_k: u64,
    pub pressure_hpa: u64,
    pub humidity_pct: u64,
}

/// One telemetry sample from one balloon at one moment.
#[derive(Debug, Clone, Copy, PartialEq, Eq, Structural)]
pub struct TelemetryRecord {
    pub origin_id: u32,
    /// Shared with the bundle carrying this record: they are the same event.
    pub seq: u64,
    pub created_at_round: u64,
    pub reading: Reading,
    // The outcome, filled in once this record's bundle resolves.
    pub channel: Option<Channel>,
    pub tower_id: Option<u32>,
    pub ack_state: AckState,
    pub hops: Option<u32>,
    pub ack_hops_completed: Option<u32>,
}

/// A record as sampled: the balloon's reading, no outcome yet.
pub open spec fn fresh_record(
    id: u32,
    reading: Reading,
    seq: u64,
    round: u64,
) -> TelemetryRecord {
    TelemetryRecord {
        origin_id: id,
        seq,
        created_at_round: round,
        reading,
        channel: None,
        tower_id: None,
        ack_state: AckState::Pending,
        hops: None,
        ack_hops_completed: None,
    }
}

impl TelemetryRecord {
    /// Sample wherever this balloon currently is. The sequence number belongs
    /// to the protocol, not to the balloon's physical state, so it is passed.
    pub fn sample(balloon: &Balloon, seq: u64, round: u64) -> (r: TelemetryRecord)
        ensures
            r == fresh_record(balloon.id, balloon.reading, seq, round),
    {
        TelemetryRecord {
            origin_id: balloon.id,
            seq,
            created_at_round: round,
            reading: balloon.reading,
            channel: None,
            tower_id: None,
            ack_state: AckState::Pending,
            hops: None,
            ack_hops_completed: None,
        }
    }
}

/// A log of records, newest first.
pub fn newest_first(log: &VecDeque<TelemetryRecord>) -> (r: Vec<TelemetryRecord>)
    ensures
        r@ == log@.reverse(),
{
    let mut r: Vec<TelemetryRecord> = Vec::new();
    let mut k: usize = log.len();
    while k > 0
        invariant
            k <= log@.len(),
            r@.len() == log@.len() - k,
            forall|j: int| 0 <= j < r@.len() ==> #[trigger] r@[j] == log@[log@.len() - 1 - j],
        decreases k,
    {
        k = k - 1;
        r.push(log[k]);
    }
    assert(r@ =~= log@.reverse());
    r
}

} // verus!
