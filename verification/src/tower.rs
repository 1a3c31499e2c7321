//! Ground towers.
use vstd::prelude::*;

verus! {

/// A ground station. Its place and height are the bit patterns of the
/// floating-point values that the geometry code works on; nothing here reads
/// them.
#[derive(Debug, Clone, Copy)]
pub struct Tower {
    pub id: u32,
    pub lon: u64,
    pub lat: u64,
    pub height_m: u64,
    /// Next comms round this tower emits under the fixed beacon protocol.
    pub next_beacon_round: u64,
    /// Wave counter under the fixed beacon protocol.
    pub beacon_epoch: u64,
}

/// A tower that has done nothing yet.
pub open spec fn fresh(id: u32, lon: u64, lat: u64, height_m: u64) -> Tower {
    Tower { id, lon, lat, height_m, next_beacon_round: 0, beacon_epoch: 0 }
}

impl Tower {
    pub fn new(id: u32, lon: u64, lat: u64, height_m: u64) -> (t: Tower)
        ensures
            t == fresh(id, lon, lat, height_m),
    {
        Tower { id, lon, lat, height_m, next_beacon_round: 0, beacon_epoch: 0 }
    }
}

} // verus!
