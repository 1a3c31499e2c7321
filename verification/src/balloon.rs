//! Balloons, as the communication rules see them.
use vstd::prelude::*;

use crate::protocol::dv_dtn::bundle::Channel;
use crate::telemetry::Reading;

verus! {

/// One balloon: who it is, what its sensors read, and what has been published
/// about it. Its motion is physics and lives elsewhere.
#[derive(Debug, Clone, Copy)]
pub struct Balloon {
    pub id: u32,
    pub reading: Reading,
    /// Hops to a tower as this balloon believes.
    pub believed_hops: Option<u32>,
    /// Whether it can actually reach a tower.
    pub grounded: bool,
    /// How its most recent resolved payload got through.
    pub last_channel: Option<Channel>,
}

impl Balloon {
    pub fn new(id: u32, reading: Reading) -> (b: Balloon)
        ensures
            b == (Balloon { id, reading, believed_hops: None, grounded: false, last_channel: None }),
    {
        Balloon { id, reading, believed_hops: None, grounded: false, last_channel: None }
    }
}

} // verus!
