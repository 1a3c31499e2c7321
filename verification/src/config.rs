//! Constants of the simulation that the library's rules depend on.
use vstd::prelude::*;

verus! {

/// Where wind fields are served.
pub const WIND_API_URL: &'static str = "http://127.0.0.1:8000/api/wind-levels";

/// Links are recomputed every so many ticks.
pub const LINK_UPDATE_EVERY_N_TICKS: u32 = 3;

/// The comms protocol steps on its own divisor of the tick clock: one comms
/// round is this many ticks.
pub const COMMS_EVERY_N_TICKS: u64 = 8;

pub const DEFAULT_NUM_BALLOONS: u32 = 400;

/// The full pool that is always simulated. The visible count only says how
/// many of these take part in connectivity detection.
pub const BALLOON_POOL_SIZE: u32 = 2000;

/// Wall-clock milliseconds per tick: twenty ticks a second.
pub const TICK_INTERVAL_MS: u64 = 50;

// The fixed protocol of `beacon` and `bundle`, in comms rounds.

/// Nominal gap between a node's beacon transmissions.
pub const BEACON_INTERVAL_ROUNDS: u64 = 5;

/// Jitter on that gap, either way.
pub const BEACON_JITTER_ROUNDS: u64 = 1;

/// Maximum age of a belief, measured from when the tower emitted the wave.
pub const BELIEF_MAX_AGE_ROUNDS: u64 = 60;

/// A belief this many hops deep is not repeated.
pub const BEACON_MAX_HOPS: u32 = 20;

/// How often a balloon originates a bundle.
pub const BUNDLE_INTERVAL_ROUNDS: u64 = 200;

/// How long a bundle may go unresolved.
pub const BUNDLE_MAX_AGE_ROUNDS: u64 = 150;

/// Hop budget: a bundle whose recorded path is this long goes no further.
pub const BUNDLE_MAX_HOPS: usize = 20;

} // verus!
