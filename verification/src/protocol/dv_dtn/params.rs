//! Tunables of the dv-dtn protocol.
use vstd::prelude::*;

verus! {

/// When route discovery happens.
#[derive(Debug, Clone, Copy, PartialEq, Eq, Structural)]
pub enum Discovery {
    /// Towers flood beacons continuously.
    Proactive,
    /// A balloon asks only when it has a bundle and no route.
    Reactive,
    /// Balloons gossip who they can hear, and each computes its own route.
    LinkState,
}

impl Default for Discovery {
    fn default() -> (r: Discovery)
        ensures
            r == Discovery::Proactive,
    {
        Discovery::Proactive
    }
}

/// Who is allowed to answer a route request.
#[derive(Debug, Clone, Copy, PartialEq, Eq, Structural)]
pub enum ReplyPolicy {
    /// Any node that already holds a live route.
    Intermediate,
    /// Only nodes that can hear a tower directly.
    TowerAdjacent,
}

impl Default for ReplyPolicy {
    fn default() -> (r: ReplyPolicy)
        ensures
            r == ReplyPolicy::Intermediate,
    {
        ReplyPolicy::Intermediate
    }
}

/// Whether a route reply teaches only its addressee, or everyone in earshot.
#[derive(Debug, Clone, Copy, PartialEq, Eq, Structural)]
pub enum ReplyOverhearing {
    Off,
    On,
}

impl Default for ReplyOverhearing {
    fn default() -> (r: ReplyOverhearing)
        ensures
            r == ReplyOverhearing::Off,
    {
        ReplyOverhearing::Off
    }
}

/// How far a route request may travel.
#[derive(Debug, Clone, Copy, PartialEq, Eq, Structural)]
pub enum RingSearch {
    /// As far as the hop limit, at once.
    Max,
    /// One hop first, then twice as far each time an attempt goes unanswered.
    Expanding,
}

impl Default for RingSearch {
    fn default() -> (r: RingSearch)
        ensures
            r == RingSearch::Max,
    {
        RingSearch::Max
    }
}

/// Which route a balloon prefers when two offers compete.
#[derive(Debug, Clone, Copy, PartialEq, Eq, Structural)]
pub enum Metric {
    /// Freshness first, hop count only as a tiebreak within one wave.
    FreshestFirst,
    /// Hop count first, freshness only as a tiebreak.
    NearestFirst,
}

impl Default for Metric {
    fn default() -> (r: Metric)
        ensures
            r == Metric::FreshestFirst,
    {
        Metric::FreshestFirst
    }
}

/// How many bundles ride one transmission, per kind of link.
#[derive(Debug, Clone, Copy, PartialEq, Eq, Structural)]
pub struct BatchPolicy {
    /// Bundles per balloon-to-balloon hop.
    pub mesh_hop: usize,
    /// Bundles per tower contact.
    pub tower_contact: usize,
}

impl Default for BatchPolicy {
    fn default() -> (r: BatchPolicy)
        ensures
            r == (BatchPolicy { mesh_hop: 1, tower_contact: 4 }),
    {
        BatchPolicy { mesh_hop: 1, tower_contact: 4 }
    }
}

/// How a delivery gets acknowledged back to its origin.
#[derive(Debug, Clone, Copy, PartialEq, Eq, Structural)]
pub enum AckPolicy {
    /// A receipt is source-routed back along the bundle's recorded path.
    SourceRouted,
    /// Towers announce recent deliveries inside the beacons they send anyway.
    Digest,
}

impl Default for AckPolicy {
    fn default() -> (r: AckPolicy)
        ensures
            r == AckPolicy::SourceRouted,
    {
        AckPolicy::SourceRouted
    }
}

/// Which held bundle a balloon transmits when its slot comes up.
#[derive(Debug, Clone, Copy, PartialEq, Eq, Structural)]
pub enum QueueDiscipline {
    /// Oldest first.
    Fifo,
    /// Newest first.
    Lifo,
}

impl Default for QueueDiscipline {
    fn default() -> (r: QueueDiscipline)
        ensures
            r == QueueDiscipline::Fifo,
    {
        QueueDiscipline::Fifo
    }
}

#[derive(Debug, Clone, Copy, PartialEq, Eq, Structural)]
pub struct DvDtnParams {
    /// Nominal gap between a node's beacon transmissions, in comms rounds.
    pub beacon_interval_rounds: u64,
    /// Jitter on that gap, either way.
    pub beacon_jitter_rounds: u64,
    /// Maximum age of the news, measured from when the tower emitted the wave.
    pub belief_max_age_rounds: u64,
    /// Stop rebroadcasting past this depth.
    pub beacon_max_hops: u32,
    /// How a balloon chooses between competing route offers.
    pub metric: Metric,
    /// Whether routes are maintained continuously or fetched on demand.
    pub discovery: Discovery,
    /// Who may answer a route request, under reactive discovery.
    pub reply_policy: ReplyPolicy,
    /// Who learns from a route reply, under reactive discovery.
    pub reply_overhearing: ReplyOverhearing,
    /// How far a route request travels, under reactive discovery.
    pub ring_search: RingSearch,
    /// Observations per transmission, under link-state discovery.
    pub lsa_per_transmission: usize,
    /// How often a balloon originates a telemetry bundle.
    pub bundle_interval_rounds: u64,
    /// How long a bundle, and the receipt for it, may go unresolved.
    pub bundle_max_age_rounds: u64,
    /// How many bundles a balloon may hold at once.
    pub relay_queue_capacity: usize,
    /// How many bundles ride one transmission.
    pub batch: BatchPolicy,
    /// Hop budget: a bundle whose recorded path is this long is dropped.
    pub bundle_max_hops: usize,
    /// How many acks a balloon may hold at once.
    pub ack_queue_capacity: usize,
    /// Which held bundle moves when a slot comes up.
    pub queue_discipline: QueueDiscipline,
    /// How a delivery is acknowledged back to its origin.
    pub ack_policy: AckPolicy,
    /// Deliveries a tower announces per beacon, under the digest policy.
    pub ack_digest_entries: usize,
    /// How many telemetry records a balloon retains.
    pub comms_log_capacity: usize,
}

/// The parameters a protocol runs with unless told otherwise.
pub open spec fn default_params() -> DvDtnParams {
    DvDtnParams {
        beacon_interval_rounds: 5,
        beacon_jitter_rounds: 1,
        belief_max_age_rounds: 60,
        beacon_max_hops: 20,
        metric: Metric::FreshestFirst,
        discovery: Discovery::Proactive,
        reply_policy: ReplyPolicy::Intermediate,
        reply_overhearing: ReplyOverhearing::Off,
        ring_search: RingSearch::Max,
        lsa_per_transmission: 4,
        bundle_interval_rounds: 200,
        bundle_max_age_rounds: 150,
        relay_queue_capacity: 8,
        batch: BatchPolicy { mesh_hop: 1, tower_contact: 4 },
        bundle_max_hops: 20,
        ack_queue_capacity: 4,
        queue_discipline: QueueDiscipline::Fifo,
        ack_policy: AckPolicy::SourceRouted,
        ack_digest_entries: 16,
        comms_log_capacity: 32,
    }
}

impl Default for DvDtnParams {
    fn default() -> (r: DvDtnParams)
        ensures
            r == default_params(),
    {
        DvDtnParams {
            beacon_interval_rounds: 5,
            beacon_jitter_rounds: 1,
            belief_max_age_rounds: 60,
            beacon_max_hops: 20,
            metric: Metric::FreshestFirst,
            discovery: Discovery::Proactive,
            reply_policy: ReplyPolicy::Intermediate,
            reply_overhearing: ReplyOverhearing::Off,
            ring_search: RingSearch::Max,
            lsa_per_transmission: 4,
            bundle_interval_rounds: 200,
            bundle_max_age_rounds: 150,
            relay_queue_capacity: 8,
            batch: BatchPolicy { mesh_hop: 1, tower_contact: 4 },
            bundle_max_hops: 20,
            ack_queue_capacity: 4,
            queue_discipline: QueueDiscipline::Fifo,
            ack_policy: AckPolicy::SourceRouted,
            ack_digest_entries: 16,
            comms_log_capacity: 32,
        }
    }
}

} // verus!
