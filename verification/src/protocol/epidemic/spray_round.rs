//! Spray-and-wait as a function from one round's state to the next.
use vstd::prelude::*;

use crate::balloon::Balloon;
use crate::link_detection::NodeKey;
use crate::mesh_adjacency::Topology;
use crate::protocol::dv_dtn::beacon;
use crate::protocol::dv_dtn::bundle;
use crate::protocol::dv_dtn::bundle::{AckState, Channel, OutstandingModel, ResolvedModel};
use crate::protocol::dv_dtn::bundle_round;
use crate::protocol::{CommsEvent, EventKind};
use crate::telemetry;
use crate::telemetry::TelemetryRecord;

use super::params::EpidemicParams;
use super::stats::EpidemicStats;
use super::Copy_;

verus! {

/// The mathematical content of an `EpiNode`.
#[verifier::ext_equal]
pub struct EpiModel {
    pub held: Seq<Copy_>,
    pub next_wake_round: u64,
    pub next_bundle_round: u64,
    pub bundle_seq: u64,
    pub log: Seq<TelemetryRecord>,
    pub outstanding: Option<OutstandingModel>,
    pub last_resolved: Option<ResolvedModel>,
    pub last_channel: Option<Channel>,
    /// The records that have an outcome.
    pub settled: Seq<u64>,
}

/// What the protocol works on over a round.
#[verifier::ext_equal]
pub struct SprayState {
    pub nodes: Seq<EpiModel>,
    pub stats: EpidemicStats,
    /// What each first arrival took, in the order of arrival.
    pub latencies: Seq<u64>,
    pub events: Seq<CommsEvent>,
}

pub open spec fn copy_age(c: Copy_, round: u64) -> int {
    bundle::rounds_since(c.created_at_round, round)
}

// ---------------------------------------------------------------------------
// Outcomes
// ---------------------------------------------------------------------------

/// Whether one of a node's records has an outcome.
pub open spec fn already(n: EpiModel, seq: u64) -> bool {
    n.settled.contains(seq)
}

/// A node with the outcome of one of its records noted. The origin is not
/// told: what it waits for is left as it is.
pub open spec fn noted(n: EpiModel, seq: u64, channel: Channel) -> EpiModel {
    EpiModel {
        last_channel: Some(channel),
        last_resolved: Some(
            ResolvedModel {
                seq,
                state: AckState::Pending,
                channel: Some(channel),
                tower_id: None,
                path: Seq::empty(),
                ack_hops_completed: None,
            },
        ),
        log: match bundle_round::record_place(n.log, 0, seq) {
            Some(j) => n.log.update(
                j,
                TelemetryRecord { channel: Some(channel), ..n.log[j] },
            ),
            None => n.log,
        },
        settled: n.settled.push(seq),
        ..n
    }
}

/// Whether an outcome is the first for its record.
pub open spec fn is_first(nodes: Seq<EpiModel>, origin_id: u32, seq: u64) -> bool {
    origin_id < nodes.len() && !already(nodes[origin_id as int], seq)
}

pub open spec fn with_outcome(
    nodes: Seq<EpiModel>,
    origin_id: u32,
    seq: u64,
    channel: Channel,
) -> Seq<EpiModel> {
    if is_first(nodes, origin_id, seq) {
        nodes.update(origin_id as int, noted(nodes[origin_id as int], seq, channel))
    } else {
        nodes
    }
}

// ---------------------------------------------------------------------------
// Running out of time
// ---------------------------------------------------------------------------

pub open spec fn live_copies(held: Seq<Copy_>, k: nat, round: u64, max_age: u64) -> Seq<Copy_>
    decreases k,
{
    if k == 0 {
        Seq::empty()
    } else {
        let before = live_copies(held, (k - 1) as nat, round, max_age);
        if copy_age(held[k - 1], round) <= max_age {
            before.push(held[k - 1])
        } else {
            before
        }
    }
}

pub open spec fn late_copies(held: Seq<Copy_>, k: nat, round: u64, max_age: u64) -> Seq<Copy_>
    decreases k,
{
    if k == 0 {
        Seq::empty()
    } else {
        let before = late_copies(held, (k - 1) as nat, round, max_age);
        if copy_age(held[k - 1], round) > max_age {
            before.push(held[k - 1])
        } else {
            before
        }
    }
}

/// A copy has aged out. Its record went to satellite if this is its first
/// outcome.
pub open spec fn copy_expired(s: SprayState, c: Copy_) -> SprayState {
    let first = is_first(s.nodes, c.origin_id, c.seq);
    SprayState {
        nodes: with_outcome(s.nodes, c.origin_id, c.seq, Channel::Satellite),
        stats: EpidemicStats {
            copies_expired: (s.stats.copies_expired + 1) as u64,
            satellite: if first {
                (s.stats.satellite + 1) as u64
            } else {
                s.stats.satellite
            },
            ..s.stats
        },
        ..s
    }
}

pub open spec fn copies_expired(s: SprayState, late: Seq<Copy_>, k: nat) -> SprayState
    decreases k,
{
    if k == 0 {
        s
    } else {
        copy_expired(copies_expired(s, late, (k - 1) as nat), late[k - 1])
    }
}

/// The late copies of node `i` leave.
pub open spec fn node_expired(s: SprayState, i: int, round: u64, max_age: u64) -> SprayState {
    let held = s.nodes[i].held;
    let late = late_copies(held, held.len(), round, max_age);
    copies_expired(
        SprayState {
            nodes: s.nodes.update(
                i,
                EpiModel {
                    held: live_copies(held, held.len(), round, max_age),
                    ..s.nodes[i]
                },
            ),
            ..s
        },
        late,
        late.len(),
    )
}

pub open spec fn nodes_expired(s: SprayState, round: u64, max_age: u64, k: nat) -> SprayState
    decreases k,
{
    if k == 0 {
        s
    } else {
        node_expired(nodes_expired(s, round, max_age, (k - 1) as nat), k - 1, round, max_age)
    }
}

/// A node that stops waiting once it has waited too long.
pub open spec fn given_up(n: EpiModel, round: u64, max_age: u64) -> EpiModel {
    match n.outstanding {
        Some(o) => if o.state == AckState::Pending && bundle::rounds_since(
            o.created_at_round,
            round,
        ) > max_age {
            EpiModel {
                outstanding: Some(OutstandingModel { state: AckState::TimedOut, ..o }),
                ..n
            }
        } else {
            n
        },
        None => n,
    }
}

// ---------------------------------------------------------------------------
// The duty cycle
// ---------------------------------------------------------------------------

pub open spec fn is_up(n: EpiModel, round: u64) -> bool {
    round >= n.next_wake_round
}

pub open spec fn rescheduled(n: EpiModel, params: EpidemicParams, round: u64, draw: u64) -> EpiModel {
    if is_up(n, round) {
        EpiModel {
            next_wake_round: beacon::slot_after(
                round,
                params.wake_interval_rounds,
                params.wake_jitter_rounds,
                draw,
            ),
            ..n
        }
    } else {
        n
    }
}

/// The first `m` nodes give up waiting where they must, and are rescheduled
/// where their slot has come.
pub open spec fn woken(
    s: SprayState,
    params: EpidemicParams,
    round: u64,
    draws: Seq<u64>,
    m: nat,
) -> SprayState {
    SprayState {
        nodes: Seq::new(
            s.nodes.len(),
            |i: int|
                if i < m {
                    rescheduled(
                        given_up(s.nodes[i], round, params.bundle_max_age_rounds),
                        params,
                        round,
                        draws[i],
                    )
                } else {
                    s.nodes[i]
                },
        ),
        ..s
    }
}

/// Which of the first `m` nodes are awake.
pub open spec fn wake_set(nodes: Seq<EpiModel>, m: nat, round: u64) -> Seq<bool> {
    Seq::new(m, |i: int| is_up(nodes[i], round))
}

// ---------------------------------------------------------------------------
// Delivery
// ---------------------------------------------------------------------------

/// Node `i` hands the first copy it holds to a tower.
pub open spec fn copy_landed(s: SprayState, i: int, round: u64) -> SprayState {
    let held = s.nodes[i].held;
    let c = held[0];
    let taken = s.nodes.update(
        i,
        EpiModel { held: held.subrange(1, held.len() as int), ..s.nodes[i] },
    );
    SprayState {
        nodes: with_outcome(taken, c.origin_id, c.seq, Channel::Radio),
        stats: if is_first(taken, c.origin_id, c.seq) {
            EpidemicStats {
                delivered: (s.stats.delivered + 1) as u64,
                delivery_latency: s.stats.delivery_latency.with(copy_age(c, round) as u64),
                ..s.stats
            }
        } else {
            EpidemicStats {
                duplicate_arrivals: (s.stats.duplicate_arrivals + 1) as u64,
                ..s.stats
            }
        },
        latencies: if is_first(taken, c.origin_id, c.seq) {
            s.latencies.push(copy_age(c, round) as u64)
        } else {
            s.latencies
        },
        ..s
    }
}

pub open spec fn copies_landed(s: SprayState, i: int, round: u64, k: nat) -> SprayState
    decreases k,
{
    if k == 0 {
        s
    } else {
        copy_landed(copies_landed(s, i, round, (k - 1) as nat), i, round)
    }
}

/// How many copies one tower contact takes.
pub open spec fn contact_size(n: EpiModel, params: EpidemicParams) -> nat {
    if n.held.len() < params.tower_contact {
        n.held.len()
    } else {
        params.tower_contact as nat
    }
}

/// The contact of node `i` with a tower is seen, if it takes anything.
pub open spec fn contact_announced(
    s: SprayState,
    fleet: Seq<Balloon>,
    params: EpidemicParams,
    tower_id: u32,
    i: int,
) -> SprayState {
    let n = contact_size(s.nodes[i], params);
    if n > 0 {
        SprayState {
            events: s.events.push(
                CommsEvent {
                    kind: EventKind::Bundle,
                    from: NodeKey::Balloon(fleet[i].id),
                    to: NodeKey::Tower(tower_id),
                    payload: (n as usize) as u32,
                    tower_id: Some(tower_id),
                    hop_count: None,
                    epoch: None,
                },
            ),
            ..s
        }
    } else {
        s
    }
}

/// Node `i` delivers if it is awake and in range of a tower.
pub open spec fn delivery(
    s: SprayState,
    fleet: Seq<Balloon>,
    topo: Topology,
    params: EpidemicParams,
    up: Seq<bool>,
    round: u64,
    i: int,
) -> SprayState {
    match topo.tower_of(i) {
        Some(tower_id) => if up[i] {
            copies_landed(
                contact_announced(s, fleet, params, tower_id, i),
                i,
                round,
                contact_size(s.nodes[i], params),
            )
        } else {
            s
        },
        None => s,
    }
}

pub open spec fn deliveries(
    s: SprayState,
    fleet: Seq<Balloon>,
    topo: Topology,
    params: EpidemicParams,
    up: Seq<bool>,
    round: u64,
    k: nat,
) -> SprayState
    decreases k,
{
    if k == 0 {
        s
    } else {
        delivery(
            deliveries(s, fleet, topo, params, up, round, (k - 1) as nat),
            fleet,
            topo,
            params,
            up,
            round,
            k - 1,
        )
    }
}

// ---------------------------------------------------------------------------
// Spraying
// ---------------------------------------------------------------------------

/// The first copy, from `k` on, that may still be handed out.
pub open spec fn spray_place(held: Seq<Copy_>, k: int) -> Option<int>
    decreases held.len() - k,
{
    if k >= held.len() {
        None
    } else if held[k].copies > 1 {
        Some(k)
    } else {
        spray_place(held, k + 1)
    }
}

/// The first copy, from `k` on, of this record.
pub open spec fn copy_place(held: Seq<Copy_>, k: int, origin_id: u32, seq: u64) -> Option<int>
    decreases held.len() - k,
{
    if k >= held.len() {
        None
    } else if held[k].origin_id == origin_id && held[k].seq == seq {
        Some(k)
    } else {
        copy_place(held, k + 1, origin_id, seq)
    }
}

/// The balloons among the first `k` neighbours that lack a record.
pub open spec fn candidates(
    nodes: Seq<EpiModel>,
    list: Seq<u32>,
    k: nat,
    origin_id: u32,
    seq: u64,
) -> Seq<u32>
    decreases k,
{
    if k == 0 {
        Seq::empty()
    } else {
        let before = candidates(nodes, list, (k - 1) as nat, origin_id, seq);
        let nb = list[k - 1];
        if nb < nodes.len() && copy_place(nodes[nb as int].held, 0, origin_id, seq) is None {
            before.push(nb)
        } else {
            before
        }
    }
}

/// The balloons that node `i` may spray to: empty if it sprays nothing.
pub open spec fn choices(nodes: Seq<EpiModel>, topo: Topology, up: Seq<bool>, i: int) -> Seq<u32> {
    let list = topo.neighbors_of(i);
    match spray_place(nodes[i].held, 0) {
        Some(p) => if up[i] && topo.tower_of(i) is None {
            let c = nodes[i].held[p];
            candidates(nodes, list, list.len(), c.origin_id, c.seq)
        } else {
            Seq::empty()
        },
        None => Seq::empty(),
    }
}

/// Copies on their way from a node to a balloon.
#[verifier::ext_equal]
pub struct Spray {
    pub from: int,
    pub to: u32,
    pub copy: Copy_,
}

/// Copies gathered for this round's transmissions.
#[verifier::ext_equal]
pub struct SprayGather {
    pub s: SprayState,
    pub sprays: Seq<Spray>,
}

/// Node `i` hands half the budget of one record to one neighbour that lacks
/// it, if it is awake, out of range of any tower, and may. Which neighbour is
/// given by a draw.
pub open spec fn sprayed(
    g: SprayGather,
    topo: Topology,
    up: Seq<bool>,
    picks: Seq<u64>,
    i: int,
) -> SprayGather {
    let held = g.s.nodes[i].held;
    let list = topo.neighbors_of(i);
    if !up[i] || topo.tower_of(i) is Some || spray_place(held, 0) is None || list.len() == 0 {
        g
    } else {
        let pos = spray_place(held, 0)->Some_0;
        let c = held[pos];
        let able = candidates(g.s.nodes, list, list.len(), c.origin_id, c.seq);
        if able.len() == 0 {
            SprayGather {
                s: SprayState {
                    stats: EpidemicStats {
                        no_candidate: (g.s.stats.no_candidate + 1) as u64,
                        ..g.s.stats
                    },
                    ..g.s
                },
                ..g
            }
        } else {
            let to = able[picks[i] as int % able.len() as int];
            let give = c.copies / 2;
            SprayGather {
                s: SprayState {
                    nodes: g.s.nodes.update(
                        i,
                        EpiModel {
                            held: held.update(
                                pos,
                                Copy_ { copies: (c.copies - give) as u32, ..c },
                            ),
                            ..g.s.nodes[i]
                        },
                    ),
                    ..g.s
                },
                sprays: g.sprays.push(Spray { from: i, to, copy: Copy_ { copies: give, ..c } }),
            }
        }
    }
}

pub open spec fn all_sprayed(
    g: SprayGather,
    topo: Topology,
    up: Seq<bool>,
    picks: Seq<u64>,
    k: nat,
) -> SprayGather
    decreases k,
{
    if k == 0 {
        g
    } else {
        sprayed(all_sprayed(g, topo, up, picks, (k - 1) as nat), topo, up, picks, k - 1)
    }
}

/// Adding up that stops at the top of the range.
pub open spec fn capped(a: u32, b: u32) -> u32 {
    if a + b > u32::MAX {
        u32::MAX
    } else {
        (a + b) as u32
    }
}

/// Copies arrive at a balloon, or go back to the sender if it has no room.
pub open spec fn copies_handed(
    s: SprayState,
    fleet: Seq<Balloon>,
    params: EpidemicParams,
    h: Spray,
) -> SprayState {
    if h.to < s.nodes.len() && s.nodes[h.to as int].held.len() < params.relay_queue_capacity {
        SprayState {
            nodes: s.nodes.update(
                h.to as int,
                EpiModel {
                    held: s.nodes[h.to as int].held.push(h.copy),
                    ..s.nodes[h.to as int]
                },
            ),
            stats: EpidemicStats { handoffs: (s.stats.handoffs + 1) as u64, ..s.stats },
            events: s.events.push(
                CommsEvent {
                    kind: EventKind::Bundle,
                    from: NodeKey::Balloon(fleet[h.from].id),
                    to: NodeKey::Balloon(h.to),
                    payload: 1,
                    tower_id: None,
                    hop_count: None,
                    epoch: None,
                },
            ),
            ..s
        }
    } else {
        let held = s.nodes[h.from].held;
        SprayState {
            nodes: match copy_place(held, 0, h.copy.origin_id, h.copy.seq) {
                Some(p) => s.nodes.update(
                    h.from,
                    EpiModel {
                        held: held.update(
                            p,
                            Copy_ { copies: capped(held[p].copies, h.copy.copies), ..held[p] },
                        ),
                        ..s.nodes[h.from]
                    },
                ),
                None => s.nodes,
            },
            stats: EpidemicStats { blocked: (s.stats.blocked + 1) as u64, ..s.stats },
            ..s
        }
    }
}

pub open spec fn all_handed(
    s: SprayState,
    fleet: Seq<Balloon>,
    params: EpidemicParams,
    sprays: Seq<Spray>,
    k: nat,
) -> SprayState
    decreases k,
{
    if k == 0 {
        s
    } else {
        copies_handed(
            all_handed(s, fleet, params, sprays, (k - 1) as nat),
            fleet,
            params,
            sprays[k - 1],
        )
    }
}

// ---------------------------------------------------------------------------
// New records
// ---------------------------------------------------------------------------

/// Whether a balloon holds a copy of a record of its own.
pub open spec fn holds_own(held: Seq<Copy_>, id: u32) -> bool {
    exists|j: int| 0 <= j < held.len() && (#[trigger] held[j]).origin_id == id
}

pub open spec fn may_originate(n: EpiModel, id: u32, params: EpidemicParams, round: u64) -> bool {
    &&& round >= n.next_bundle_round
    &&& n.held.len() < params.relay_queue_capacity
    &&& !holds_own(n.held, id)
}

pub open spec fn originating(
    n: EpiModel,
    b: Balloon,
    params: EpidemicParams,
    round: u64,
) -> EpiModel {
    let record = telemetry::fresh_record(b.id, b.reading, n.bundle_seq, round);
    EpiModel {
        log: (if n.log.len() >= params.comms_log_capacity && n.log.len() > 0 {
            n.log.subrange(1, n.log.len() as int)
        } else {
            n.log
        }).push(record),
        held: n.held.push(
            Copy_ {
                origin_id: b.id,
                seq: n.bundle_seq,
                created_at_round: round,
                record,
                copies: params.copies,
            },
        ),
        outstanding: Some(
            OutstandingModel {
                seq: n.bundle_seq,
                created_at_round: round,
                state: AckState::Pending,
                path: None,
                channel: None,
                tower_id: None,
                ack_hops_completed: None,
            },
        ),
        bundle_seq: (n.bundle_seq + 1) as u64,
        next_bundle_round: (round + params.bundle_interval_rounds) as u64,
        ..n
    }
}

pub open spec fn origination(
    s: SprayState,
    fleet: Seq<Balloon>,
    params: EpidemicParams,
    up: Seq<bool>,
    round: u64,
    i: int,
) -> SprayState {
    if up[i] && may_originate(s.nodes[i], fleet[i].id, params, round) {
        SprayState {
            nodes: s.nodes.update(i, originating(s.nodes[i], fleet[i], params, round)),
            stats: EpidemicStats { originated: (s.stats.originated + 1) as u64, ..s.stats },
            ..s
        }
    } else {
        s
    }
}

pub open spec fn originations(
    s: SprayState,
    fleet: Seq<Balloon>,
    params: EpidemicParams,
    up: Seq<bool>,
    round: u64,
    k: nat,
) -> SprayState
    decreases k,
{
    if k == 0 {
        s
    } else {
        origination(
            originations(s, fleet, params, up, round, (k - 1) as nat),
            fleet,
            params,
            up,
            round,
            k - 1,
        )
    }
}

// ---------------------------------------------------------------------------
// The round
// ---------------------------------------------------------------------------

/// How many nodes take part: those whose balloon is visible.
pub open spec fn taking_part(nodes: Seq<EpiModel>, fleet: Seq<Balloon>) -> nat {
    if nodes.len() < fleet.len() {
        nodes.len()
    } else {
        fleet.len()
    }
}

/// Whether there is a draw and a pick for every node that takes part, and the
/// draws are in range.
pub open spec fn chances_fit(
    s: SprayState,
    fleet: Seq<Balloon>,
    params: EpidemicParams,
    draws: Seq<u64>,
    picks: Seq<u64>,
) -> bool {
    &&& draws.len() == taking_part(s.nodes, fleet)
    &&& picks.len() == taking_part(s.nodes, fleet)
    &&& beacon::drawn(draws, params.wake_jitter_rounds)
}

/// A round up to and including the tower contacts.
pub open spec fn spray_delivered(
    s: SprayState,
    fleet: Seq<Balloon>,
    topo: Topology,
    params: EpidemicParams,
    round: u64,
    draws: Seq<u64>,
) -> SprayState {
    let m = taking_part(s.nodes, fleet);
    let opened = nodes_expired(s, round, params.bundle_max_age_rounds, m);
    deliveries(
        woken(opened, params, round, draws, m),
        fleet,
        topo,
        params,
        spray_awake(s, fleet, params, round),
        round,
        m,
    )
}

/// Which of the nodes taking part transmit this round.
pub open spec fn spray_awake(
    s: SprayState,
    fleet: Seq<Balloon>,
    params: EpidemicParams,
    round: u64,
) -> Seq<bool> {
    let m = taking_part(s.nodes, fleet);
    wake_set(nodes_expired(s, round, params.bundle_max_age_rounds, m).nodes, m, round)
}

/// One comms round, for given jitter draws and picks among neighbours.
pub open spec fn spray_round(
    s: SprayState,
    fleet: Seq<Balloon>,
    topo: Topology,
    params: EpidemicParams,
    round: u64,
    draws: Seq<u64>,
    picks: Seq<u64>,
) -> SprayState {
    let m = taking_part(s.nodes, fleet);
    let up = spray_awake(s, fleet, params, round);
    let delivered = spray_delivered(s, fleet, topo, params, round, draws);
    let g = all_sprayed(
        SprayGather { s: delivered, sprays: Seq::empty() },
        topo,
        up,
        picks,
        m,
    );
    let handed = all_handed(g.s, fleet, params, g.sprays, g.sprays.len());
    originations(handed, fleet, params, up, round, m)
}

/// Copies held by the first `k` nodes.
pub open spec fn copies_held(nodes: Seq<EpiModel>, k: nat) -> nat
    decreases k,
{
    if k == 0 {
        0
    } else {
        copies_held(nodes, (k - 1) as nat) + nodes[k - 1].held.len()
    }
}

/// What the machine's number types demand of a round.
pub open spec fn round_fits(
    s: SprayState,
    params: EpidemicParams,
    round: u64,
) -> bool {
    &&& s.stats.room((2 * copies_held(s.nodes, s.nodes.len()) + 3 * s.nodes.len()) as int)
    &&& forall|i: int| 0 <= i < s.nodes.len() ==> (#[trigger] s.nodes[i]).bundle_seq < u64::MAX
    &&& round + params.bundle_interval_rounds <= u64::MAX
    &&& beacon::schedule_fits(round, params.wake_interval_rounds, params.wake_jitter_rounds)
}

} // verus!
