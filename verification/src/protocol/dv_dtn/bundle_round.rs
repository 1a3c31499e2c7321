//! The delivery logic as a function from one round's state to the next. The
//! phases of a round are folds: each item of a phase acts on what the items
//! before it left behind.
use vstd::prelude::*;

use crate::balloon::Balloon;
use crate::link_detection::NodeKey;
use crate::mesh_adjacency::Topology;
use crate::protocol::{CommsEvent, EventKind};
use crate::telemetry;
use crate::telemetry::TelemetryRecord;

use super::bundle;
use super::bundle::{AckModel, AckState, BundleModel, Channel, Delivery, OutstandingModel,
    ResolvedModel};
use super::bundle_stats;
use super::bundle_stats::Tally;
use super::params::{AckPolicy, DvDtnParams};
use super::NodeModel;

verus! {

/// What the delivery logic works on over a round.
#[verifier::ext_equal]
pub struct RoundState {
    pub nodes: Seq<NodeModel>,
    pub tally: Tally,
    pub events: Seq<CommsEvent>,
    pub deliveries: Seq<Delivery>,
}

// ---------------------------------------------------------------------------
// Bookkeeping on an origin's own node
// ---------------------------------------------------------------------------

/// The first record of the log, from `k` on, with this sequence number.
pub open spec fn record_place(log: Seq<TelemetryRecord>, k: int, seq: u64) -> Option<int>
    decreases log.len() - k,
{
    if k >= log.len() {
        None
    } else if log[k].seq == seq {
        Some(k)
    } else {
        record_place(log, k + 1, seq)
    }
}

/// A record stamped with the outcome of its bundle.
pub open spec fn stamped(r: TelemetryRecord, o: OutstandingModel) -> TelemetryRecord {
    TelemetryRecord {
        channel: o.channel,
        tower_id: o.tower_id,
        ack_state: o.state,
        hops: match o.path {
            Some(p) => if p.len() == 0 {
                None
            } else {
                Some(((p.len() - 1) as usize) as u32)
            },
            None => None,
        },
        ack_hops_completed: o.ack_hops_completed,
        ..r
    }
}

/// A node once the outcome of its outstanding bundle, if it has one that no
/// longer pends, is frozen and stamped on the record retained for it.
pub open spec fn settled(n: NodeModel) -> NodeModel {
    match n.outstanding {
        None => n,
        Some(o) => if o.state == AckState::Pending {
            n
        } else {
            NodeModel {
                log: match record_place(n.log, 0, o.seq) {
                    Some(j) => n.log.update(j, stamped(n.log[j], o)),
                    None => n.log,
                },
                last_resolved: Some(
                    ResolvedModel {
                        seq: o.seq,
                        state: o.state,
                        channel: o.channel,
                        tower_id: o.tower_id,
                        path: match o.path {
                            Some(p) => p,
                            None => Seq::empty(),
                        },
                        ack_hops_completed: o.ack_hops_completed,
                    },
                ),
                ..n
            }
        },
    }
}

/// Whether a node still waits to hear about the bundle of this number.
pub open spec fn awaits(n: NodeModel, seq: u64) -> bool {
    n.outstanding matches Some(o) && o.seq == seq && o.state == AckState::Pending
}

/// A node that has just learned that its bundle arrived, settled.
pub open spec fn told(n: NodeModel, seq: u64) -> NodeModel {
    settled(
        if awaits(n, seq) {
            NodeModel {
                outstanding: Some(
                    OutstandingModel { state: AckState::Acked, ..n.outstanding->Some_0 },
                ),
                ..n
            }
        } else {
            n
        },
    )
}

/// The tally once a node has learned that its bundle arrived.
pub open spec fn told_tally(t: Tally, n: NodeModel, seq: u64, round: u64) -> Tally {
    Tally {
        acked: t.acked + 1,
        ack_latency: if awaits(n, seq) {
            t.ack_latency.with(
                bundle::rounds_since(n.outstanding->Some_0.created_at_round, round) as u64,
            )
        } else {
            t.ack_latency
        },
        ..t
    }
}

/// A node whose own bundle has gone to satellite.
pub open spec fn sent_up(n: NodeModel, b: BundleModel) -> NodeModel {
    NodeModel {
        last_channel: Some(Channel::Satellite),
        outstanding: match n.outstanding {
            Some(o) => if o.seq == b.seq {
                Some(
                    OutstandingModel {
                        path: Some(b.path),
                        channel: Some(Channel::Satellite),
                        ..o
                    },
                )
            } else {
                Some(o)
            },
            None => None,
        },
        ..n
    }
}

/// A node whose own bundle has been taken by a tower.
pub open spec fn landed(n: NodeModel, b: BundleModel, tower_id: u32) -> NodeModel {
    NodeModel {
        last_channel: Some(Channel::Radio),
        outstanding: match n.outstanding {
            Some(o) => if o.seq == b.seq {
                Some(
                    OutstandingModel {
                        path: Some(b.path),
                        channel: Some(Channel::Radio),
                        tower_id: Some(tower_id),
                        ..o
                    },
                )
            } else {
                Some(o)
            },
            None => None,
        },
        ..n
    }
}

/// A node whose own bundle was destroyed in the mesh.
pub open spec fn dead_ended(n: NodeModel, seq: u64, path: Seq<u32>) -> NodeModel {
    NodeModel {
        outstanding: match n.outstanding {
            Some(o) => if o.seq == seq {
                Some(OutstandingModel { path: Some(path), ..o })
            } else {
                Some(o)
            },
            None => None,
        },
        ..n
    }
}

/// A node the receipt of whose bundle was lost after so many hops.
pub open spec fn receipt_lost(n: NodeModel, seq: u64, hops: u32) -> NodeModel {
    NodeModel {
        outstanding: match n.outstanding {
            Some(o) => if o.seq == seq {
                Some(OutstandingModel { ack_hops_completed: Some(hops), ..o })
            } else {
                Some(o)
            },
            None => None,
        },
        ..n
    }
}

pub open spec fn note_sent_up(nodes: Seq<NodeModel>, b: BundleModel) -> Seq<NodeModel> {
    if b.origin_id < nodes.len() {
        nodes.update(b.origin_id as int, sent_up(nodes[b.origin_id as int], b))
    } else {
        nodes
    }
}

pub open spec fn note_landed(nodes: Seq<NodeModel>, b: BundleModel, tower_id: u32) -> Seq<
    NodeModel,
> {
    if b.origin_id < nodes.len() {
        nodes.update(b.origin_id as int, landed(nodes[b.origin_id as int], b, tower_id))
    } else {
        nodes
    }
}

pub open spec fn note_dead_end(
    nodes: Seq<NodeModel>,
    origin_id: u32,
    seq: u64,
    path: Seq<u32>,
) -> Seq<NodeModel> {
    if origin_id < nodes.len() {
        nodes.update(origin_id as int, dead_ended(nodes[origin_id as int], seq, path))
    } else {
        nodes
    }
}

pub open spec fn note_receipt_lost(
    nodes: Seq<NodeModel>,
    origin_id: u32,
    seq: u64,
    hops: u32,
) -> Seq<NodeModel> {
    if origin_id < nodes.len() {
        nodes.update(origin_id as int, receipt_lost(nodes[origin_id as int], seq, hops))
    } else {
        nodes
    }
}

// ---------------------------------------------------------------------------
// Running out of time
// ---------------------------------------------------------------------------

/// The bundles among the first `k` of a queue that still have time left.
pub open spec fn live_bundles(q: Seq<BundleModel>, k: nat, round: u64, max_age: u64) -> Seq<
    BundleModel,
>
    decreases k,
{
    if k == 0 {
        Seq::empty()
    } else {
        let before = live_bundles(q, (k - 1) as nat, round, max_age);
        if q[k - 1].age(round) <= max_age {
            before.push(q[k - 1])
        } else {
            before
        }
    }
}

/// The bundles among the first `k` of a queue that have run out of time.
pub open spec fn late_bundles(q: Seq<BundleModel>, k: nat, round: u64, max_age: u64) -> Seq<
    BundleModel,
>
    decreases k,
{
    if k == 0 {
        Seq::empty()
    } else {
        let before = late_bundles(q, (k - 1) as nat, round, max_age);
        if q[k - 1].age(round) > max_age {
            before.push(q[k - 1])
        } else {
            before
        }
    }
}

/// The bundles of the first `k` nodes that have run out of time, node by node.
pub open spec fn all_late_bundles(
    nodes: Seq<NodeModel>,
    k: nat,
    round: u64,
    max_age: u64,
) -> Seq<BundleModel>
    decreases k,
{
    if k == 0 {
        Seq::empty()
    } else {
        all_late_bundles(nodes, (k - 1) as nat, round, max_age) + late_bundles(
            nodes[k - 1].queue,
            nodes[k - 1].queue.len(),
            round,
            max_age,
        )
    }
}

/// A node without its late bundles.
pub open spec fn bundles_trimmed(n: NodeModel, round: u64, max_age: u64) -> NodeModel {
    NodeModel { queue: live_bundles(n.queue, n.queue.len(), round, max_age), ..n }
}

/// A histogram after the hops of the first `k` bundles of a list.
pub open spec fn hops_counted(hist: Seq<u64>, list: Seq<BundleModel>, k: nat) -> Seq<u64>
    decreases k,
{
    if k == 0 {
        hist
    } else {
        bundle_stats::bumped(hops_counted(hist, list, (k - 1) as nat), list[k - 1].hops())
    }
}

pub open spec fn all_noted_sent_up(
    nodes: Seq<NodeModel>,
    list: Seq<BundleModel>,
    k: nat,
) -> Seq<NodeModel>
    decreases k,
{
    if k == 0 {
        nodes
    } else {
        note_sent_up(all_noted_sent_up(nodes, list, (k - 1) as nat), list[k - 1])
    }
}

/// Late bundles go to satellite wherever they sit.
pub open spec fn bundles_expired(s: RoundState, round: u64, max_age: u64) -> RoundState {
    let late = all_late_bundles(s.nodes, s.nodes.len(), round, max_age);
    let kept = Seq::new(s.nodes.len(), |i: int| bundles_trimmed(s.nodes[i], round, max_age));
    RoundState {
        nodes: all_noted_sent_up(kept, late, late.len()),
        tally: Tally {
            satellite: s.tally.satellite + late.len(),
            satellite_hops: hops_counted(s.tally.satellite_hops, late, late.len()),
            ..s.tally
        },
        ..s
    }
}

pub open spec fn live_acks(q: Seq<AckModel>, k: nat, round: u64, max_age: u64) -> Seq<AckModel>
    decreases k,
{
    if k == 0 {
        Seq::empty()
    } else {
        let before = live_acks(q, (k - 1) as nat, round, max_age);
        if q[k - 1].age(round) <= max_age {
            before.push(q[k - 1])
        } else {
            before
        }
    }
}

pub open spec fn late_acks(q: Seq<AckModel>, k: nat, round: u64, max_age: u64) -> Seq<AckModel>
    decreases k,
{
    if k == 0 {
        Seq::empty()
    } else {
        let before = late_acks(q, (k - 1) as nat, round, max_age);
        if q[k - 1].age(round) > max_age {
            before.push(q[k - 1])
        } else {
            before
        }
    }
}

pub open spec fn all_late_acks(nodes: Seq<NodeModel>, k: nat, round: u64, max_age: u64) -> Seq<
    AckModel,
>
    decreases k,
{
    if k == 0 {
        Seq::empty()
    } else {
        all_late_acks(nodes, (k - 1) as nat, round, max_age) + late_acks(
            nodes[k - 1].ack_queue,
            nodes[k - 1].ack_queue.len(),
            round,
            max_age,
        )
    }
}

pub open spec fn acks_trimmed(n: NodeModel, round: u64, max_age: u64) -> NodeModel {
    NodeModel { ack_queue: live_acks(n.ack_queue, n.ack_queue.len(), round, max_age), ..n }
}

pub open spec fn all_noted_lost(nodes: Seq<NodeModel>, list: Seq<AckModel>, k: nat) -> Seq<
    NodeModel,
>
    decreases k,
{
    if k == 0 {
        nodes
    } else {
        note_receipt_lost(
            all_noted_lost(nodes, list, (k - 1) as nat),
            list[k - 1].origin_id,
            list[k - 1].seq,
            list[k - 1].hops_completed(),
        )
    }
}

/// Late acks are lost wherever they sit.
pub open spec fn acks_expired(s: RoundState, round: u64, max_age: u64) -> RoundState {
    let late = all_late_acks(s.nodes, s.nodes.len(), round, max_age);
    let kept = Seq::new(s.nodes.len(), |i: int| acks_trimmed(s.nodes[i], round, max_age));
    RoundState {
        nodes: all_noted_lost(kept, late, late.len()),
        tally: Tally { ack_lost: s.tally.ack_lost + late.len(), ..s.tally },
        ..s
    }
}

/// A node that gives up on hearing back once it has waited too long.
pub open spec fn timed_out(n: NodeModel, round: u64, max_age: u64) -> NodeModel {
    if n.outstanding matches Some(o) && o.state == AckState::Pending && bundle::rounds_since(
        o.created_at_round,
        round,
    ) > max_age {
        settled(
            NodeModel {
                outstanding: Some(
                    OutstandingModel { state: AckState::TimedOut, ..n.outstanding->Some_0 },
                ),
                ..n
            },
        )
    } else {
        n
    }
}

pub open spec fn waits_ended(s: RoundState, round: u64, max_age: u64) -> RoundState {
    RoundState {
        nodes: Seq::new(s.nodes.len(), |i: int| timed_out(s.nodes[i], round, max_age)),
        ..s
    }
}

/// How many of the first `k` balloons hear a tower.
pub open spec fn tower_adjacent(topo: Topology, k: nat) -> int
    decreases k,
{
    if k == 0 {
        0
    } else {
        tower_adjacent(topo, (k - 1) as nat) + if topo.tower_of(k - 1) is Some {
            1int
        } else {
            0
        }
    }
}

/// The population of the last hop is sampled every round.
pub open spec fn last_hop_sampled(s: RoundState, topo: Topology) -> RoundState {
    RoundState {
        tally: Tally {
            rounds_sampled: s.tally.rounds_sampled + 1,
            tower_adjacent_samples: s.tally.tower_adjacent_samples + tower_adjacent(
                topo,
                s.nodes.len(),
            ),
            ..s.tally
        },
        ..s
    }
}

// ---------------------------------------------------------------------------
// Acks moving back
// ---------------------------------------------------------------------------

/// An ack on its way from a node to a balloon.
#[verifier::ext_equal]
pub struct AckMove {
    pub from: int,
    pub to: u32,
    pub ack: AckModel,
}

/// Acks gathered for this round's transmissions.
#[verifier::ext_equal]
pub struct AckGather {
    pub nodes: Seq<NodeModel>,
    /// Which nodes spent their slot on an ack.
    pub used: Seq<bool>,
    pub moves: Seq<AckMove>,
    /// Acks that reach their origin this round.
    pub resolved: Seq<(u32, u64)>,
}

/// Node `i` wakes: the ack at the front of its queue leaves if the next stop
/// is in range.
pub open spec fn ack_taken(g: AckGather, topo: Topology, i: int) -> AckGather {
    let q = g.nodes[i].ack_queue;
    if q.len() == 0 || q[0].remaining.len() == 0 || !topo.neighbors_of(i).contains(
        q[0].remaining[0],
    ) {
        g
    } else {
        let next = q[0].remaining[0];
        let ack = AckModel {
            remaining: q[0].remaining.subrange(1, q[0].remaining.len() as int),
            ..q[0]
        };
        let nodes = g.nodes.update(
            i,
            NodeModel { ack_queue: q.subrange(1, q.len() as int), ..g.nodes[i] },
        );
        let used = g.used.update(i, true);
        if ack.remaining.len() == 0 {
            AckGather { nodes, used, resolved: g.resolved.push((ack.origin_id, ack.seq)), ..g }
        } else {
            AckGather { nodes, used, moves: g.moves.push(AckMove { from: i, to: next, ack }), ..g }
        }
    }
}

pub open spec fn acks_taken(g: AckGather, topo: Topology, awake: Seq<usize>, k: nat) -> AckGather
    decreases k,
{
    if k == 0 {
        g
    } else {
        ack_taken(acks_taken(g, topo, awake, (k - 1) as nat), topo, awake[k - 1] as int)
    }
}

/// An ack arrives at its next stop, or is lost if there is no room there.
pub open spec fn ack_handed(
    s: RoundState,
    fleet: Seq<Balloon>,
    params: DvDtnParams,
    mv: AckMove,
) -> RoundState {
    if mv.to < s.nodes.len() && s.nodes[mv.to as int].ack_queue.len() < params.ack_queue_capacity {
        RoundState {
            nodes: s.nodes.update(
                mv.to as int,
                NodeModel {
                    ack_queue: s.nodes[mv.to as int].ack_queue.push(mv.ack),
                    ..s.nodes[mv.to as int]
                },
            ),
            events: s.events.push(
                CommsEvent {
                    kind: EventKind::Ack,
                    from: NodeKey::Balloon(fleet[mv.from].id),
                    to: NodeKey::Balloon(mv.to),
                    payload: 1,
                    tower_id: None,
                    hop_count: None,
                    epoch: None,
                },
            ),
            ..s
        }
    } else {
        RoundState {
            nodes: note_receipt_lost(
                s.nodes,
                mv.ack.origin_id,
                mv.ack.seq,
                mv.ack.hops_completed(),
            ),
            tally: Tally { ack_lost: s.tally.ack_lost + 1, ..s.tally },
            ..s
        }
    }
}

pub open spec fn acks_handed(
    s: RoundState,
    fleet: Seq<Balloon>,
    params: DvDtnParams,
    moves: Seq<AckMove>,
    k: nat,
) -> RoundState
    decreases k,
{
    if k == 0 {
        s
    } else {
        ack_handed(
            acks_handed(s, fleet, params, moves, (k - 1) as nat),
            fleet,
            params,
            moves[k - 1],
        )
    }
}

/// An ack reaches its origin.
pub open spec fn ack_received(s: RoundState, origin_id: u32, seq: u64, round: u64) -> RoundState {
    if origin_id < s.nodes.len() {
        RoundState {
            nodes: s.nodes.update(origin_id as int, told(s.nodes[origin_id as int], seq)),
            tally: told_tally(s.tally, s.nodes[origin_id as int], seq, round),
            ..s
        }
    } else {
        RoundState { tally: Tally { acked: s.tally.acked + 1, ..s.tally }, ..s }
    }
}

pub open spec fn acks_received(
    s: RoundState,
    resolved: Seq<(u32, u64)>,
    round: u64,
    k: nat,
) -> RoundState
    decreases k,
{
    if k == 0 {
        s
    } else {
        ack_received(
            acks_received(s, resolved, round, (k - 1) as nat),
            resolved[k - 1].0,
            resolved[k - 1].1,
            round,
        )
    }
}

/// Nothing gathered yet.
pub open spec fn ack_gather_start(nodes: Seq<NodeModel>) -> AckGather {
    AckGather {
        nodes,
        used: Seq::new(nodes.len(), |i: int| false),
        moves: Seq::empty(),
        resolved: Seq::empty(),
    }
}

/// The acks of a round: all are taken first, then handed over, then received.
pub open spec fn acks_forwarded(
    s: RoundState,
    fleet: Seq<Balloon>,
    topo: Topology,
    params: DvDtnParams,
    awake: Seq<usize>,
    round: u64,
) -> RoundState {
    let g = acks_taken(ack_gather_start(s.nodes), topo, awake, awake.len());
    acks_received(
        acks_handed(RoundState { nodes: g.nodes, ..s }, fleet, params, g.moves, g.moves.len()),
        g.resolved,
        round,
        g.resolved.len(),
    )
}

/// Which nodes spend their slot on an ack this round.
pub open spec fn slots_spent(s: RoundState, topo: Topology, awake: Seq<usize>) -> Seq<bool> {
    acks_taken(ack_gather_start(s.nodes), topo, awake, awake.len()).used
}

// ---------------------------------------------------------------------------
// Bundles moving on
// ---------------------------------------------------------------------------

/// The stops back to the origin from the last holder of a path.
pub open spec fn way_back(path: Seq<u32>) -> Seq<u32> {
    if path.len() == 0 {
        Seq::empty()
    } else {
        Seq::new((path.len() - 1) as nat, |j: int| path[path.len() - 2 - j])
    }
}

/// The first-hop clock of a bundle that leaves a queue: it counts only where
/// that is the origin's.
pub open spec fn first_hop_counted(t: Tally, b: BundleModel, round: u64) -> Tally {
    if b.hops() == 0 {
        Tally { first_hop_latency: t.first_hop_latency.with(b.age(round) as u64), ..t }
    } else {
        t
    }
}

/// The tally after a delivery.
pub open spec fn delivery_counted(t: Tally, b: BundleModel, round: u64) -> Tally {
    first_hop_counted(
        Tally {
            delivered: t.delivered + 1,
            delivered_hops: bundle_stats::bumped(t.delivered_hops, b.hops()),
            delivery_latency: t.delivery_latency.with(b.age(round) as u64),
            ..t
        },
        b,
        round,
    )
}

/// The receipt that a tower sends back by the last holder.
pub open spec fn receipt(b: BundleModel) -> AckModel {
    AckModel {
        origin_id: b.origin_id,
        seq: b.seq,
        created_at_round: b.created_at_round,
        remaining: way_back(b.path),
        total_hops: (way_back(b.path).len() as usize) as u32,
    }
}

/// The receipt of a bundle that node `i` delivered sets out, unless it has no
/// way to go or there is no room for it.
pub open spec fn receipt_sent(
    s: RoundState,
    i: int,
    b: BundleModel,
    params: DvDtnParams,
    round: u64,
) -> RoundState {
    if way_back(b.path).len() == 0 {
        RoundState {
            nodes: s.nodes.update(i, told(s.nodes[i], b.seq)),
            tally: told_tally(s.tally, s.nodes[i], b.seq, round),
            ..s
        }
    } else if s.nodes[i].ack_queue.len() < params.ack_queue_capacity {
        RoundState {
            nodes: s.nodes.update(
                i,
                NodeModel { ack_queue: s.nodes[i].ack_queue.push(receipt(b)), ..s.nodes[i] },
            ),
            ..s
        }
    } else {
        RoundState {
            nodes: note_receipt_lost(s.nodes, b.origin_id, b.seq, 0),
            tally: Tally { ack_lost: s.tally.ack_lost + 1, ..s.tally },
            ..s
        }
    }
}

/// Node `i` hands one bundle to a tower.
pub open spec fn bundle_delivered(
    s: RoundState,
    i: int,
    tower_id: u32,
    params: DvDtnParams,
    round: u64,
) -> RoundState {
    let q = s.nodes[i].queue;
    let place = bundle::nth_place(q.len() as int, params.queue_discipline, 0);
    let b = q[place];
    let taken = s.nodes.update(i, NodeModel { queue: q.remove(place), ..s.nodes[i] });
    let arrived = RoundState {
        nodes: note_landed(taken, b, tower_id),
        tally: delivery_counted(s.tally, b, round),
        ..s
    };
    if params.ack_policy == AckPolicy::Digest {
        RoundState {
            deliveries: s.deliveries.push(
                Delivery { tower_id, origin_id: b.origin_id, seq: b.seq },
            ),
            ..arrived
        }
    } else {
        receipt_sent(arrived, i, b, params, round)
    }
}

pub open spec fn bundles_delivered(
    s: RoundState,
    i: int,
    tower_id: u32,
    params: DvDtnParams,
    round: u64,
    k: nat,
) -> RoundState
    decreases k,
{
    if k == 0 {
        s
    } else {
        bundle_delivered(
            bundles_delivered(s, i, tower_id, params, round, (k - 1) as nat),
            i,
            tower_id,
            params,
            round,
        )
    }
}

/// How many bundles one tower contact takes.
pub open spec fn contact_size(n: NodeModel, params: DvDtnParams) -> nat {
    if n.queue.len() < params.batch.tower_contact {
        n.queue.len()
    } else {
        params.batch.tower_contact as nat
    }
}

/// Node `i` has a contact with a tower.
pub open spec fn tower_contact(
    s: RoundState,
    fleet: Seq<Balloon>,
    i: int,
    tower_id: u32,
    params: DvDtnParams,
    round: u64,
) -> RoundState {
    let n = contact_size(s.nodes[i], params);
    let announced = if n > 0 {
        RoundState {
            events: s.events.push(
                CommsEvent {
                    kind: EventKind::Bundle,
                    from: NodeKey::Balloon(fleet[i].id),
                    to: NodeKey::Tower(tower_id),
                    payload: (n as usize) as u32,
                    tower_id: Some(tower_id),
                    hop_count: Some(0),
                    epoch: None,
                },
            ),
            ..s
        }
    } else {
        s
    };
    bundles_delivered(announced, i, tower_id, params, round, n)
}

/// Why a bundle was destroyed.
pub enum Loss {
    Loop,
    HopBudget,
}

/// Node `i` destroys the bundle at a place of its queue.
pub open spec fn bundle_dropped(s: RoundState, i: int, place: int, why: Loss) -> RoundState {
    let q = s.nodes[i].queue;
    let b = q[place];
    let taken = s.nodes.update(i, NodeModel { queue: q.remove(place), ..s.nodes[i] });
    RoundState {
        nodes: note_dead_end(taken, b.origin_id, b.seq, b.path),
        tally: match why {
            Loss::Loop => Tally { dropped_loop: s.tally.dropped_loop + 1, ..s.tally },
            Loss::HopBudget => Tally { dropped_ttl: s.tally.dropped_ttl + 1, ..s.tally },
        },
        ..s
    }
}

/// Node `i` fills a transmission to `next`, on top of what it already holds. A
/// bundle that would loop or is out of hop budget is destroyed and ends it.
pub open spec fn batch_filled(
    s: RoundState,
    i: int,
    next: u32,
    params: DvDtnParams,
    ids: Seq<(u32, u64)>,
) -> (RoundState, Seq<(u32, u64)>)
    decreases params.batch.mesh_hop - ids.len(),
{
    let q = s.nodes[i].queue;
    let k = ids.len();
    let place = bundle::nth_place(q.len() as int, params.queue_discipline, k as int);
    if k >= params.batch.mesh_hop || k >= q.len() {
        (s, ids)
    } else if q[place].path.contains(next) {
        (bundle_dropped(s, i, place, Loss::Loop), ids)
    } else if q[place].path.len() >= params.bundle_max_hops {
        (bundle_dropped(s, i, place, Loss::HopBudget), ids)
    } else {
        batch_filled(s, i, next, params, ids.push((q[place].origin_id, q[place].seq)))
    }
}

/// A transmission of bundles from a node to a balloon.
#[verifier::ext_equal]
pub struct Handoff {
    pub from: int,
    pub to: u32,
    /// The bundles' identities. They stay with the sender until handed over.
    pub ids: Seq<(u32, u64)>,
    pub tower_id: u32,
    pub hop_count: u32,
}

/// Bundles gathered for this round's transmissions.
#[verifier::ext_equal]
pub struct Gather {
    pub s: RoundState,
    pub moves: Seq<Handoff>,
}

/// Node `i` wakes to transmit.
pub open spec fn slot_taken(
    g: Gather,
    fleet: Seq<Balloon>,
    topo: Topology,
    params: DvDtnParams,
    used: Seq<bool>,
    round: u64,
    i: int,
) -> Gather {
    let n = g.s.nodes[i];
    match n.belief {
        None => if n.queue.len() == 0 {
            g
        } else {
            Gather {
                s: RoundState {
                    tally: Tally {
                        slots_with_bundle: g.s.tally.slots_with_bundle + 1,
                        stall_no_belief: g.s.tally.stall_no_belief + 1,
                        ..g.s.tally
                    },
                    ..g.s
                },
                ..g
            }
        },
        Some(belief) => {
            let sampled = RoundState {
                tally: Tally {
                    belief_hops: bundle_stats::bumped(
                        g.s.tally.belief_hops,
                        belief.hop_count as int,
                    ),
                    ..g.s.tally
                },
                ..g.s
            };
            let slot = RoundState {
                tally: Tally {
                    slots_with_bundle: sampled.tally.slots_with_bundle + 1,
                    ..sampled.tally
                },
                ..sampled
            };
            if n.queue.len() == 0 {
                Gather { s: sampled, ..g }
            } else {
                match belief.next_hop {
                    None => match topo.tower_of(i) {
                        Some(tower_id) => Gather {
                            s: tower_contact(slot, fleet, i, tower_id, params, round),
                            ..g
                        },
                        None => Gather {
                            s: RoundState {
                                tally: Tally {
                                    stall_tower_gone: slot.tally.stall_tower_gone + 1,
                                    ..slot.tally
                                },
                                ..slot
                            },
                            ..g
                        },
                    },
                    Some(next) => if used[i] {
                        Gather { s: sampled, ..g }
                    } else if !topo.neighbors_of(i).contains(next) {
                        Gather {
                            s: RoundState {
                                tally: Tally {
                                    stall_stale_next_hop: slot.tally.stall_stale_next_hop + 1,
                                    ..slot.tally
                                },
                                ..slot
                            },
                            ..g
                        }
                    } else {
                        let (s, ids) = batch_filled(slot, i, next, params, Seq::empty());
                        if ids.len() == 0 {
                            Gather { s, ..g }
                        } else {
                            Gather {
                                s,
                                moves: g.moves.push(
                                    Handoff {
                                        from: i,
                                        to: next,
                                        ids,
                                        tower_id: belief.tower_id,
                                        hop_count: belief.hop_count,
                                    },
                                ),
                            }
                        }
                    },
                }
            }
        },
    }
}

pub open spec fn slots_taken(
    g: Gather,
    fleet: Seq<Balloon>,
    topo: Topology,
    params: DvDtnParams,
    used: Seq<bool>,
    round: u64,
    awake: Seq<usize>,
    k: nat,
) -> Gather
    decreases k,
{
    if k == 0 {
        g
    } else {
        slot_taken(
            slots_taken(g, fleet, topo, params, used, round, awake, (k - 1) as nat),
            fleet,
            topo,
            params,
            used,
            round,
            awake[k - 1] as int,
        )
    }
}

/// Whether a balloon can take one more bundle.
pub open spec fn has_room(s: RoundState, to: u32, params: DvDtnParams) -> bool {
    to < s.nodes.len() && s.nodes[to as int].queue.len() < params.relay_queue_capacity
}

/// One bundle of a transmission is handed over, if the receiver has room and
/// the sender still holds it. The second part says whether it was.
pub open spec fn bundle_handed(
    s: RoundState,
    from: int,
    to: u32,
    id: (u32, u64),
    params: DvDtnParams,
    round: u64,
) -> (RoundState, bool) {
    if !has_room(s, to, params) {
        (RoundState { tally: Tally { blocked: s.tally.blocked + 1, ..s.tally }, ..s }, false)
    } else {
        match bundle::place_of(s.nodes[from].queue, 0, id.0, id.1) {
            None => (s, false),
            Some(p) => {
                let b = s.nodes[from].queue[p];
                let taken = s.nodes.update(
                    from,
                    NodeModel { queue: s.nodes[from].queue.remove(p), ..s.nodes[from] },
                );
                let given = taken.update(
                    to as int,
                    NodeModel {
                        queue: taken[to as int].queue.push(
                            BundleModel { path: b.path.push(to), ..b },
                        ),
                        ..taken[to as int]
                    },
                );
                (
                    RoundState {
                        nodes: given,
                        tally: first_hop_counted(s.tally, b, round),
                        ..s
                    },
                    true,
                )
            },
        }
    }
}

/// The first `k` bundles of a transmission are handed over. The second part
/// counts those that were.
pub open spec fn bundles_handed(
    s: RoundState,
    mv: Handoff,
    params: DvDtnParams,
    round: u64,
    k: nat,
) -> (RoundState, int)
    decreases k,
{
    if k == 0 {
        (s, 0)
    } else {
        let (before, sent) = bundles_handed(s, mv, params, round, (k - 1) as nat);
        let (after, did) = bundle_handed(before, mv.from, mv.to, mv.ids[k - 1], params, round);
        (after, if did {
            sent + 1
        } else {
            sent
        })
    }
}

/// A whole transmission is handed over.
pub open spec fn handed(
    s: RoundState,
    fleet: Seq<Balloon>,
    mv: Handoff,
    params: DvDtnParams,
    round: u64,
) -> RoundState {
    let (after, sent) = bundles_handed(s, mv, params, round, mv.ids.len());
    if sent > 0 {
        RoundState {
            events: after.events.push(
                CommsEvent {
                    kind: EventKind::Bundle,
                    from: NodeKey::Balloon(fleet[mv.from].id),
                    to: NodeKey::Balloon(mv.to),
                    payload: (sent as usize) as u32,
                    tower_id: Some(mv.tower_id),
                    hop_count: Some(mv.hop_count),
                    epoch: None,
                },
            ),
            ..after
        }
    } else {
        after
    }
}

pub open spec fn all_handed(
    s: RoundState,
    fleet: Seq<Balloon>,
    moves: Seq<Handoff>,
    params: DvDtnParams,
    round: u64,
    k: nat,
) -> RoundState
    decreases k,
{
    if k == 0 {
        s
    } else {
        handed(
            all_handed(s, fleet, moves, params, round, (k - 1) as nat),
            fleet,
            moves[k - 1],
            params,
            round,
        )
    }
}

/// The bundles of a round: all transmissions are gathered first, then handed
/// over.
pub open spec fn bundles_forwarded(
    s: RoundState,
    fleet: Seq<Balloon>,
    topo: Topology,
    params: DvDtnParams,
    used: Seq<bool>,
    awake: Seq<usize>,
    round: u64,
) -> RoundState {
    let g = slots_taken(
        Gather { s, moves: Seq::empty() },
        fleet,
        topo,
        params,
        used,
        round,
        awake,
        awake.len(),
    );
    all_handed(g.s, fleet, g.moves, params, round, g.moves.len())
}

// ---------------------------------------------------------------------------
// New bundles
// ---------------------------------------------------------------------------

/// Whether a queue holds a bundle of this origin.
pub open spec fn holds_own(q: Seq<BundleModel>, id: u32) -> bool {
    exists|j: int| 0 <= j < q.len() && (#[trigger] q[j]).origin_id == id
}

/// Whether a node may originate a bundle: its time has come, it has room, and
/// none of its own is still in hand.
pub open spec fn may_originate(n: NodeModel, id: u32, params: DvDtnParams, round: u64) -> bool {
    &&& round >= n.next_bundle_round
    &&& n.queue.len() < params.relay_queue_capacity
    &&& !holds_own(n.queue, id)
}

/// A node after originating: one measurement, one copy retained in the bounded
/// log and one in the queue.
pub open spec fn originating(
    n: NodeModel,
    b: Balloon,
    params: DvDtnParams,
    round: u64,
) -> NodeModel {
    let record = telemetry::fresh_record(b.id, b.reading, n.bundle_seq, round);
    NodeModel {
        log: (if n.log.len() >= params.comms_log_capacity && n.log.len() > 0 {
            n.log.subrange(1, n.log.len() as int)
        } else {
            n.log
        }).push(record),
        queue: n.queue.push(
            BundleModel {
                origin_id: b.id,
                seq: n.bundle_seq,
                created_at_round: round,
                record,
                path: seq![b.id],
            },
        ),
        outstanding: Some(
            OutstandingModel {
                seq: n.bundle_seq,
                created_at_round: round,
                state: AckState::Pending,
                path: None,
                channel: None,
                tower_id: None,
                ack_hops_completed: None,
            },
        ),
        bundle_seq: (n.bundle_seq + 1) as u64,
        next_bundle_round: (round + params.bundle_interval_rounds) as u64,
        ..n
    }
}

pub open spec fn origination(
    s: RoundState,
    fleet: Seq<Balloon>,
    params: DvDtnParams,
    round: u64,
    i: int,
) -> RoundState {
    if may_originate(s.nodes[i], fleet[i].id, params, round) {
        RoundState {
            nodes: s.nodes.update(i, originating(s.nodes[i], fleet[i], params, round)),
            tally: Tally { originated: s.tally.originated + 1, ..s.tally },
            ..s
        }
    } else {
        s
    }
}

pub open spec fn originations(
    s: RoundState,
    fleet: Seq<Balloon>,
    params: DvDtnParams,
    round: u64,
    awake: Seq<usize>,
    k: nat,
) -> RoundState
    decreases k,
{
    if k == 0 {
        s
    } else {
        origination(
            originations(s, fleet, params, round, awake, (k - 1) as nat),
            fleet,
            params,
            round,
            awake[k - 1] as int,
        )
    }
}

// ---------------------------------------------------------------------------
// How much there is to do
// ---------------------------------------------------------------------------

/// Bundles held by the first `k` nodes.
pub open spec fn queued(nodes: Seq<NodeModel>, k: nat) -> nat
    decreases k,
{
    if k == 0 {
        0
    } else {
        queued(nodes, (k - 1) as nat) + nodes[k - 1].queue.len()
    }
}

/// Acks held by the first `k` nodes.
pub open spec fn acks_held(nodes: Seq<NodeModel>, k: nat) -> nat
    decreases k,
{
    if k == 0 {
        0
    } else {
        acks_held(nodes, (k - 1) as nat) + nodes[k - 1].ack_queue.len()
    }
}

/// What the first `k` wake slots can do at most: each can touch every bundle
/// in hand, and count twice besides.
pub open spec fn slot_load(nodes: Seq<NodeModel>, awake: Seq<usize>, k: nat) -> nat
    decreases k,
{
    if k == 0 {
        0
    } else {
        slot_load(nodes, awake, (k - 1) as nat) + nodes[awake[k - 1] as int].queue.len() + 2
    }
}

/// What a round can add to any one counter at most.
pub open spec fn round_work(nodes: Seq<NodeModel>, awake: Seq<usize>) -> nat {
    queued(nodes, nodes.len()) + acks_held(nodes, nodes.len()) + nodes.len() + 1 + awake.len()
        + slot_load(nodes, awake, awake.len()) + slot_load(nodes, awake, awake.len()) + awake.len()
}

/// What the machine's number types demand of a round: counters that have room
/// for it, sequence numbers that have a successor, and a next origination that
/// can be dated.
pub open spec fn round_fits(
    s: RoundState,
    params: DvDtnParams,
    awake: Seq<usize>,
    round: u64,
) -> bool {
    &&& s.tally.room(round_work(s.nodes, awake) as int)
    &&& forall|i: int|
        0 <= i < s.nodes.len() ==> (#[trigger] s.nodes[i]).bundle_seq + awake.len() <= u64::MAX
    &&& round + params.bundle_interval_rounds <= u64::MAX
}

// ---------------------------------------------------------------------------
// The round
// ---------------------------------------------------------------------------

/// What has run out of time leaves, and the last hop is sampled.
pub open spec fn round_opened(
    s: RoundState,
    topo: Topology,
    params: DvDtnParams,
    round: u64,
) -> RoundState {
    let max_age = params.bundle_max_age_rounds;
    last_hop_sampled(
        waits_ended(acks_expired(bundles_expired(s, round, max_age), round, max_age), round, max_age),
        topo,
    )
}

/// One comms round of the delivery logic.
pub open spec fn bundle_round(
    s: RoundState,
    fleet: Seq<Balloon>,
    topo: Topology,
    params: DvDtnParams,
    awake: Seq<usize>,
    round: u64,
) -> RoundState {
    let opened = round_opened(s, topo, params, round);
    let acked = acks_forwarded(opened, fleet, topo, params, awake, round);
    let used = slots_spent(opened, topo, awake);
    let moved = bundles_forwarded(acked, fleet, topo, params, used, awake, round);
    originations(moved, fleet, params, round, awake, awake.len())
}

} // verus!
