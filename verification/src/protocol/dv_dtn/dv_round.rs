//! A whole comms round: discovery, then delivery, on one duty cycle.
use vstd::prelude::*;

use crate::balloon::Balloon;
use crate::link_detection::NodeKey;
use crate::mesh_adjacency::Topology;
use crate::protocol::{CommsEvent, EventKind};
use crate::tower::Tower;

use super::aodv_round;
use super::aodv_round::{Answer, AodvModel, Call, Hunt};
use super::beacon;
use super::beacon::{BeaconHop, DigestAck, OfferModel, Reception, TowerModel};
use super::bundle;
use super::bundle::{AckState, Delivery};
use super::bundle_order;
use super::bundle_round;
use super::bundle_round::RoundState;
use super::bundle_stats::Tally;
use super::linkstate;
use super::linkstate::{Routed, StateModel};
use super::params::{Discovery, DvDtnParams};
use super::NodeModel;

verus! {

/// The mathematical content of the protocol's state.
#[verifier::ext_equal]
pub struct DvModel {
    pub nodes: Seq<NodeModel>,
    pub towers: Map<u32, TowerModel>,
    pub tally: Tally,
    pub aodv: Seq<AodvModel>,
    pub linkstate: StateModel,
}

/// Jitter drawn for a round: one number per tower and one per node.
#[verifier::ext_equal]
pub struct Draws {
    pub towers: Seq<u64>,
    pub nodes: Seq<u64>,
}

impl Draws {
    /// Whether there is one for everyone, in range.
    pub open spec fn fit(self, towers: nat, nodes: nat, params: DvDtnParams) -> bool {
        &&& self.towers.len() == towers
        &&& self.nodes.len() == nodes
        &&& beacon::drawn(self.towers, params.beacon_jitter_rounds)
        &&& beacon::drawn(self.nodes, params.beacon_jitter_rounds)
    }
}

/// What discovery leaves.
#[verifier::ext_equal]
pub struct Found {
    pub m: DvModel,
    pub awake: Seq<usize>,
    pub events: Seq<CommsEvent>,
    pub acks: Seq<DigestAck>,
}

/// A beacon transmission as an event.
pub open spec fn route_ad(h: BeaconHop, fleet: Seq<Balloon>) -> CommsEvent {
    CommsEvent {
        kind: EventKind::RouteAd,
        from: h.from,
        to: NodeKey::Balloon(fleet[h.to_balloon as int].id),
        payload: 1,
        tower_id: Some(h.tower_id),
        hop_count: Some(h.hop_count),
        epoch: Some(h.epoch),
    }
}

/// The transmissions to balloons that are visible. Links are computed less often
/// than the visible ones may change, so some may lead to a balloon that is no
/// longer among them.
pub open spec fn visible_hops(hops: Seq<BeaconHop>, n: nat) -> Seq<BeaconHop> {
    hops.filter(|h: BeaconHop| h.to_balloon < n)
}

/// Beacon transmissions as events.
pub open spec fn route_ads(hops: Seq<BeaconHop>, fleet: Seq<Balloon>) -> Seq<CommsEvent> {
    visible_hops(hops, fleet.len()).map_values(|h: BeaconHop| route_ad(h, fleet))
}

/// Discovery, in the way the parameters choose, over the visible nodes.
pub open spec fn found(
    m: DvModel,
    fleet: Seq<Balloon>,
    towers: Seq<Tower>,
    topo: Topology,
    params: DvDtnParams,
    round: u64,
    draws: Draws,
) -> Found {
    match params.discovery {
        Discovery::Proactive => {
            let b = beacon::beacon_round(
                m.nodes,
                fleet,
                m.towers,
                towers,
                topo,
                params,
                round,
                draws.towers,
                draws.nodes,
            );
            Found {
                m: DvModel { nodes: b.nodes, towers: b.towers, ..m },
                awake: b.awake,
                events: route_ads(b.hops, fleet),
                acks: b.acks,
            }
        },
        Discovery::Reactive => {
            let h = aodv_round::hunt_round(
                m.nodes,
                m.aodv,
                fleet,
                topo,
                params,
                round,
                draws.nodes,
            );
            Found {
                m: DvModel { nodes: h.nodes, aodv: h.state, ..m },
                awake: h.awake,
                events: h.events,
                acks: Seq::empty(),
            }
        },
        Discovery::LinkState => {
            let g = linkstate::gossip_round(
                m.nodes,
                m.linkstate,
                fleet,
                topo,
                params,
                round,
                draws.nodes,
            );
            Found {
                m: DvModel { nodes: g.nodes, linkstate: g.state, ..m },
                awake: g.awake,
                events: g.events,
                acks: Seq::empty(),
            }
        },
    }
}

/// Origins learn what they heard announced.
pub open spec fn acknowledged(m: DvModel, acks: Seq<DigestAck>, round: u64, k: nat) -> DvModel
    decreases k,
{
    if k == 0 {
        m
    } else {
        let before = acknowledged(m, acks, round, (k - 1) as nat);
        let i = acks[k - 1].node as int;
        let seq = acks[k - 1].seq;
        if bundle_round::awaits(before.nodes[i], seq) {
            DvModel {
                nodes: before.nodes.update(i, bundle_round::told(before.nodes[i], seq)),
                tally: bundle_round::told_tally(before.tally, before.nodes[i], seq, round),
                ..before
            }
        } else {
            before
        }
    }
}

/// Deliveries still worth announcing: what is too old at the front is let go.
pub open spec fn still_news(
    recent: Seq<(u32, u64, u64)>,
    round: u64,
    max_age: u64,
) -> Seq<(u32, u64, u64)>
    decreases recent.len(),
{
    if recent.len() > 0 && bundle::rounds_since(recent[0].2, round) > max_age {
        still_news(recent.subrange(1, recent.len() as int), round, max_age)
    } else {
        recent
    }
}

/// Towers note the first `k` deliveries they took.
pub open spec fn noted(
    towers: Map<u32, TowerModel>,
    taken: Seq<Delivery>,
    round: u64,
    max_age: u64,
    k: nat,
) -> Map<u32, TowerModel>
    decreases k,
{
    if k == 0 {
        towers
    } else {
        let before = noted(towers, taken, round, max_age, (k - 1) as nat);
        let d = taken[k - 1];
        if before.contains_key(d.tower_id) {
            let t = before[d.tower_id];
            before.insert(
                d.tower_id,
                TowerModel {
                    recent: still_news(t.recent, round, max_age).push(
                        (d.origin_id, d.seq, round),
                    ),
                    ..t
                },
            )
        } else {
            before
        }
    }
}

/// What a round leads to.
#[verifier::ext_equal]
pub struct DvOutcome {
    pub m: DvModel,
    pub events: Seq<CommsEvent>,
}

/// Delivery as it starts once discovery is done.
pub open spec fn to_deliver(m: DvModel) -> RoundState {
    RoundState {
        nodes: m.nodes,
        tally: m.tally,
        events: Seq::empty(),
        deliveries: Seq::empty(),
    }
}

/// One comms round, for given draws. Only the visible nodes take part, one per
/// balloon of the fleet.
pub open spec fn dv_round(
    m: DvModel,
    fleet: Seq<Balloon>,
    towers: Seq<Tower>,
    topo: Topology,
    params: DvDtnParams,
    round: u64,
    draws: Draws,
) -> DvOutcome {
    let n = fleet.len() as int;
    let f = found(
        DvModel { nodes: m.nodes.take(n), ..m },
        fleet,
        towers,
        topo,
        params,
        round,
        draws,
    );
    let a = acknowledged(f.m, f.acks, round, f.acks.len());
    let b = bundle_round::bundle_round(to_deliver(a), fleet, topo, params, f.awake, round);
    DvOutcome {
        m: DvModel {
            nodes: b.nodes + m.nodes.skip(n),
            towers: noted(
                a.towers,
                b.deliveries,
                round,
                params.belief_max_age_rounds,
                b.deliveries.len(),
            ),
            tally: b.tally,
            ..a
        },
        events: b.events + f.events,
    }
}

/// What discovery demands of the machine's number types.
pub open spec fn discovery_fits(
    m: DvModel,
    towers: nat,
    params: DvDtnParams,
    round: u64,
) -> bool {
    match params.discovery {
        Discovery::Proactive => {
            &&& beacon::schedule_fits(
                round,
                params.beacon_interval_rounds,
                params.beacon_jitter_rounds,
            )
            &&& beacon::waves_fit(m.towers, towers)
        },
        Discovery::Reactive => aodv_round::hunt_fits(m.aodv, params, round),
        Discovery::LinkState => linkstate::gossip_fits(m.linkstate, params, round),
    }
}

/// What a round can add to any one counter at most.
pub open spec fn load(nodes: Seq<NodeModel>) -> nat {
    3 * bundle_round::queued(nodes, nodes.len()) + bundle_round::acks_held(nodes, nodes.len()) + 8
        * nodes.len() + 1
}

/// What a round demands: no more visible balloons than nodes, and what fits
/// the machine's number types.
pub open spec fn dv_fits(
    m: DvModel,
    fleet: Seq<Balloon>,
    towers: Seq<Tower>,
    params: DvDtnParams,
    round: u64,
) -> bool {
    let visible = m.nodes.take(fleet.len() as int);
    &&& fleet.len() <= m.nodes.len()
    &&& discovery_fits(m, towers.len(), params, round)
    &&& m.tally.room(load(visible) as int)
    &&& forall|i: int|
        0 <= i < fleet.len() ==> (#[trigger] m.nodes[i]).bundle_seq + fleet.len() <= u64::MAX
    &&& round + params.bundle_interval_rounds <= u64::MAX
}

// ---------------------------------------------------------------------------
// Discovery moves no cargo
// ---------------------------------------------------------------------------

/// Whether two lists of nodes carry the same, and have the same on record.
pub open spec fn same_cargo(a: Seq<NodeModel>, b: Seq<NodeModel>) -> bool {
    &&& a.len() == b.len()
    &&& forall|i: int|
        0 <= i < a.len() ==> {
            &&& (#[trigger] b[i]).queue == a[i].queue
            &&& b[i].ack_queue == a[i].ack_queue
            &&& b[i].bundle_seq == a[i].bundle_seq
            &&& b[i].next_bundle_round == a[i].next_bundle_round
            &&& bundle_order::same_records(a[i].log, b[i].log)
        }
}

proof fn lemma_received_cargo(
    r: Reception,
    fleet: Seq<Balloon>,
    params: DvDtnParams,
    round: u64,
    offers: Seq<OfferModel>,
    k: nat,
)
    ensures
        same_cargo(r.nodes, beacon::all_received(r, fleet, params, round, offers, k).nodes),
    decreases k,
{
    if k > 0 {
        lemma_received_cargo(r, fleet, params, round, offers, (k - 1) as nat);
    }
}

proof fn lemma_call_cargo(
    h: Hunt,
    fleet: Seq<Balloon>,
    topo: Topology,
    params: DvDtnParams,
    round: u64,
    c: Call,
    k: nat,
)
    ensures
        aodv_round::call_spread(h, fleet, topo, params, round, c, k).nodes == h.nodes,
    decreases k,
{
    if k > 0 {
        lemma_call_cargo(h, fleet, topo, params, round, c, (k - 1) as nat);
    }
}

proof fn lemma_calls_cargo(
    h: Hunt,
    fleet: Seq<Balloon>,
    topo: Topology,
    params: DvDtnParams,
    round: u64,
    calls: Seq<Call>,
    k: nat,
)
    ensures
        aodv_round::all_calls(h, fleet, topo, params, round, calls, k).nodes == h.nodes,
    decreases k,
{
    if k > 0 {
        lemma_calls_cargo(h, fleet, topo, params, round, calls, (k - 1) as nat);
        lemma_call_cargo(
            aodv_round::all_calls(h, fleet, topo, params, round, calls, (k - 1) as nat),
            fleet,
            topo,
            params,
            round,
            calls[k - 1],
            topo.neighbors_of(calls[k - 1].from).len(),
        );
    }
}

proof fn lemma_overheard_cargo(
    h: Hunt,
    fleet: Seq<Balloon>,
    topo: Topology,
    params: DvDtnParams,
    round: u64,
    w: Answer,
    k: nat,
)
    ensures
        same_cargo(
            h.nodes,
            aodv_round::all_overheard(h, fleet, topo, params, round, w, k).nodes,
        ),
    decreases k,
{
    if k > 0 {
        lemma_overheard_cargo(h, fleet, topo, params, round, w, (k - 1) as nat);
    }
}

proof fn lemma_replies_cargo(
    h: Hunt,
    fleet: Seq<Balloon>,
    topo: Topology,
    params: DvDtnParams,
    round: u64,
    answers: Seq<Answer>,
    k: nat,
)
    ensures
        same_cargo(
            h.nodes,
            aodv_round::all_replies(h, fleet, topo, params, round, answers, k).nodes,
        ),
    decreases k,
{
    if k > 0 {
        lemma_replies_cargo(h, fleet, topo, params, round, answers, (k - 1) as nat);
        let before = aodv_round::all_replies(h, fleet, topo, params, round, answers, (k - 1) as nat);
        let w = answers[k - 1];
        if w.to < before.nodes.len() {
            let taken = aodv_round::reply_taken(before, fleet, params, w);
            lemma_overheard_cargo(
                taken,
                fleet,
                topo,
                params,
                round,
                w,
                topo.neighbors_of(w.from).len(),
            );
        }
    }
}

proof fn lemma_rerouted_cargo(
    r: Routed,
    fleet: Seq<Balloon>,
    params: DvDtnParams,
    awake: Seq<usize>,
    k: nat,
)
    requires
        k <= awake.len(),
        forall|a: int| 0 <= a < awake.len() ==> (#[trigger] awake[a]) < r.nodes.len(),
    ensures
        same_cargo(r.nodes, linkstate::rerouted(r, fleet, params, awake, k).nodes),
    decreases k,
{
    if k > 0 {
        lemma_rerouted_cargo(r, fleet, params, awake, (k - 1) as nat);
        assert(awake[k - 1] < r.nodes.len());
    }
}

/// Discovery moves no cargo: whichever way routes are found, no bundle and no
/// receipt is touched by finding them, and those who then transmit are those
/// whose slot has come.
pub proof fn discovery_moves_no_cargo(
    m: DvModel,
    fleet: Seq<Balloon>,
    towers: Seq<Tower>,
    topo: Topology,
    params: DvDtnParams,
    round: u64,
    draws: Draws,
)
    requires
        m.nodes.len() <= usize::MAX,
    ensures
        ({
            let f = found(m, fleet, towers, topo, params, round, draws);
            &&& same_cargo(m.nodes, f.m.nodes)
            &&& f.m.tally == m.tally
            &&& f.awake == beacon::awake_of(m.nodes, m.nodes.len(), round)
        }),
{
    let nodes = m.nodes;
    let live = beacon::all_forgetful(nodes, round, params.belief_max_age_rounds);
    let woken = beacon::all_rescheduled(live, params, round, draws.nodes);
    assert(same_cargo(nodes, woken));
    lemma_awake_same(nodes, live, nodes.len(), round);
    linkstate::lemma_awake_rises(nodes, nodes.len(), round);
    match params.discovery {
        Discovery::Proactive => {
            let w = beacon::waves_of(
                live,
                fleet,
                m.towers,
                towers,
                topo,
                params,
                round,
                draws.towers,
            );
            lemma_received_cargo(
                Reception { nodes: woken, acks: Seq::empty() },
                fleet,
                params,
                round,
                w.offers,
                w.offers.len(),
            );
        },
        Discovery::Reactive => {
            let g = aodv_round::on_air(nodes, m.aodv, fleet, topo, params, round, draws.nodes);
            let h0 = Hunt { nodes: woken, state: g.state, events: Seq::empty() };
            lemma_calls_cargo(h0, fleet, topo, params, round, g.calls, g.calls.len());
            let h1 = aodv_round::all_calls(h0, fleet, topo, params, round, g.calls, g.calls.len());
            lemma_replies_cargo(h1, fleet, topo, params, round, g.answers, g.answers.len());
        },
        Discovery::LinkState => {
            let woken = Seq::new(
                nodes.len(),
                |i: int| beacon::rescheduled(nodes[i], params, round, draws.nodes[i]),
            );
            let g = linkstate::gossiped(nodes, m.linkstate, fleet, topo, params, round);
            let awake = beacon::awake_of(nodes, nodes.len(), round);
            lemma_rerouted_cargo(
                Routed { nodes: woken, maps: g.state.nodes },
                fleet,
                params,
                awake,
                awake.len(),
            );
        },
    }
}

proof fn lemma_awake_same(a: Seq<NodeModel>, b: Seq<NodeModel>, k: nat, round: u64)
    requires
        k <= a.len(),
        a.len() == b.len(),
        forall|i: int|
            0 <= i < a.len() ==> (#[trigger] b[i]).next_beacon_round == a[i].next_beacon_round,
    ensures
        beacon::awake_of(a, k, round) == beacon::awake_of(b, k, round),
    decreases k,
{
    if k > 0 {
        lemma_awake_same(a, b, (k - 1) as nat, round);
        assert(b[k - 1].next_beacon_round == a[k - 1].next_beacon_round);
    }
}

// ---------------------------------------------------------------------------
// Bounds
// ---------------------------------------------------------------------------

/// Nodes among the first `k` that still wait to hear.
pub open spec fn waiting(nodes: Seq<NodeModel>, k: nat) -> nat
    decreases k,
{
    if k == 0 {
        0
    } else {
        waiting(nodes, (k - 1) as nat) + (if nodes[k - 1].outstanding matches Some(o) && o.state
            == AckState::Pending {
            1nat
        } else {
            0nat
        })
    }
}

proof fn lemma_waiting_told(nodes: Seq<NodeModel>, k: nat, i: int, seq: u64)
    requires
        0 <= i < nodes.len(),
        k <= nodes.len(),
        bundle_round::awaits(nodes[i], seq),
    ensures
        waiting(nodes.update(i, bundle_round::told(nodes[i], seq)), k) == waiting(nodes, k) - (
        if i < k {
            1int
        } else {
            0int
        }),
    decreases k,
{
    if k > 0 {
        lemma_waiting_told(nodes, (k - 1) as nat, i, seq);
    }
}

/// Where a node waits, somebody does.
pub(crate) proof fn lemma_waiting_positive(nodes: Seq<NodeModel>, i: int)
    requires
        0 <= i < nodes.len(),
    ensures
        nodes[i].outstanding matches Some(o) && o.state == AckState::Pending ==> waiting(
            nodes,
            nodes.len(),
        ) > 0,
{
    lemma_waiting_grows(nodes, (i + 1) as nat, nodes.len());
}

proof fn lemma_waiting_grows(nodes: Seq<NodeModel>, a: nat, b: nat)
    requires
        a <= b,
    ensures
        waiting(nodes, a) <= waiting(nodes, b),
    decreases b - a,
{
    if a < b {
        lemma_waiting_grows(nodes, a, (b - 1) as nat);
    }
}

pub(crate) proof fn lemma_waiting_bound(nodes: Seq<NodeModel>, k: nat)
    ensures
        waiting(nodes, k) <= k,
    decreases k,
{
    if k > 0 {
        lemma_waiting_bound(nodes, (k - 1) as nat);
    }
}

/// Learning of deliveries moves no cargo, and counts at most once per node.
pub(crate) proof fn lemma_acknowledged(m: DvModel, acks: Seq<DigestAck>, round: u64, k: nat)
    requires
        k <= acks.len(),
        forall|j: int| 0 <= j < acks.len() ==> (#[trigger] acks[j]).node < m.nodes.len(),
    ensures
        ({
            let a = acknowledged(m, acks, round, k);
            &&& same_cargo(m.nodes, a.nodes)
            &&& m.tally.grown(a.tally, m.nodes.len() as int)
            &&& a.tally.acked + waiting(a.nodes, a.nodes.len()) == m.tally.acked + waiting(
                m.nodes,
                m.nodes.len(),
            )
            &&& a.towers == m.towers
            &&& a.aodv == m.aodv
            &&& a.linkstate == m.linkstate
        }),
    decreases k,
{
    lemma_waiting_bound(m.nodes, m.nodes.len());
    if k > 0 {
        lemma_acknowledged(m, acks, round, (k - 1) as nat);
        let before = acknowledged(m, acks, round, (k - 1) as nat);
        let i = acks[k - 1].node as int;
        assert(acks[k - 1].node < m.nodes.len());
        if bundle_round::awaits(before.nodes[i], acks[k - 1].seq) {
            lemma_waiting_told(before.nodes, before.nodes.len(), i, acks[k - 1].seq);
            bundle_order::lemma_told_tame(
                before.nodes[i],
                acks[k - 1].seq,
                super::params::default_params(),
            );
        }
        lemma_waiting_bound(before.nodes, before.nodes.len());
    }
}

proof fn lemma_queued_grows(nodes: Seq<NodeModel>, a: nat, b: nat)
    requires
        a <= b,
    ensures
        bundle_round::queued(nodes, a) <= bundle_round::queued(nodes, b),
    decreases b - a,
{
    if a < b {
        lemma_queued_grows(nodes, a, (b - 1) as nat);
    }
}

proof fn lemma_slot_load(nodes: Seq<NodeModel>, awake: Seq<usize>, k: nat)
    requires
        k <= awake.len(),
        linkstate::rising(awake, nodes.len()),
    ensures
        k <= nodes.len(),
        k > 0 ==> k <= awake[k - 1] + 1,
        bundle_round::slot_load(nodes, awake, k) <= bundle_round::queued(nodes, nodes.len()) + 2
            * k,
        k > 0 ==> bundle_round::slot_load(nodes, awake, k) <= bundle_round::queued(
            nodes,
            (awake[k - 1] + 1) as nat,
        ) + 2 * k,
    decreases k,
{
    if k > 0 {
        lemma_slot_load(nodes, awake, (k - 1) as nat);
        assert(awake[k - 1] < nodes.len());
        if k > 1 {
            assert(awake[k - 2] < awake[k - 1]);
            lemma_queued_grows(nodes, (awake[k - 2] + 1) as nat, awake[k - 1] as nat);
        }
        lemma_queued_grows(nodes, (awake[k - 1] + 1) as nat, nodes.len());
    }
}

pub(crate) proof fn lemma_cargo_sums(a: Seq<NodeModel>, b: Seq<NodeModel>, k: nat)
    requires
        same_cargo(a, b),
        k <= a.len(),
    ensures
        bundle_round::queued(a, k) == bundle_round::queued(b, k),
        bundle_round::acks_held(a, k) == bundle_round::acks_held(b, k),
    decreases k,
{
    if k > 0 {
        lemma_cargo_sums(a, b, (k - 1) as nat);
        assert(b[k - 1].queue == a[k - 1].queue);
    }
}

/// What fits before discovery fits after it.
pub(crate) proof fn lemma_delivery_fits(
    before: Seq<NodeModel>,
    tally: Tally,
    a: DvModel,
    params: DvDtnParams,
    awake: Seq<usize>,
    round: u64,
)
    requires
        same_cargo(before, a.nodes),
        tally.grown(a.tally, before.len() as int),
        tally.room(load(before) as int),
        linkstate::rising(awake, before.len()),
        forall|i: int|
            0 <= i < before.len() ==> (#[trigger] before[i]).bundle_seq + before.len() <= u64::MAX,
        round + params.bundle_interval_rounds <= u64::MAX,
    ensures
        bundle_round::round_fits(to_deliver(a), params, awake, round),
{
    lemma_cargo_sums(before, a.nodes, before.len());
    lemma_slot_load(a.nodes, awake, awake.len());
    assert forall|i: int| 0 <= i < a.nodes.len() implies (#[trigger] a.nodes[i]).bundle_seq
        + awake.len() <= u64::MAX by {
        assert(before[i].bundle_seq + before.len() <= u64::MAX);
    }
}

/// Those who hear of a delivery are nodes that are there.
pub(crate) proof fn lemma_ack_nodes(
    r: Reception,
    fleet: Seq<Balloon>,
    params: DvDtnParams,
    round: u64,
    offers: Seq<OfferModel>,
    k: nat,
)
    requires
        r.nodes.len() <= usize::MAX,
        forall|j: int| 0 <= j < r.acks.len() ==> (#[trigger] r.acks[j]).node < r.nodes.len(),
    ensures
        ({
            let after = beacon::all_received(r, fleet, params, round, offers, k);
            &&& after.nodes.len() == r.nodes.len()
            &&& forall|j: int|
                0 <= j < after.acks.len() ==> (#[trigger] after.acks[j]).node < r.nodes.len()
        }),
    decreases k,
{
    if k > 0 {
        lemma_ack_nodes(r, fleet, params, round, offers, (k - 1) as nat);
    }
}

} // verus!
