//! Decentralized connectivity discovery.
//!
//! A balloon is never told whether it can reach a tower. Towers flood
//! hop-counted beacons; a balloon that hears one records a belief and repeats
//! it one hop further on its own wake slot. Beliefs expire by the age of the
//! news.
use std::collections::{HashMap, VecDeque};

use rand::rngs::StdRng;
use vstd::prelude::*;

use crate::balloon::Balloon;
use crate::chance;
use crate::link_detection::NodeKey;
use crate::mesh_adjacency::{MeshAdjacency, Topology};
use crate::tower::Tower;

use super::bundle;
use super::bundle::AckState;
use super::params::{AckPolicy, DvDtnParams, Metric};
use super::{DvNode, NodeModel};

verus! {

broadcast use vstd::std_specs::hash::group_hash_axioms;

/// What one balloon currently thinks it knows about reaching the ground.
#[derive(Debug, Clone, Copy, PartialEq, Eq, Structural)]
pub struct RouteBelief {
    pub tower_id: u32,
    pub hop_count: u32,
    /// Balloon this was heard from. `None` means the tower itself.
    pub next_hop: Option<u32>,
    /// Which beacon wave this came from.
    pub epoch: u64,
    /// Round the tower emitted this wave. Relays copy it verbatim.
    pub emitted_at_round: u64,
}

/// Whether the news of a belief is older than it may be.
pub open spec fn expired(b: RouteBelief, round: u64, max_age: u64) -> bool {
    bundle::rounds_since(b.emitted_at_round, round) > max_age
}

impl RouteBelief {
    /// Expiry is by age of the news, not by how recently it was repeated.
    pub fn is_expired(&self, round: u64, max_age: u64) -> (r: bool)
        ensures
            r == expired(*self, round, max_age),
    {
        round.saturating_sub(self.emitted_at_round) > max_age
    }

    pub fn age(&self, round: u64) -> (r: u64)
        ensures
            r == bundle::rounds_since(self.emitted_at_round, round),
    {
        round.saturating_sub(self.emitted_at_round)
    }
}

/// Whether an offer is better than a belief held.
pub open spec fn better(cur: RouteBelief, new: RouteBelief, metric: Metric) -> bool {
    match metric {
        Metric::NearestFirst => new.hop_count < cur.hop_count || (new.hop_count == cur.hop_count
            && new.emitted_at_round > cur.emitted_at_round),
        Metric::FreshestFirst => new.emitted_at_round > cur.emitted_at_round || (
        new.emitted_at_round == cur.emitted_at_round && new.hop_count < cur.hop_count),
    }
}

/// Whether an offer should replace what is held, if anything.
pub open spec fn adoptable(cur: Option<RouteBelief>, new: RouteBelief, metric: Metric) -> bool {
    match cur {
        None => true,
        Some(c) => better(c, new, metric),
    }
}

/// Should `new` replace `cur`? An offer that does not improve the belief is
/// dropped rather than relayed.
pub fn should_adopt(cur: Option<&RouteBelief>, new: &RouteBelief, params: &DvDtnParams) -> (r: bool)
    ensures
        r == adoptable(
            match cur {
                Some(c) => Some(*c),
                None => None,
            },
            *new,
            params.metric,
        ),
{
    match cur {
        None => true,
        Some(c) => {
            if params.metric == Metric::NearestFirst {
                return new.hop_count < c.hop_count || (new.hop_count == c.hop_count
                    && new.emitted_at_round > c.emitted_at_round);
            }
            if new.emitted_at_round != c.emitted_at_round {
                return new.emitted_at_round > c.emitted_at_round;
            }
            new.hop_count < c.hop_count
        },
    }
}

// ---------------------------------------------------------------------------
// The duty cycle
// ---------------------------------------------------------------------------

/// The next wake slot for a draw between nothing and twice the jitter: the
/// interval, moved by the draw less the jitter, and at least one round.
pub open spec fn slot_after(round: u64, interval: u64, jitter: u64, draw: u64) -> u64 {
    let gap = interval + draw - jitter;
    (round + (if gap < 1 {
        1
    } else {
        gap
    })) as u64
}

/// Whether the next wake slots can be dated.
pub open spec fn schedule_fits(round: u64, interval: u64, jitter: u64) -> bool {
    &&& interval + 2 * jitter <= i64::MAX
    &&& round + interval + jitter + 1 <= u64::MAX
}

/// The next wake slot for a given draw.
pub fn next_slot_for(round: u64, interval: u64, jitter: u64, draw: u64) -> (r: u64)
    requires
        schedule_fits(round, interval, jitter),
        draw <= 2 * jitter,
    ensures
        r == slot_after(round, interval, jitter, draw),
{
    let reach: u64 = interval + draw;
    if reach > jitter {
        round + (reach - jitter)
    } else {
        round + 1
    }
}

/// Randomized initial beacon phase, so the fleet does not transmit in unison.
pub fn initial_slot(params: &DvDtnParams, rng: &mut StdRng) -> (r: u64)
    requires
        params.beacon_interval_rounds > 0,
    ensures
        r < params.beacon_interval_rounds,
{
    chance::draw_up_to(rng, params.beacon_interval_rounds - 1)
}

/// Whether every draw lies between nothing and twice the jitter.
pub open spec fn drawn(draws: Seq<u64>, jitter: u64) -> bool {
    forall|k: int| 0 <= k < draws.len() ==> #[trigger] draws[k] <= 2 * jitter
}

/// The nodes among the first `k` whose wake slot has come.
pub open spec fn awake_of(nodes: Seq<NodeModel>, k: nat, round: u64) -> Seq<usize>
    decreases k,
{
    if k == 0 {
        Seq::empty()
    } else {
        let before = awake_of(nodes, (k - 1) as nat, round);
        if round >= nodes[k - 1].next_beacon_round {
            before.push((k - 1) as usize)
        } else {
            before
        }
    }
}

/// A node after its wake slot came up, or not.
pub open spec fn rescheduled(n: NodeModel, params: DvDtnParams, round: u64, draw: u64) -> NodeModel {
    if round >= n.next_beacon_round {
        NodeModel {
            next_beacon_round: slot_after(
                round,
                params.beacon_interval_rounds,
                params.beacon_jitter_rounds,
                draw,
            ),
            ..n
        }
    } else {
        n
    }
}

/// Draws a jitter for each node whose wake slot has come, in order.
pub fn draw_for_nodes(
    nodes: &Vec<DvNode>,
    params: &DvDtnParams,
    round: u64,
    rng: &mut StdRng,
) -> (draws: Vec<u64>)
    requires
        2 * params.beacon_jitter_rounds <= u64::MAX,
    ensures
        draws@.len() == nodes@.len(),
        drawn(draws@, params.beacon_jitter_rounds),
{
    let mut draws: Vec<u64> = Vec::new();
    while draws.len() < nodes.len()
        invariant
            draws@.len() <= nodes@.len(),
            drawn(draws@, params.beacon_jitter_rounds),
            2 * params.beacon_jitter_rounds <= u64::MAX,
        decreases nodes@.len() - draws@.len(),
    {
        let i: usize = draws.len();
        let draw: u64 = if round >= nodes[i].next_beacon_round {
            chance::draw_up_to(rng, 2 * params.beacon_jitter_rounds)
        } else {
            0
        };
        draws.push(draw);
    }
    draws
}

/// The balloons that wake this round, each moved on to its next slot.
pub fn wake(
    nodes: &mut Vec<DvNode>,
    params: &DvDtnParams,
    round: u64,
    draws: &Vec<u64>,
) -> (awake: Vec<usize>)
    requires
        draws@.len() == old(nodes)@.len(),
        drawn(draws@, params.beacon_jitter_rounds),
        schedule_fits(round, params.beacon_interval_rounds, params.beacon_jitter_rounds),
    ensures
        awake@ == awake_of(super::models(old(nodes)@), old(nodes)@.len(), round),
        super::models(final(nodes)@) == Seq::new(
            old(nodes)@.len(),
            |i: int| rescheduled(super::models(old(nodes)@)[i], *params, round, draws@[i]),
        ),
        final(nodes)@.len() == old(nodes)@.len(),
        forall|j: int| 0 <= j < awake@.len() ==> (#[trigger] awake@[j]) < old(nodes)@.len(),
{
    let ghost before = super::models(nodes@);
    let mut awake: Vec<usize> = Vec::new();
    let mut i: usize = 0;
    while i < nodes.len()
        invariant
            i <= nodes@.len(),
            nodes@.len() == before.len(),
            draws@.len() == before.len(),
            drawn(draws@, params.beacon_jitter_rounds),
            schedule_fits(round, params.beacon_interval_rounds, params.beacon_jitter_rounds),
            awake@ == awake_of(before, i as nat, round),
            forall|j: int| 0 <= j < awake@.len() ==> (#[trigger] awake@[j]) < i,
            forall|j: int|
                0 <= j < i ==> (#[trigger] nodes@[j])@ == rescheduled(
                    before[j],
                    *params,
                    round,
                    draws@[j],
                ),
            forall|j: int| i <= j < before.len() ==> (#[trigger] nodes@[j])@ == before[j],
        decreases nodes@.len() - i,
    {
        let ghost held = nodes@;
        if round >= nodes[i].next_beacon_round {
            assert(draws@[i as int] <= 2 * params.beacon_jitter_rounds);
            let next: u64 = next_slot_for(
                round,
                params.beacon_interval_rounds,
                params.beacon_jitter_rounds,
                draws[i],
            );
            nodes[i].next_beacon_round = next;
            awake.push(i);
        }
        i = i + 1;
    }
    assert(super::models(nodes@) =~~= Seq::new(
        before.len(),
        |i: int| rescheduled(before[i], *params, round, draws@[i]),
    ));
    awake
}

// ---------------------------------------------------------------------------
// Waves
// ---------------------------------------------------------------------------

/// A tower's beacon scheduling state.
#[derive(Debug)]
pub struct TowerBeacon {
    /// Wave counter, incremented per transmission.
    pub epoch: u64,
    /// Next comms round this tower emits.
    pub next_round: u64,
    /// Deliveries this tower has taken, oldest first: origin, sequence number
    /// and the round it was taken on.
    pub recent: VecDeque<(u32, u64, u64)>,
}

/// The mathematical content of a `TowerBeacon`.
#[verifier::ext_equal]
pub struct TowerModel {
    pub epoch: u64,
    pub next_round: u64,
    pub recent: Seq<(u32, u64, u64)>,
}

impl View for TowerBeacon {
    type V = TowerModel;

    open spec fn view(&self) -> TowerModel {
        TowerModel { epoch: self.epoch, next_round: self.next_round, recent: self.recent@ }
    }
}

/// A tower that has not done anything yet.
pub open spec fn fresh_tower() -> TowerModel {
    TowerModel { epoch: 0, next_round: 0, recent: Seq::empty() }
}

impl Default for TowerBeacon {
    fn default() -> (r: TowerBeacon)
        ensures
            r@ == fresh_tower(),
    {
        let r: TowerBeacon = TowerBeacon { epoch: 0, next_round: 0, recent: VecDeque::new() };
        assert(r@ =~~= fresh_tower());
        r
    }
}

/// The models of a table of towers.
pub open spec fn tower_models(m: Map<u32, TowerBeacon>) -> Map<u32, TowerModel> {
    m.map_values(|t: TowerBeacon| t@)
}

/// The state of a tower, fresh if there is none yet.
pub open spec fn tower_state_of(towers: Map<u32, TowerModel>, id: u32) -> TowerModel {
    if towers.contains_key(id) {
        towers[id]
    } else {
        fresh_tower()
    }
}

/// One beacon transmission from this round. `from` is the node whose radio
/// carried the offer.
#[derive(Debug, Clone, Copy, PartialEq, Eq, Structural)]
pub struct BeaconHop {
    pub from: NodeKey,
    pub to_balloon: usize,
    pub tower_id: u32,
    pub hop_count: u32,
    pub epoch: u64,
}

/// An origin learning, from a digest that reached it, that its bundle landed.
#[derive(Debug, Clone, Copy, PartialEq, Eq, Structural)]
pub struct DigestAck {
    pub node: usize,
    pub seq: u64,
}

pub struct BeaconStepResult {
    /// Balloons that woke and transmitted this round.
    pub awake: Vec<usize>,
    /// Every offer made this round.
    pub hops: Vec<BeaconHop>,
    /// Origins that heard their own delivery announced.
    pub digest_acks: Vec<DigestAck>,
}

/// An offer of a route to a balloon, with the deliveries announced alongside.
#[verifier::ext_equal]
pub struct OfferModel {
    pub to: int,
    pub belief: RouteBelief,
    pub digest: Seq<(u32, u64)>,
}

/// The deliveries announced from the first `k` a tower has taken: newest first,
/// none older than `max_age`, at most `limit`.
pub open spec fn announced(
    recent: Seq<(u32, u64, u64)>,
    k: nat,
    round: u64,
    max_age: u64,
    limit: nat,
) -> Seq<(u32, u64)>
    decreases k,
{
    if k == 0 || limit == 0 {
        Seq::empty()
    } else {
        let e = recent[k - 1];
        if bundle::rounds_since(e.2, round) <= max_age {
            seq![(e.0, e.1)] + announced(
                recent,
                (k - 1) as nat,
                round,
                max_age,
                (limit - 1) as nat,
            )
        } else {
            announced(recent, (k - 1) as nat, round, max_age, limit)
        }
    }
}

/// The belief a tower's own beacon carries.
pub open spec fn first_hand(tower_id: u32, epoch: u64, round: u64) -> RouteBelief {
    RouteBelief { tower_id, hop_count: 1, next_hop: None, epoch, emitted_at_round: round }
}

/// The belief a balloon repeats: one hop longer, through itself, no newer.
pub open spec fn relayed(b: RouteBelief, id: u32) -> RouteBelief {
    RouteBelief { hop_count: (b.hop_count + 1) as u32, next_hop: Some(id), ..b }
}

/// The same offer to each of a list of balloons.
pub open spec fn offers_to(
    list: Seq<u32>,
    belief: RouteBelief,
    digest: Seq<(u32, u64)>,
) -> Seq<OfferModel> {
    Seq::new(list.len(), |j: int| OfferModel { to: list[j] as int, belief, digest })
}

/// The transmission to each of a list of balloons.
pub open spec fn hops_to(list: Seq<u32>, from: NodeKey, belief: RouteBelief) -> Seq<BeaconHop> {
    Seq::new(
        list.len(),
        |j: int|
            BeaconHop {
                from,
                to_balloon: list[j] as usize,
                tower_id: belief.tower_id,
                hop_count: belief.hop_count,
                epoch: belief.epoch,
            },
    )
}

/// This round's offers as they are gathered.
#[verifier::ext_equal]
pub struct Waves {
    pub towers: Map<u32, TowerModel>,
    pub offers: Seq<OfferModel>,
    pub hops: Seq<BeaconHop>,
}

/// The tower at a slot emits a wave if its time has come.
pub open spec fn tower_wave(
    w: Waves,
    towers: Seq<Tower>,
    topo: Topology,
    params: DvDtnParams,
    round: u64,
    slot: int,
    draw: u64,
) -> Waves {
    let id = towers[slot].id;
    let t = tower_state_of(w.towers, id);
    if round < t.next_round {
        Waves { towers: w.towers.insert(id, t), ..w }
    } else {
        let sent = TowerModel {
            epoch: (t.epoch + 1) as u64,
            next_round: slot_after(
                round,
                params.beacon_interval_rounds,
                params.beacon_jitter_rounds,
                draw,
            ),
            ..t
        };
        let digest = if params.ack_policy == AckPolicy::Digest {
            announced(
                t.recent,
                t.recent.len(),
                round,
                params.belief_max_age_rounds,
                params.ack_digest_entries as nat,
            )
        } else {
            Seq::empty()
        };
        let belief = first_hand(id, sent.epoch, round);
        let list = topo.tower_neighbors_of(slot);
        Waves {
            towers: w.towers.insert(id, sent),
            offers: w.offers + offers_to(list, belief, digest),
            hops: w.hops + hops_to(list, NodeKey::Tower(id), belief),
        }
    }
}

pub open spec fn tower_waves(
    w: Waves,
    towers: Seq<Tower>,
    topo: Topology,
    params: DvDtnParams,
    round: u64,
    draws: Seq<u64>,
    k: nat,
) -> Waves
    decreases k,
{
    if k == 0 {
        w
    } else {
        tower_wave(
            tower_waves(w, towers, topo, params, round, draws, (k - 1) as nat),
            towers,
            topo,
            params,
            round,
            k - 1,
            draws[k - 1],
        )
    }
}

/// Node `i` repeats its belief if its slot has come, it has one, and the
/// belief may still travel.
pub open spec fn relay(
    w: Waves,
    nodes: Seq<NodeModel>,
    fleet: Seq<Balloon>,
    topo: Topology,
    params: DvDtnParams,
    round: u64,
    i: int,
) -> Waves {
    let n = nodes[i];
    match n.belief {
        Some(b) => if round >= n.next_beacon_round && b.hop_count < params.beacon_max_hops {
            let id = fleet[i].id;
            let digest = if params.ack_policy == AckPolicy::Digest {
                n.ack_digest
            } else {
                Seq::empty()
            };
            let list = topo.neighbors_of(i);
            Waves {
                offers: w.offers + offers_to(list, relayed(b, id), digest),
                hops: w.hops + hops_to(list, NodeKey::Balloon(id), relayed(b, id)),
                ..w
            }
        } else {
            w
        },
        None => w,
    }
}

pub open spec fn relays(
    w: Waves,
    nodes: Seq<NodeModel>,
    fleet: Seq<Balloon>,
    topo: Topology,
    params: DvDtnParams,
    round: u64,
    k: nat,
) -> Waves
    decreases k,
{
    if k == 0 {
        w
    } else {
        relay(
            relays(w, nodes, fleet, topo, params, round, (k - 1) as nat),
            nodes,
            fleet,
            topo,
            params,
            round,
            k - 1,
        )
    }
}

/// Balloons as the offers reach them.
#[verifier::ext_equal]
pub struct Reception {
    pub nodes: Seq<NodeModel>,
    pub acks: Seq<DigestAck>,
}

/// Whether a balloon hears its own pending bundle announced.
pub open spec fn hears_delivery(n: NodeModel, id: u32, digest: Seq<(u32, u64)>) -> bool {
    n.outstanding matches Some(o) && o.state == AckState::Pending && digest.contains((id, o.seq))
}

/// Whether a balloon takes a route that it is offered: not one through itself,
/// not one too old, only a better one.
pub open spec fn takes_offer(
    n: NodeModel,
    id: u32,
    belief: RouteBelief,
    params: DvDtnParams,
    round: u64,
) -> bool {
    &&& belief.next_hop != Some(id)
    &&& !expired(belief, round, params.belief_max_age_rounds)
    &&& adoptable(n.belief, belief, params.metric)
}

/// An offer reaches a balloon.
pub open spec fn received(
    r: Reception,
    fleet: Seq<Balloon>,
    params: DvDtnParams,
    round: u64,
    o: OfferModel,
) -> Reception {
    if 0 <= o.to < fleet.len() && o.to < r.nodes.len() {
        let n = r.nodes[o.to];
        let id = fleet[o.to].id;
        let digest_on = params.ack_policy == AckPolicy::Digest;
        Reception {
            acks: if digest_on && hears_delivery(n, id, o.digest) {
                r.acks.push(DigestAck { node: o.to as usize, seq: n.outstanding->Some_0.seq })
            } else {
                r.acks
            },
            nodes: if takes_offer(n, id, o.belief, params, round) {
                r.nodes.update(
                    o.to,
                    NodeModel {
                        belief: Some(o.belief),
                        ack_digest: if digest_on {
                            o.digest
                        } else {
                            n.ack_digest
                        },
                        ..n
                    },
                )
            } else {
                r.nodes
            },
        }
    } else {
        r
    }
}

pub open spec fn all_received(
    r: Reception,
    fleet: Seq<Balloon>,
    params: DvDtnParams,
    round: u64,
    offers: Seq<OfferModel>,
    k: nat,
) -> Reception
    decreases k,
{
    if k == 0 {
        r
    } else {
        received(
            all_received(r, fleet, params, round, offers, (k - 1) as nat),
            fleet,
            params,
            round,
            offers[k - 1],
        )
    }
}

/// A node without a belief that has grown too old.
pub open spec fn forgetful(n: NodeModel, round: u64, max_age: u64) -> NodeModel {
    match n.belief {
        Some(b) => if expired(b, round, max_age) {
            NodeModel { belief: None, ..n }
        } else {
            n
        },
        None => n,
    }
}

pub open spec fn all_forgetful(nodes: Seq<NodeModel>, round: u64, max_age: u64) -> Seq<NodeModel> {
    Seq::new(nodes.len(), |i: int| forgetful(nodes[i], round, max_age))
}

pub open spec fn all_rescheduled(
    nodes: Seq<NodeModel>,
    params: DvDtnParams,
    round: u64,
    draws: Seq<u64>,
) -> Seq<NodeModel> {
    Seq::new(nodes.len(), |i: int| rescheduled(nodes[i], params, round, draws[i]))
}

/// What a round of discovery leaves.
#[verifier::ext_equal]
pub struct BeaconOutcome {
    pub nodes: Seq<NodeModel>,
    pub towers: Map<u32, TowerModel>,
    pub awake: Seq<usize>,
    pub hops: Seq<BeaconHop>,
    pub acks: Seq<DigestAck>,
}

/// The offers of a round, gathered before any is received.
pub open spec fn waves_of(
    nodes: Seq<NodeModel>,
    fleet: Seq<Balloon>,
    tower_state: Map<u32, TowerModel>,
    towers: Seq<Tower>,
    topo: Topology,
    params: DvDtnParams,
    round: u64,
    tower_draws: Seq<u64>,
) -> Waves {
    relays(
        tower_waves(
            Waves { towers: tower_state, offers: Seq::empty(), hops: Seq::empty() },
            towers,
            topo,
            params,
            round,
            tower_draws,
            towers.len(),
        ),
        nodes,
        fleet,
        topo,
        params,
        round,
        nodes.len(),
    )
}

/// One comms round of discovery, for given jitter draws.
pub open spec fn beacon_round(
    nodes: Seq<NodeModel>,
    fleet: Seq<Balloon>,
    tower_state: Map<u32, TowerModel>,
    towers: Seq<Tower>,
    topo: Topology,
    params: DvDtnParams,
    round: u64,
    tower_draws: Seq<u64>,
    node_draws: Seq<u64>,
) -> BeaconOutcome {
    let live = all_forgetful(nodes, round, params.belief_max_age_rounds);
    let w = waves_of(live, fleet, tower_state, towers, topo, params, round, tower_draws);
    let r = all_received(
        Reception {
            nodes: all_rescheduled(live, params, round, node_draws),
            acks: Seq::empty(),
        },
        fleet,
        params,
        round,
        w.offers,
        w.offers.len(),
    );
    BeaconOutcome {
        nodes: r.nodes,
        towers: w.towers,
        awake: awake_of(live, live.len(), round),
        hops: w.hops,
        acks: r.acks,
    }
}

// ---------------------------------------------------------------------------
// Running a round
// ---------------------------------------------------------------------------

/// Drops beliefs that have grown too old.
pub fn forget(nodes: &mut Vec<DvNode>, round: u64, max_age: u64)
    ensures
        super::models(final(nodes)@) == all_forgetful(super::models(old(nodes)@), round, max_age),
        final(nodes)@.len() == old(nodes)@.len(),
{
    let ghost before = super::models(nodes@);
    let mut i: usize = 0;
    while i < nodes.len()
        invariant
            i <= nodes@.len(),
            nodes@.len() == before.len(),
            forall|j: int|
                0 <= j < i ==> (#[trigger] nodes@[j])@ == forgetful(before[j], round, max_age),
            forall|j: int| i <= j < before.len() ==> (#[trigger] nodes@[j])@ == before[j],
        decreases nodes@.len() - i,
    {
        if let Some(b) = nodes[i].belief {
            if b.is_expired(round, max_age) {
                nodes[i].belief = None;
            }
        }
        i = i + 1;
    }
    assert(super::models(nodes@) =~~= all_forgetful(before, round, max_age));
}

/// The deliveries a tower announces.
fn announce(
    recent: &VecDeque<(u32, u64, u64)>,
    round: u64,
    max_age: u64,
    limit: usize,
) -> (r: Vec<(u32, u64)>)
    ensures
        r@ == announced(recent@, recent@.len(), round, max_age, limit as nat),
{
    let mut r: Vec<(u32, u64)> = Vec::new();
    let mut k: usize = recent.len();
    let ghost all = announced(recent@, recent@.len(), round, max_age, limit as nat);
    assert(all =~= r@ + announced(recent@, k as nat, round, max_age, (limit - r@.len()) as nat));
    while k > 0 && r.len() < limit
        invariant
            k <= recent@.len(),
            r@.len() <= limit,
            all == r@ + announced(
                recent@,
                k as nat,
                round,
                max_age,
                (limit - r@.len()) as nat,
            ),
        decreases k,
    {
        let (origin, seq, at) = recent[k - 1];
        let ghost before = r@;
        if round.saturating_sub(at) <= max_age {
            r.push((origin, seq));
            assert(before + (seq![(origin, seq)] + announced(
                recent@,
                (k - 1) as nat,
                round,
                max_age,
                (limit - r@.len()) as nat,
            )) =~= r@ + announced(
                recent@,
                (k - 1) as nat,
                round,
                max_age,
                (limit - r@.len()) as nat,
            ));
        }
        k = k - 1;
    }
    assert(all =~= r@);
    r
}

/// An offer, with its digest by index.
struct Offer {
    to: usize,
    belief: RouteBelief,
    digest: usize,
}

/// Offers and transmissions as they are gathered.
struct Gathered {
    offers: Vec<Offer>,
    digests: Vec<Vec<(u32, u64)>>,
    hops: Vec<BeaconHop>,
}

impl Gathered {
    spec fn shown(&self) -> Seq<OfferModel> {
        self.offers@.map_values(
            |o: Offer|
                OfferModel {
                    to: o.to as int,
                    belief: o.belief,
                    digest: self.digests@[o.digest as int]@,
                },
        )
    }

    spec fn ok(&self) -> bool {
        forall|j: int|
            0 <= j < self.offers@.len() ==> (#[trigger] self.offers@[j]).digest
                < self.digests@.len()
    }

    /// The same belief and digest are offered to each of a list of balloons.
    fn offer_all(
        &mut self,
        list: &[u32],
        from: NodeKey,
        belief: RouteBelief,
        digest: Vec<(u32, u64)>,
    )
        requires
            old(self).ok(),
        ensures
            final(self).ok(),
            final(self).shown() == old(self).shown() + offers_to(list@, belief, digest@),
            final(self).hops@ == old(self).hops@ + hops_to(list@, from, belief),
    {
        let ghost shown0 = self.shown();
        let ghost hops0 = self.hops@;
        let ghost said = digest@;
        let d: usize = self.digests.len();
        self.digests.push(digest);
        assert(self.shown() =~~= shown0 + offers_to(list@, belief, said).take(0));
        assert(self.hops@ =~= hops0 + hops_to(list@, from, belief).take(0));
        let mut k: usize = 0;
        while k < list.len()
            invariant
                k <= list@.len(),
                self.ok(),
                d < self.digests@.len(),
                self.digests@[d as int]@ == said,
                self.shown() == shown0 + offers_to(list@, belief, said).take(k as int),
                self.hops@ == hops0 + hops_to(list@, from, belief).take(k as int),
            decreases list@.len() - k,
        {
            let to: usize = list[k] as usize;
            let ghost before = self.shown();
            self.hops.push(
                BeaconHop {
                    from,
                    to_balloon: to,
                    tower_id: belief.tower_id,
                    hop_count: belief.hop_count,
                    epoch: belief.epoch,
                },
            );
            self.offers.push(Offer { to, belief, digest: d });
            assert(self.shown() =~= before.push(
                OfferModel { to: list@[k as int] as int, belief, digest: said },
            ));
            assert(self.shown() =~~= shown0 + offers_to(list@, belief, said).take(k + 1));
            assert(self.hops@ =~= hops0 + hops_to(list@, from, belief).take(k + 1));
            k = k + 1;
        }
        assert(offers_to(list@, belief, said).take(k as int) =~= offers_to(list@, belief, said));
        assert(hops_to(list@, from, belief).take(k as int) =~= hops_to(list@, from, belief));
    }
}

/// Whether every wave counter has room for `k` more waves.
pub open spec fn waves_fit(towers: Map<u32, TowerModel>, k: nat) -> bool {
    &&& k <= u64::MAX
    &&& forall|id: u32|
        towers.contains_key(id) ==> (#[trigger] towers[id]).epoch + k <= u64::MAX
}

/// The tower at a slot emits a wave if its time has come.
fn emit_wave(
    g: &mut Gathered,
    tower_state: &mut HashMap<u32, TowerBeacon>,
    tower: &Tower,
    slot: usize,
    adj: &MeshAdjacency,
    params: &DvDtnParams,
    round: u64,
    draw: u64,
    Ghost(towers): Ghost<Seq<Tower>>,
    Ghost(left): Ghost<nat>,
)
    requires
        old(g).ok(),
        slot < towers.len(),
        towers[slot as int] == *tower,
        draw <= 2 * params.beacon_jitter_rounds,
        schedule_fits(round, params.beacon_interval_rounds, params.beacon_jitter_rounds),
        left > 0,
        waves_fit(tower_models(old(tower_state)@), left),
    ensures
        final(g).ok(),
        (Waves {
            towers: tower_models(final(tower_state)@),
            offers: final(g).shown(),
            hops: final(g).hops@,
        }) == tower_wave(
            (Waves {
                towers: tower_models(old(tower_state)@),
                offers: old(g).shown(),
                hops: old(g).hops@,
            }),
            towers,
            adj@,
            *params,
            round,
            slot as int,
            draw,
        ),
        waves_fit(tower_models(final(tower_state)@), (left - 1) as nat),
{
    let ghost before = tower_models(tower_state@);
    let ghost w0 = Waves { towers: before, offers: g.shown(), hops: g.hops@ };
    let id: u32 = tower.id;
    let mut t: TowerBeacon = match tower_state.remove(&id) {
        Some(t) => t,
        None => TowerBeacon::default(),
    };
    assert(t@ == tower_state_of(before, id));
    let ghost t0 = t@;
    if round < t.next_round {
        let _ = tower_state.insert(id, t);
        assert(tower_models(tower_state@) =~= before.insert(id, t0));
        return;
    }
    t.next_round = next_slot_for(
        round,
        params.beacon_interval_rounds,
        params.beacon_jitter_rounds,
        draw,
    );
    t.epoch = t.epoch + 1;
    let epoch: u64 = t.epoch;
    let digest: Vec<(u32, u64)> = if params.ack_policy == AckPolicy::Digest {
        announce(&t.recent, round, params.belief_max_age_rounds, params.ack_digest_entries)
    } else {
        Vec::new()
    };
    assert(params.ack_policy != AckPolicy::Digest ==> digest@ =~= Seq::<(u32, u64)>::empty());
    let ghost t1 = t@;
    let _ = tower_state.insert(id, t);
    assert(tower_models(tower_state@) =~= before.insert(id, t1));
    let belief: RouteBelief = RouteBelief {
        tower_id: id,
        hop_count: 1,
        next_hop: None,
        epoch,
        emitted_at_round: round,
    };
    g.offer_all(adj.tower_neighbors(slot), NodeKey::Tower(id), belief, digest);
    assert((Waves {
        towers: tower_models(tower_state@),
        offers: g.shown(),
        hops: g.hops@,
    }) =~~= tower_wave(w0, towers, adj@, *params, round, slot as int, draw));
}

/// An offer reaches a balloon.
fn receive(
    nodes: &mut Vec<DvNode>,
    acks: &mut Vec<DigestAck>,
    balloons: &[Balloon],
    params: &DvDtnParams,
    round: u64,
    o: &Offer,
    digest: &Vec<(u32, u64)>,
)
    ensures
        (Reception { nodes: super::models(final(nodes)@), acks: final(acks)@ }) == received(
            (Reception { nodes: super::models(old(nodes)@), acks: old(acks)@ }),
            balloons@,
            *params,
            round,
            (OfferModel { to: o.to as int, belief: o.belief, digest: digest@ }),
        ),
        final(nodes)@.len() == old(nodes)@.len(),
{
    let ghost r0 = Reception { nodes: super::models(nodes@), acks: acks@ };
    let ghost om = OfferModel { to: o.to as int, belief: o.belief, digest: digest@ };
    let idx: usize = o.to;
    if idx >= balloons.len() || idx >= nodes.len() {
        return;
    }
    let id: u32 = balloons[idx].id;
    let digest_on: bool = params.ack_policy == AckPolicy::Digest;
    if digest_on {
        if let Some(out) = nodes[idx].outstanding.as_ref() {
            if out.state == AckState::Pending && lists(digest, id, out.seq) {
                acks.push(DigestAck { node: idx, seq: out.seq });
            }
        }
    }
    let own: bool = match o.belief.next_hop {
        Some(h) => h == id,
        None => false,
    };
    if !own && !o.belief.is_expired(round, params.belief_max_age_rounds) && should_adopt(
        nodes[idx].belief.as_ref(),
        &o.belief,
        params,
    ) {
        nodes[idx].belief = Some(o.belief);
        if digest_on {
            let said: Vec<(u32, u64)> = copied(digest);
            nodes[idx].ack_digest = said;
        }
    }
    assert((Reception { nodes: super::models(nodes@), acks: acks@ }) =~~= received(
        r0,
        balloons@,
        *params,
        round,
        om,
    ));
}

fn copied(d: &Vec<(u32, u64)>) -> (r: Vec<(u32, u64)>)
    ensures
        r@ == d@,
{
    let mut r: Vec<(u32, u64)> = Vec::new();
    while r.len() < d.len()
        invariant
            r@.len() <= d@.len(),
            r@ == d@.take(r@.len() as int),
        decreases d@.len() - r@.len(),
    {
        let k: usize = r.len();
        r.push(d[k]);
        assert(r@ =~= d@.take(k + 1));
    }
    assert(r@ =~= d@);
    r
}

/// Whether a digest lists a delivery.
fn lists(digest: &Vec<(u32, u64)>, id: u32, seq: u64) -> (r: bool)
    ensures
        r == digest@.contains((id, seq)),
{
    let mut k: usize = 0;
    while k < digest.len()
        invariant
            k <= digest@.len(),
            forall|j: int| 0 <= j < k ==> digest@[j] != (id, seq),
        decreases digest@.len() - k,
    {
        let (o, s) = digest[k];
        if o == id && s == seq {
            assert(digest@[k as int] == (id, seq));
            return true;
        }
        k = k + 1;
    }
    false
}

/// Advance discovery by one round, for given jitter draws: one for each tower
/// slot and one for each node, of which those are used whose time has come.
pub fn step_with(
    nodes: &mut Vec<DvNode>,
    balloons: &[Balloon],
    tower_state: &mut HashMap<u32, TowerBeacon>,
    towers: &[Tower],
    adj: &MeshAdjacency,
    params: &DvDtnParams,
    round: u64,
    tower_draws: &Vec<u64>,
    node_draws: &Vec<u64>,
) -> (r: BeaconStepResult)
    requires
        balloons@.len() >= old(nodes)@.len(),
        tower_draws@.len() == towers@.len(),
        node_draws@.len() == old(nodes)@.len(),
        drawn(tower_draws@, params.beacon_jitter_rounds),
        drawn(node_draws@, params.beacon_jitter_rounds),
        schedule_fits(round, params.beacon_interval_rounds, params.beacon_jitter_rounds),
        waves_fit(tower_models(old(tower_state)@), towers@.len()),
    ensures
        (BeaconOutcome {
            nodes: super::models(final(nodes)@),
            towers: tower_models(final(tower_state)@),
            awake: r.awake@,
            hops: r.hops@,
            acks: r.digest_acks@,
        }) == beacon_round(
            super::models(old(nodes)@),
            balloons@,
            tower_models(old(tower_state)@),
            towers@,
            adj@,
            *params,
            round,
            tower_draws@,
            node_draws@,
        ),
        final(nodes)@.len() == old(nodes)@.len(),
        forall|j: int| 0 <= j < r.awake@.len() ==> (#[trigger] r.awake@[j]) < old(nodes)@.len(),
{
    forget(nodes, round, params.belief_max_age_rounds);
    let ghost live = super::models(nodes@);
    let ghost t0 = tower_models(tower_state@);
    let ghost w0 = Waves { towers: t0, offers: Seq::empty(), hops: Seq::empty() };
    let mut g: Gathered = Gathered { offers: Vec::new(), digests: Vec::new(), hops: Vec::new() };
    assert((Waves { towers: t0, offers: g.shown(), hops: g.hops@ }) =~~= w0);
    let mut slot: usize = 0;
    while slot < towers.len()
        invariant
            slot <= towers@.len(),
            tower_draws@.len() == towers@.len(),
            drawn(tower_draws@, params.beacon_jitter_rounds),
            schedule_fits(round, params.beacon_interval_rounds, params.beacon_jitter_rounds),
            waves_fit(tower_models(tower_state@), (towers@.len() - slot) as nat),
            g.ok(),
            (Waves {
                towers: tower_models(tower_state@),
                offers: g.shown(),
                hops: g.hops@,
            }) == tower_waves(w0, towers@, adj@, *params, round, tower_draws@, slot as nat),
        decreases towers@.len() - slot,
    {
        assert(tower_draws@[slot as int] <= 2 * params.beacon_jitter_rounds);
        emit_wave(
            &mut g,
            tower_state,
            &towers[slot],
            slot,
            adj,
            params,
            round,
            tower_draws[slot],
            Ghost(towers@),
            Ghost((towers@.len() - slot) as nat),
        );
        slot = slot + 1;
    }
    let ghost w1 = tower_waves(w0, towers@, adj@, *params, round, tower_draws@, towers@.len());
    let mut i: usize = 0;
    while i < nodes.len()
        invariant
            i <= nodes@.len(),
            live == super::models(nodes@),
            balloons@.len() >= nodes@.len(),
            g.ok(),
            w1.towers == tower_models(tower_state@),
            (Waves {
                towers: tower_models(tower_state@),
                offers: g.shown(),
                hops: g.hops@,
            }) == relays(w1, live, balloons@, adj@, *params, round, i as nat),
        decreases nodes@.len() - i,
    {
        assert(live[i as int] == nodes@[i as int]@);
        if round >= nodes[i].next_beacon_round {
            if let Some(belief) = nodes[i].belief {
                if belief.hop_count < params.beacon_max_hops {
                    let id: u32 = balloons[i].id;
                    let digest: Vec<(u32, u64)> = if params.ack_policy == AckPolicy::Digest {
                        copied(&nodes[i].ack_digest)
                    } else {
                        Vec::new()
                    };
                    assert(params.ack_policy != AckPolicy::Digest ==> digest@ =~= Seq::<
                        (u32, u64),
                    >::empty());
                    let offer: RouteBelief = RouteBelief {
                        hop_count: belief.hop_count + 1,
                        next_hop: Some(id),
                        ..belief
                    };
                    g.offer_all(adj.neighbors(i), NodeKey::Balloon(id), offer, digest);
                }
            }
        }
        i = i + 1;
    }
    let ghost w = waves_of(live, balloons@, t0, towers@, adj@, *params, round, tower_draws@);
    let awake: Vec<usize> = wake(nodes, params, round, node_draws);
    let ghost r0 = Reception {
        nodes: all_rescheduled(live, *params, round, node_draws@),
        acks: Seq::empty(),
    };
    let mut acks: Vec<DigestAck> = Vec::new();
    assert((Reception { nodes: super::models(nodes@), acks: acks@ }) =~~= r0);
    let mut k: usize = 0;
    while k < g.offers.len()
        invariant
            k <= g.offers@.len(),
            g.ok(),
            g.shown() == w.offers,
            nodes@.len() == live.len(),
            (Reception { nodes: super::models(nodes@), acks: acks@ }) == all_received(
                r0,
                balloons@,
                *params,
                round,
                w.offers,
                k as nat,
            ),
        decreases g.offers@.len() - k,
    {
        assert(g.offers@[k as int].digest < g.digests@.len());
        let d: usize = g.offers[k].digest;
        assert(w.offers[k as int] == (OfferModel {
            to: g.offers@[k as int].to as int,
            belief: g.offers@[k as int].belief,
            digest: g.digests@[d as int]@,
        }));
        receive(nodes, &mut acks, balloons, params, round, &g.offers[k], &g.digests[d]);
        k = k + 1;
    }
    BeaconStepResult { awake, hops: g.hops, digest_acks: acks }
}

/// Draws a jitter for each tower whose time has come, in order.
pub fn draw_for_towers(
    tower_state: &HashMap<u32, TowerBeacon>,
    towers: &[Tower],
    params: &DvDtnParams,
    round: u64,
    rng: &mut StdRng,
) -> (draws: Vec<u64>)
    requires
        2 * params.beacon_jitter_rounds <= u64::MAX,
    ensures
        draws@.len() == towers@.len(),
        drawn(draws@, params.beacon_jitter_rounds),
{
    let mut draws: Vec<u64> = Vec::new();
    while draws.len() < towers.len()
        invariant
            draws@.len() <= towers@.len(),
            drawn(draws@, params.beacon_jitter_rounds),
            2 * params.beacon_jitter_rounds <= u64::MAX,
        decreases towers@.len() - draws@.len(),
    {
        let slot: usize = draws.len();
        let due: bool = match tower_state.get(&towers[slot].id) {
            Some(t) => round >= t.next_round,
            None => true,
        };
        let draw: u64 = if due && !listed_before(towers, slot) {
            chance::draw_up_to(rng, 2 * params.beacon_jitter_rounds)
        } else {
            0
        };
        draws.push(draw);
    }
    draws
}

/// Whether the tower at a slot is also at an earlier one.
fn listed_before(towers: &[Tower], slot: usize) -> (r: bool)
    requires
        slot < towers@.len(),
    ensures
        r == exists|j: int| 0 <= j < slot && (#[trigger] towers@[j]).id == towers@[slot as int].id,
{
    let mut k: usize = 0;
    while k < slot
        invariant
            k <= slot,
            slot < towers@.len(),
            forall|j: int| 0 <= j < k ==> (#[trigger] towers@[j]).id != towers@[slot as int].id,
        decreases slot - k,
    {
        if towers[k].id == towers[slot].id {
            return true;
        }
        k = k + 1;
    }
    false
}

/// Advance discovery by one round. `nodes` and `balloons` are index-aligned.
/// The jitters are drawn in order, towers first.
pub fn step(
    nodes: &mut Vec<DvNode>,
    balloons: &[Balloon],
    tower_state: &mut HashMap<u32, TowerBeacon>,
    towers: &[Tower],
    adj: &MeshAdjacency,
    params: &DvDtnParams,
    round: u64,
    rng: &mut StdRng,
) -> (r: BeaconStepResult)
    requires
        balloons@.len() >= old(nodes)@.len(),
        schedule_fits(round, params.beacon_interval_rounds, params.beacon_jitter_rounds),
        waves_fit(tower_models(old(tower_state)@), towers@.len()),
    ensures
        exists|tower_draws: Seq<u64>, node_draws: Seq<u64>|
            {
                &&& tower_draws.len() == towers@.len()
                &&& node_draws.len() == old(nodes)@.len()
                &&& drawn(tower_draws, params.beacon_jitter_rounds)
                &&& drawn(node_draws, params.beacon_jitter_rounds)
                &&& (BeaconOutcome {
                    nodes: super::models(final(nodes)@),
                    towers: tower_models(final(tower_state)@),
                    awake: r.awake@,
                    hops: r.hops@,
                    acks: r.digest_acks@,
                }) == #[trigger] beacon_round(
                    super::models(old(nodes)@),
                    balloons@,
                    tower_models(old(tower_state)@),
                    towers@,
                    adj@,
                    *params,
                    round,
                    tower_draws,
                    node_draws,
                )
            },
        final(nodes)@.len() == old(nodes)@.len(),
        forall|j: int| 0 <= j < r.awake@.len() ==> (#[trigger] r.awake@[j]) < old(nodes)@.len(),
{
    let tower_draws: Vec<u64> = draw_for_towers(tower_state, towers, params, round, rng);
    let node_draws: Vec<u64> = draw_for_nodes(nodes, params, round, rng);
    step_with(
        nodes,
        balloons,
        tower_state,
        towers,
        adj,
        params,
        round,
        &tower_draws,
        &node_draws,
    )
}

} // verus!
