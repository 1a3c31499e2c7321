//! Unicast store-and-forward along a believed next hop, with three ways of
//! learning that hop.
use std::collections::{HashMap, VecDeque};

use rand::rngs::StdRng;
use vstd::prelude::*;

use crate::balloon::Balloon;
use crate::chance;
use crate::link_detection::NodeKey;
use crate::protocol::stats as tables;
use crate::protocol::stats::{LatencyStats, Ratio, StatValue, StatsTable};
use crate::protocol::{Capabilities, CapabilitiesModel, CommsEvent, EventKind, NodeCommsView,
    StepCtx};
use crate::sim::{LastBundleModel, LastBundleView};
use crate::telemetry;
use crate::telemetry::TelemetryRecord;
use beacon::{BeaconHop, BeaconStepResult, DigestAck, RouteBelief, TowerBeacon};
use bundle::{Ack, AckModel, AckState, Bundle, BundleModel, Channel, Delivery, OutstandingBundle,
    OutstandingModel, ResolvedBundle, ResolvedModel, StepOutput};
use bundle_stats::BundleStats;
use dv_round::{Draws, DvModel, DvOutcome};
use linkstate::StateModel;
use params::{Discovery, DvDtnParams};

pub mod adoption_laws;
pub mod aodv;
pub mod aodv_laws;
pub mod aodv_round;
pub mod batch_laws;
pub mod beacon;
pub mod beacon_laws;
pub mod belief_laws;
pub mod bundle;
pub mod bundle_hops;
pub mod bundle_laws;
pub mod bundle_order;
pub mod bundle_paths;
pub mod bundle_rules;
pub mod bundle_round;
pub mod bundle_stats;
pub mod delivery_laws;
pub mod digest_laws;
pub mod dv_laws;
pub mod dv_round;
pub mod event_laws;
pub mod flood_laws;
pub mod gossip_laws;
pub mod hunt_laws;
pub mod linkstate;
pub mod linkstate_laws;
pub mod params;
pub mod receipt_laws;
pub mod relay_laws;
pub mod round_laws;
pub mod tally_laws;
pub mod wake_laws;

verus! {

broadcast use vstd::std_specs::hash::group_hash_axioms;

/// One balloon's protocol state, indexed in parallel with the visible balloons.
#[derive(Debug, Clone)]
pub struct DvNode {
    /// What this balloon believes about reaching a tower.
    pub belief: Option<RouteBelief>,
    /// Next comms round this balloon is awake to transmit.
    pub next_beacon_round: u64,
    /// Bundles being carried, oldest first.
    pub queue: VecDeque<Bundle>,
    /// Acks in transit being carried.
    pub ack_queue: VecDeque<Ack>,
    /// Next comms round this balloon may originate a bundle.
    pub next_bundle_round: u64,
    /// Sequence of the next bundle this balloon originates.
    pub bundle_seq: u64,
    /// Telemetry measured and retained.
    pub log: VecDeque<TelemetryRecord>,
    /// This balloon's own view of its most recently originated bundle.
    pub outstanding: Option<OutstandingBundle>,
    /// A settled copy of `outstanding`.
    pub last_resolved: Option<ResolvedBundle>,
    /// How the last resolved bundle actually got through.
    pub last_channel: Option<Channel>,
    /// Deliveries announced by the beacon this balloon's belief came with.
    pub ack_digest: Vec<(u32, u64)>,
}

/// The mathematical content of a `DvNode`.
#[verifier::ext_equal]
pub struct NodeModel {
    pub belief: Option<RouteBelief>,
    pub next_beacon_round: u64,
    pub queue: Seq<BundleModel>,
    pub ack_queue: Seq<AckModel>,
    pub next_bundle_round: u64,
    pub bundle_seq: u64,
    pub log: Seq<TelemetryRecord>,
    pub outstanding: Option<OutstandingModel>,
    pub last_resolved: Option<ResolvedModel>,
    pub last_channel: Option<Channel>,
    pub ack_digest: Seq<(u32, u64)>,
}

impl View for DvNode {
    type V = NodeModel;

    open spec fn view(&self) -> NodeModel {
        NodeModel {
            belief: self.belief,
            next_beacon_round: self.next_beacon_round,
            queue: bundle::bundles(self.queue@),
            ack_queue: bundle::acks(self.ack_queue@),
            next_bundle_round: self.next_bundle_round,
            bundle_seq: self.bundle_seq,
            log: self.log@,
            outstanding: match self.outstanding {
                Some(o) => Some(o@),
                None => None,
            },
            last_resolved: match self.last_resolved {
                Some(r) => Some(r@),
                None => None,
            },
            last_channel: self.last_channel,
            ack_digest: self.ack_digest@,
        }
    }
}

/// The models of a list of nodes.
pub open spec fn models(nodes: Seq<DvNode>) -> Seq<NodeModel> {
    nodes.map_values(|n: DvNode| n@)
}

/// A node that has not done anything yet.
pub open spec fn fresh_node() -> NodeModel {
    NodeModel {
        belief: None,
        next_beacon_round: 0,
        queue: Seq::empty(),
        ack_queue: Seq::empty(),
        next_bundle_round: 0,
        bundle_seq: 0,
        log: Seq::empty(),
        outstanding: None,
        last_resolved: None,
        last_channel: None,
        ack_digest: Seq::empty(),
    }
}

impl Default for DvNode {
    fn default() -> (r: DvNode)
        ensures
            r@ == fresh_node(),
    {
        let r: DvNode = DvNode {
            belief: None,
            next_beacon_round: 0,
            queue: VecDeque::new(),
            ack_queue: VecDeque::new(),
            next_bundle_round: 0,
            bundle_seq: 0,
            log: VecDeque::new(),
            outstanding: None,
            last_resolved: None,
            last_channel: None,
            ack_digest: Vec::new(),
        };
        assert(r@ =~~= fresh_node());
        r
    }
}


/// A node with its first slots drawn.
pub open spec fn spawned(next_beacon_round: u64, next_bundle_round: u64) -> NodeModel {
    NodeModel { next_beacon_round, next_bundle_round, ..fresh_node() }
}

/// The kinds of transmission that a way of finding routes makes, and those of
/// delivery.
pub open spec fn kinds_of(discovery: Discovery) -> Seq<EventKind> {
    (match discovery {
        Discovery::Proactive => seq![EventKind::RouteAd],
        Discovery::Reactive => seq![EventKind::RouteRequest, EventKind::RouteReply],
        Discovery::LinkState => seq![EventKind::Gossip],
    }) + seq![EventKind::Bundle, EventKind::Ack]
}

/// Everything this protocol can express.
pub open spec fn capabilities_of(params: DvDtnParams) -> CapabilitiesModel {
    CapabilitiesModel {
        name: "dv-dtn"@,
        label: "Distance-vector + store-and-forward"@,
        route_belief: true,
        next_hop_paths: true,
        acks: true,
        satellite_fallback: true,
        event_kinds: kinds_of(params.discovery),
    }
}

/// The protocol: its parameters, its own randomness, and all of its state.
pub struct DvDtn {
    pub params: DvDtnParams,
    /// Duty-cycle phases and slot jitter.
    pub rng: StdRng,
    pub nodes: Vec<DvNode>,
    /// By tower id: ids are never reused, while slots shift.
    pub towers: HashMap<u32, TowerBeacon>,
    pub stats: BundleStats,
    pub aodv: aodv::State,
    pub linkstate: linkstate::State,
}

impl View for DvDtn {
    type V = DvModel;

    open spec fn view(&self) -> DvModel {
        DvModel {
            nodes: models(self.nodes@),
            towers: beacon::tower_models(self.towers@),
            tally: self.stats@,
            aodv: self.aodv@,
            linkstate: self.linkstate@,
        }
    }
}

/// A protocol that has not done anything yet.
pub open spec fn blank() -> DvModel {
    DvModel {
        nodes: Seq::empty(),
        towers: Map::empty(),
        tally: bundle_stats::empty_tally(),
        aodv: Seq::empty(),
        linkstate: StateModel { nodes: Seq::empty(), records_redundant: 0, records_useful: 0 },
    }
}

/// Lets go of deliveries that are too old to announce.
fn let_go(recent: &mut VecDeque<(u32, u64, u64)>, round: u64, max_age: u64)
    ensures
        final(recent)@ == dv_round::still_news(old(recent)@, round, max_age),
{
    let mut fresh: bool = false;
    while !fresh && recent.len() > 0
        invariant
            dv_round::still_news(recent@, round, max_age) == dv_round::still_news(
                old(recent)@,
                round,
                max_age,
            ),
            fresh ==> recent@.len() > 0 && bundle::rounds_since(recent@[0].2, round) <= max_age,
        decreases
            recent@.len() + (if fresh {
                0int
            } else {
                1int
            }),
    {
        let ghost before = recent@;
        let at: u64 = recent[0].2;
        if round.saturating_sub(at) > max_age {
            let _ = recent.pop_front();
            assert(recent@ =~= before.subrange(1, before.len() as int));
        } else {
            fresh = true;
        }
    }
}

/// Towers note the deliveries they took.
fn note_deliveries(
    towers: &mut HashMap<u32, TowerBeacon>,
    taken: &Vec<Delivery>,
    round: u64,
    max_age: u64,
)
    ensures
        beacon::tower_models(final(towers)@) == dv_round::noted(
            beacon::tower_models(old(towers)@),
            taken@,
            round,
            max_age,
            taken@.len(),
        ),
{
    let ghost t0 = beacon::tower_models(towers@);
    let mut k: usize = 0;
    while k < taken.len()
        invariant
            k <= taken@.len(),
            beacon::tower_models(towers@) == dv_round::noted(
                t0,
                taken@,
                round,
                max_age,
                k as nat,
            ),
        decreases taken@.len() - k,
    {
        let d: Delivery = taken[k];
        let ghost before = beacon::tower_models(towers@);
        if let Some(mut t) = towers.remove(&d.tower_id) {
            assert(before[d.tower_id] == t@);
            let ghost t1 = t@;
            let_go(&mut t.recent, round, max_age);
            t.recent.push_back((d.origin_id, d.seq, round));
            let _ = towers.insert(d.tower_id, t);
            assert(beacon::tower_models(towers@) =~~= before.insert(
                d.tower_id,
                beacon::TowerModel {
                    recent: dv_round::still_news(t1.recent, round, max_age).push(
                        (d.origin_id, d.seq, round),
                    ),
                    ..t1
                },
            ));
        } else {
            assert(beacon::tower_models(towers@) =~~= before);
        }
        k = k + 1;
    }
}

/// What discovery found out.
struct Heard {
    awake: Vec<usize>,
    events: Vec<CommsEvent>,
    acks: Vec<DigestAck>,
}

/// Beacon transmissions as events.
fn advertise(hops: &Vec<BeaconHop>, balloons: &[Balloon]) -> (r: Vec<CommsEvent>)
    ensures
        r@ == dv_round::route_ads(hops@, balloons@),
{
    let ghost seen = |h: BeaconHop| h.to_balloon < balloons@.len();
    let mut r: Vec<CommsEvent> = Vec::new();
    let mut k: usize = 0;
    assert(hops@.take(0).filter(seen) =~= Seq::empty()) by {
        reveal(Seq::filter);
    }
    while k < hops.len()
        invariant
            k <= hops@.len(),
            seen == (|h: BeaconHop| h.to_balloon < balloons@.len()),
            r@ == dv_round::route_ads(hops@.take(k as int), balloons@),
        decreases hops@.len() - k,
    {
        let h: BeaconHop = hops[k];
        let ghost before = hops@.take(k as int);
        assert(hops@.take(k + 1) =~= before.push(h));
        assert(before.push(h).drop_last() =~= before);
        assert(before.push(h).filter(seen) == if seen(h) {
            before.filter(seen).push(h)
        } else {
            before.filter(seen)
        }) by {
            reveal(Seq::filter);
        }
        if h.to_balloon < balloons.len() {
            r.push(
                CommsEvent {
                    kind: EventKind::RouteAd,
                    from: h.from,
                    to: NodeKey::Balloon(balloons[h.to_balloon].id),
                    payload: 1,
                    tower_id: Some(h.tower_id),
                    hop_count: Some(h.hop_count),
                    epoch: Some(h.epoch),
                },
            );
        }
        k += 1;
        assert(r@ =~= dv_round::route_ads(hops@.take(k as int), balloons@));
    }
    assert(hops@.take(k as int) =~= hops@);
    r
}

impl DvDtn {
    /// A protocol as it ships.
    pub fn new() -> (r: DvDtn)
        ensures
            r@ == blank(),
            r.params == params::default_params(),
    {
        DvDtn::with_params(DvDtnParams::default())
    }

    pub fn with_params(params: DvDtnParams) -> (r: DvDtn)
        ensures
            r@ == blank(),
            r.params == params,
    {
        let r: DvDtn = DvDtn {
            params,
            rng: chance::from_entropy(),
            nodes: Vec::new(),
            towers: HashMap::new(),
            stats: BundleStats::default(),
            aodv: aodv::State::default(),
            linkstate: linkstate::State::default(),
        };
        assert(r@ =~~= blank());
        r
    }

    pub fn spec_name(&self) -> (r: &'static str)
        ensures
            r@ == "dv-dtn"@,
    {
        "dv-dtn"
    }

    pub fn capabilities(&self) -> (r: Capabilities)
        ensures
            r@ == capabilities_of(self.params),
    {
        let r: Capabilities = Capabilities {
            name: "dv-dtn",
            label: "Distance-vector + store-and-forward",
            route_belief: true,
            next_hop_paths: true,
            acks: true,
            satellite_fallback: true,
            event_kinds: match self.params.discovery {
                Discovery::Proactive => vec![EventKind::RouteAd, EventKind::Bundle, EventKind::Ack],
                Discovery::Reactive => vec![
                    EventKind::RouteRequest,
                    EventKind::RouteReply,
                    EventKind::Bundle,
                    EventKind::Ack,
                ],
                Discovery::LinkState => vec![EventKind::Gossip, EventKind::Bundle, EventKind::Ack],
            },
        };
        assert(r.event_kinds@ =~= kinds_of(self.params.discovery));
        assert(r@ =~= capabilities_of(self.params));
        r
    }

    /// Makes the draws to come those of a seed.
    pub fn reseed(&mut self, seed: u64)
        ensures
            final(self)@ == old(self)@,
            final(self).params == old(self).params,
            final(self).rng == chance::generator(seed),
    {
        self.rng = chance::seeded(seed);
    }

    pub fn clear_nodes(&mut self)
        ensures
            final(self)@ == (DvModel { nodes: Seq::empty(), ..old(self)@ }),
            final(self).params == old(self).params,
    {
        self.nodes.clear();
        assert(models(self.nodes@) =~= Seq::empty());
    }

    /// Adds a node that is to wake and to originate first at the given rounds.
    pub fn spawn_node_at(&mut self, next_beacon_round: u64, next_bundle_round: u64)
        ensures
            final(self)@ == (DvModel {
                nodes: old(self)@.nodes.push(spawned(next_beacon_round, next_bundle_round)),
                ..old(self)@
            }),
            final(self).params == old(self).params,
    {
        let ghost before = self@;
        let mut node: DvNode = DvNode::default();
        node.next_beacon_round = next_beacon_round;
        node.next_bundle_round = next_bundle_round;
        assert(node@ =~~= spawned(next_beacon_round, next_bundle_round));
        self.nodes.push(node);
        assert(models(self.nodes@) =~~= before.nodes.push(node@));
    }

    /// Adds a node. Its beacon and bundle phases are staggered, so the fleet
    /// does not transmit in unison.
    pub fn spawn_node(&mut self)
        requires
            old(self).params.beacon_interval_rounds > 0,
            old(self).params.bundle_interval_rounds > 0,
        ensures
            exists|wake: u64, first: u64|
                wake < old(self).params.beacon_interval_rounds && first < old(
                    self,
                ).params.bundle_interval_rounds && final(self)@ == (DvModel {
                    nodes: old(self)@.nodes.push(#[trigger] spawned(wake, first)),
                    ..old(self)@
                }),
            final(self).params == old(self).params,
    {
        let next_beacon_round: u64 = beacon::initial_slot(&self.params, &mut self.rng);
        let next_bundle_round: u64 = chance::draw_up_to(
            &mut self.rng,
            self.params.bundle_interval_rounds - 1,
        );
        self.spawn_node_at(next_beacon_round, next_bundle_round);
    }

    pub fn add_tower(&mut self, id: u32)
        ensures
            final(self)@ == (DvModel {
                towers: old(self)@.towers.insert(id, beacon::fresh_tower()),
                ..old(self)@
            }),
            final(self).params == old(self).params,
    {
        let ghost before = self@;
        let _ = self.towers.insert(id, TowerBeacon::default());
        assert(beacon::tower_models(self.towers@) =~~= before.towers.insert(
            id,
            beacon::fresh_tower(),
        ));
    }

    pub fn remove_tower(&mut self, id: u32)
        ensures
            final(self)@ == (DvModel { towers: old(self)@.towers.remove(id), ..old(self)@ }),
            final(self).params == old(self).params,
    {
        let ghost before = self@;
        let _ = self.towers.remove(&id);
        assert(beacon::tower_models(self.towers@) =~~= before.towers.remove(id));
    }
}

impl DvDtn {
    /// Discovery, in the way the parameters choose.
    fn discover(
        &mut self,
        ctx: StepCtx<'_>,
        tower_draws: &Vec<u64>,
        node_draws: &Vec<u64>,
    ) -> (h: Heard)
        requires
            old(self)@.nodes.len() == ctx.balloons@.len(),
            dv_round::discovery_fits(
                old(self)@,
                ctx.towers@.len(),
                old(self).params,
                ctx.round,
            ),
            (Draws { towers: tower_draws@, nodes: node_draws@ }).fit(
                ctx.towers@.len(),
                ctx.balloons@.len(),
                old(self).params,
            ),
        ensures
            ({
                let f = dv_round::found(
                    old(self)@,
                    ctx.balloons@,
                    ctx.towers@,
                    ctx.adj@,
                    old(self).params,
                    ctx.round,
                    Draws { towers: tower_draws@, nodes: node_draws@ },
                );
                &&& final(self)@ == f.m
                &&& h.awake@ == f.awake
                &&& h.events@ == f.events
                &&& h.acks@ == f.acks
            }),
            final(self).params == old(self).params,
            final(self)@.nodes.len() == old(self)@.nodes.len(),
            forall|j: int|
                0 <= j < h.acks@.len() ==> (#[trigger] h.acks@[j]).node < old(self)@.nodes.len(),
    {
        let ghost m0 = self@;
        let count: usize = self.nodes.len();
        assert(m0.nodes.len() == count);
        let params: DvDtnParams = self.params;
        match params.discovery {
            Discovery::Proactive => {
                let ghost live = beacon::all_forgetful(
                    m0.nodes,
                    ctx.round,
                    params.belief_max_age_rounds,
                );
                let ghost w = beacon::waves_of(
                    live,
                    ctx.balloons@,
                    m0.towers,
                    ctx.towers@,
                    ctx.adj@,
                    params,
                    ctx.round,
                    tower_draws@,
                );
                let r: BeaconStepResult = beacon::step_with(
                    &mut self.nodes,
                    ctx.balloons,
                    &mut self.towers,
                    ctx.towers,
                    ctx.adj,
                    &params,
                    ctx.round,
                    tower_draws,
                    node_draws,
                );
                proof {
                    dv_round::lemma_ack_nodes(
                        beacon::Reception {
                            nodes: beacon::all_rescheduled(
                                live,
                                params,
                                ctx.round,
                                node_draws@,
                            ),
                            acks: Seq::empty(),
                        },
                        ctx.balloons@,
                        params,
                        ctx.round,
                        w.offers,
                        w.offers.len(),
                    );
                }
                let events: Vec<CommsEvent> = advertise(&r.hops, ctx.balloons);
                Heard { awake: r.awake, events, acks: r.digest_acks }
            },
            Discovery::Reactive => {
                let (awake, events) = aodv::step_with(
                    &mut self.nodes,
                    &mut self.aodv,
                    ctx.balloons,
                    ctx.adj,
                    &params,
                    ctx.round,
                    node_draws,
                );
                Heard { awake, events, acks: Vec::new() }
            },
            Discovery::LinkState => {
                let (awake, events) = linkstate::step_with(
                    &mut self.nodes,
                    &mut self.linkstate,
                    ctx.balloons,
                    ctx.adj,
                    &params,
                    ctx.round,
                    node_draws,
                );
                Heard { awake, events, acks: Vec::new() }
            },
        }
    }

    /// Origins learn what they heard announced.
    fn acknowledge(&mut self, acks: &Vec<DigestAck>, round: u64)
        requires
            forall|j: int|
                0 <= j < acks@.len() ==> (#[trigger] acks@[j]).node < old(self)@.nodes.len(),
            old(self)@.tally.acked + old(self)@.nodes.len() <= u64::MAX,
        ensures
            final(self)@ == dv_round::acknowledged(old(self)@, acks@, round, acks@.len()),
            final(self).params == old(self).params,
    {
        let ghost m0 = self@;
        let mut k: usize = 0;
        while k < acks.len()
            invariant
                k <= acks@.len(),
                forall|j: int| 0 <= j < acks@.len() ==> (#[trigger] acks@[j]).node < m0.nodes.len(),
                m0.tally.acked + m0.nodes.len() <= u64::MAX,
                self@ == dv_round::acknowledged(m0, acks@, round, k as nat),
                self@.nodes.len() == m0.nodes.len(),
                self.params == old(self).params,
            decreases acks@.len() - k,
        {
            let ghost before = self@;
            let i: usize = acks[k].node;
            assert(acks@[k as int].node < m0.nodes.len());
            assert(before.nodes[i as int] == self.nodes@[i as int]@);
            proof {
                dv_round::lemma_acknowledged(m0, acks@, round, k as nat);
                dv_round::lemma_waiting_positive(before.nodes, i as int);
                dv_round::lemma_waiting_bound(m0.nodes, m0.nodes.len());
            }
            let seq: u64 = acks[k].seq;
            let awaits: bool = match &self.nodes[i].outstanding {
                Some(o) => o.seq == seq && o.state == AckState::Pending,
                None => false,
            };
            if awaits {
                bundle::apply_digest_ack(&mut self.nodes[i], seq, round, &mut self.stats);
                assert(self@ =~~= DvModel {
                    nodes: before.nodes.update(
                        i as int,
                        bundle_round::told(before.nodes[i as int], seq),
                    ),
                    tally: bundle_round::told_tally(
                        before.tally,
                        before.nodes[i as int],
                        seq,
                        round,
                    ),
                    ..before
                });
            }
            k = k + 1;
        }
    }

    /// A round over nodes that are all visible.
    fn visible_round(
        &mut self,
        ctx: StepCtx<'_>,
        tower_draws: &Vec<u64>,
        node_draws: &Vec<u64>,
    ) -> (events: Vec<CommsEvent>)
        requires
            old(self)@.nodes.len() == ctx.balloons@.len(),
            dv_round::dv_fits(
                old(self)@,
                ctx.balloons@,
                ctx.towers@,
                old(self).params,
                ctx.round,
            ),
            (Draws { towers: tower_draws@, nodes: node_draws@ }).fit(
                ctx.towers@.len(),
                ctx.balloons@.len(),
                old(self).params,
            ),
        ensures
            outcome_of(final(self)@, events@) == dv_round::dv_round(
                old(self)@,
                ctx.balloons@,
                ctx.towers@,
                ctx.adj@,
                old(self).params,
                ctx.round,
                Draws { towers: tower_draws@, nodes: node_draws@ },
            ),
            final(self).params == old(self).params,
    {
        let ghost m0 = self@;
        let ghost draws = Draws { towers: tower_draws@, nodes: node_draws@ };
        let params: DvDtnParams = self.params;
        let count: usize = self.nodes.len();
        assert(m0.nodes.len() == count);
        assert(m0.nodes.take(m0.nodes.len() as int) =~= m0.nodes);
        proof {
            dv_round::discovery_moves_no_cargo(
                m0,
                ctx.balloons@,
                ctx.towers@,
                ctx.adj@,
                params,
                ctx.round,
                draws,
            );
            linkstate::lemma_awake_rises(m0.nodes, m0.nodes.len(), ctx.round);
        }
        let h: Heard = self.discover(ctx, tower_draws, node_draws);
        let ghost f = self@;
        self.acknowledge(&h.acks, ctx.round);
        let ghost a = self@;
        proof {
            dv_round::lemma_acknowledged(f, h.acks@, ctx.round, h.acks@.len());
            dv_round::lemma_delivery_fits(m0.nodes, m0.tally, a, params, h.awake@, ctx.round);
        }
        let out: StepOutput = bundle::step(
            &mut self.nodes,
            ctx.balloons,
            ctx.adj,
            &params,
            h.awake.as_slice(),
            ctx.round,
            &mut self.stats,
        );
        let StepOutput { mut events, deliveries } = out;
        note_deliveries(
            &mut self.towers,
            &deliveries,
            ctx.round,
            params.belief_max_age_rounds,
        );
        let mut found: Vec<CommsEvent> = h.events;
        events.append(&mut found);
        assert(m0.nodes.skip(m0.nodes.len() as int) =~= Seq::empty());
        assert(outcome_of(self@, events@) =~~= dv_round::dv_round(
            m0,
            ctx.balloons@,
            ctx.towers@,
            ctx.adj@,
            params,
            ctx.round,
            draws,
        ));
        events
    }

    /// One comms round for given jitter draws, one per tower and one per
    /// visible node. Discovery runs before delivery, so a bundle forwarded
    /// this round acts on the freshest belief, and delivery rides on the same
    /// wake slots.
    pub fn step_with(
        &mut self,
        ctx: StepCtx<'_>,
        tower_draws: &Vec<u64>,
        node_draws: &Vec<u64>,
    ) -> (events: Vec<CommsEvent>)
        requires
            dv_round::dv_fits(
                old(self)@,
                ctx.balloons@,
                ctx.towers@,
                old(self).params,
                ctx.round,
            ),
            (Draws { towers: tower_draws@, nodes: node_draws@ }).fit(
                ctx.towers@.len(),
                ctx.balloons@.len(),
                old(self).params,
            ),
        ensures
            outcome_of(final(self)@, events@) == dv_round::dv_round(
                old(self)@,
                ctx.balloons@,
                ctx.towers@,
                ctx.adj@,
                old(self).params,
                ctx.round,
                Draws { towers: tower_draws@, nodes: node_draws@ },
            ),
            final(self).params == old(self).params,
    {
        let ghost m0 = self@;
        let ghost n = ctx.balloons@.len() as int;
        let mut hidden: Vec<DvNode> = self.nodes.split_off(ctx.balloons.len());
        assert(models(self.nodes@) =~= m0.nodes.take(n));
        assert(models(hidden@) =~= m0.nodes.skip(n));
        proof {
            lemma_visible(m0, n);
        }
        let events: Vec<CommsEvent> = self.visible_round(ctx, tower_draws, node_draws);
        let ghost seen = self@.nodes;
        self.nodes.append(&mut hidden);
        assert(models(self.nodes@) =~= seen + m0.nodes.skip(n));
        assert(outcome_of(self@, events@) =~~= dv_round::dv_round(
            m0,
            ctx.balloons@,
            ctx.towers@,
            ctx.adj@,
            self.params,
            ctx.round,
            Draws { towers: tower_draws@, nodes: node_draws@ },
        ));
        events
    }

    /// One comms round.
    pub fn step(&mut self, ctx: StepCtx<'_>) -> (events: Vec<CommsEvent>)
        requires
            dv_round::dv_fits(
                old(self)@,
                ctx.balloons@,
                ctx.towers@,
                old(self).params,
                ctx.round,
            ),
        ensures
            exists|draws: Draws|
                draws.fit(ctx.towers@.len(), ctx.balloons@.len(), old(self).params) && outcome_of(
                    final(self)@,
                    events@,
                ) == #[trigger] dv_round::dv_round(
                    old(self)@,
                    ctx.balloons@,
                    ctx.towers@,
                    ctx.adj@,
                    old(self).params,
                    ctx.round,
                    draws,
                ),
            final(self).params == old(self).params,
    {
        let ghost m0 = self@;
        let ghost n = ctx.balloons@.len() as int;
        let params: DvDtnParams = self.params;
        let mut hidden: Vec<DvNode> = self.nodes.split_off(ctx.balloons.len());
        assert(models(self.nodes@) =~= m0.nodes.take(n));
        assert(models(hidden@) =~= m0.nodes.skip(n));
        proof {
            lemma_visible(m0, n);
        }
        let tower_draws: Vec<u64> = if params.discovery == Discovery::Proactive {
            beacon::draw_for_towers(
                &self.towers,
                ctx.towers,
                &params,
                ctx.round,
                &mut self.rng,
            )
        } else {
            no_draws(ctx.towers.len())
        };
        let node_draws: Vec<u64> = beacon::draw_for_nodes(
            &self.nodes,
            &params,
            ctx.round,
            &mut self.rng,
        );
        let events: Vec<CommsEvent> = self.visible_round(ctx, &tower_draws, &node_draws);
        let ghost seen = self@.nodes;
        self.nodes.append(&mut hidden);
        assert(models(self.nodes@) =~= seen + m0.nodes.skip(n));
        assert(outcome_of(self@, events@) =~~= dv_round::dv_round(
            m0,
            ctx.balloons@,
            ctx.towers@,
            ctx.adj@,
            self.params,
            ctx.round,
            Draws { towers: tower_draws@, nodes: node_draws@ },
        ));
        events
    }
}

/// A round's outcome, as it stands in the variables.
pub open spec fn outcome_of(m: DvModel, events: Seq<CommsEvent>) -> DvOutcome {
    DvOutcome { m, events }
}

proof fn lemma_visible(m: DvModel, n: int)
    requires
        0 <= n <= m.nodes.len(),
    ensures
        m.nodes.take(n).take(n) == m.nodes.take(n),
        m.nodes.take(n).skip(n) == Seq::<NodeModel>::empty(),
        forall|i: int| 0 <= i < n ==> #[trigger] m.nodes.take(n)[i] == m.nodes[i],
{
    assert(m.nodes.take(n).take(n) =~= m.nodes.take(n));
    assert(m.nodes.take(n).skip(n) =~= Seq::empty());
}

/// Draws that nothing uses.
fn no_draws(n: usize) -> (r: Vec<u64>)
    ensures
        r@.len() == n,
        forall|k: int| 0 <= k < n ==> #[trigger] r@[k] == 0,
{
    let mut r: Vec<u64> = Vec::new();
    while r.len() < n
        invariant
            r@.len() <= n,
            forall|k: int| 0 <= k < r@.len() ==> #[trigger] r@[k] == 0,
        decreases n - r@.len(),
    {
        r.push(0);
    }
    r
}

/// Bundles among the first `k` nodes whose holder believes it has no route.
pub open spec fn held_back(nodes: Seq<NodeModel>, k: nat) -> nat
    decreases k,
{
    if k == 0 {
        0
    } else {
        held_back(nodes, (k - 1) as nat) + (if nodes[k - 1].belief is None {
            nodes[k - 1].queue.len()
        } else {
            0
        })
    }
}

/// The lesser of a number of balloons and the number of nodes.
pub open spec fn up_to(visible: usize, nodes: Seq<NodeModel>) -> nat {
    if visible < nodes.len() {
        visible as nat
    } else {
        nodes.len()
    }
}

/// What was last resolved, as shown.
pub open spec fn shown(r: ResolvedModel) -> LastBundleModel {
    LastBundleModel {
        seq: r.seq,
        state: r.state,
        channel: r.channel,
        tower_id: r.tower_id,
        path: Some(r.path),
        ack_hops_completed: r.ack_hops_completed,
    }
}

impl DvDtn {
    /// The published view of a node.
    pub fn node_view(&self, i: usize) -> (r: NodeCommsView)
        ensures
            r == (if i < self.nodes@.len() {
                NodeCommsView {
                    route_hops: match self.nodes@[i as int].belief {
                        Some(b) => Some(b.hop_count),
                        None => None,
                    },
                    last_channel: self.nodes@[i as int].last_channel,
                }
            } else {
                NodeCommsView { route_hops: None, last_channel: None }
            }),
    {
        if i < self.nodes.len() {
            NodeCommsView {
                route_hops: match self.nodes[i].belief {
                    Some(b) => Some(b.hop_count),
                    None => None,
                },
                last_channel: self.nodes[i].last_channel,
            }
        } else {
            NodeCommsView { route_hops: None, last_channel: None }
        }
    }

    /// Hops to a tower as node `i` believes.
    pub fn believed_hops(&self, i: usize) -> (r: Option<u32>)
        ensures
            r == (if i < self.nodes@.len() && self.nodes@[i as int].belief is Some {
                Some(self.nodes@[i as int].belief->Some_0.hop_count)
            } else {
                None
            }),
    {
        self.node_view(i).route_hops
    }

    /// Bundles held across the visible slice.
    pub fn carrying(&self, visible: usize) -> (r: u64)
        ensures
            r == tables::capped(
                bundle_round::queued(self@.nodes, up_to(visible, self@.nodes)) as int,
            ),
    {
        let m: usize = if visible < self.nodes.len() {
            visible
        } else {
            self.nodes.len()
        };
        let mut sum: u64 = 0;
        let mut i: usize = 0;
        while i < m
            invariant
                i <= m,
                m <= self@.nodes.len(),
                sum == tables::capped(bundle_round::queued(self@.nodes, i as nat) as int),
            decreases m - i,
        {
            assert(self@.nodes[i as int] == self.nodes@[i as int]@);
            sum = sum.saturating_add(self.nodes[i].queue.len() as u64);
            i = i + 1;
        }
        sum
    }

    /// Bundles held by a balloon that believes it has no route: waiting rather
    /// than lost.
    pub fn stranded(&self, visible: usize) -> (r: u64)
        ensures
            r == tables::capped(held_back(self@.nodes, up_to(visible, self@.nodes)) as int),
    {
        let m: usize = if visible < self.nodes.len() {
            visible
        } else {
            self.nodes.len()
        };
        let mut sum: u64 = 0;
        let mut i: usize = 0;
        while i < m
            invariant
                i <= m,
                m <= self@.nodes.len(),
                sum == tables::capped(held_back(self@.nodes, i as nat) as int),
            decreases m - i,
        {
            assert(self@.nodes[i as int] == self.nodes@[i as int]@);
            if self.nodes[i].belief.is_none() {
                sum = sum.saturating_add(self.nodes[i].queue.len() as u64);
            }
            i = i + 1;
        }
        sum
    }

    /// Acks in transit anywhere in the mesh.
    pub fn acks_in_flight(&self) -> (r: u64)
        ensures
            r == tables::capped(bundle_round::acks_held(self@.nodes, self@.nodes.len()) as int),
    {
        let mut sum: u64 = 0;
        let mut i: usize = 0;
        while i < self.nodes.len()
            invariant
                i <= self@.nodes.len(),
                sum == tables::capped(bundle_round::acks_held(self@.nodes, i as nat) as int),
            decreases self@.nodes.len() - i,
        {
            assert(self@.nodes[i as int] == self.nodes@[i as int]@);
            sum = sum.saturating_add(self.nodes[i].ack_queue.len() as u64);
            i = i + 1;
        }
        sum
    }

    pub fn delivered(&self) -> (r: u64)
        ensures
            r == self@.tally.delivered,
    {
        self.stats.delivered
    }

    pub fn resolved(&self) -> (r: u64)
        ensures
            r == tables::capped(self@.tally.resolved()),
    {
        self.stats.resolved()
    }

    /// What was last resolved for a node. The live outstanding bundle is not
    /// shown: it starts anew with each origination.
    pub fn last_bundle(&self, i: usize) -> (r: Option<LastBundleView>)
        ensures
            match r {
                Some(v) => i < self@.nodes.len() && self@.nodes[i as int].last_resolved is Some
                    && v@ == shown(self@.nodes[i as int].last_resolved->Some_0),
                None => i >= self@.nodes.len() || self@.nodes[i as int].last_resolved is None,
            },
    {
        if i >= self.nodes.len() {
            return None;
        }
        assert(self@.nodes[i as int] == self.nodes@[i as int]@);
        match &self.nodes[i].last_resolved {
            Some(r) => {
                let v: LastBundleView = LastBundleView {
                    seq: r.seq,
                    state: r.state,
                    channel: r.channel,
                    tower_id: r.tower_id,
                    path: Some(bundle::copied(&r.path)),
                    ack_hops_completed: r.ack_hops_completed,
                };
                assert(v@ =~~= shown(r@));
                Some(v)
            },
            None => None,
        }
    }

    /// A node's telemetry, newest first.
    pub fn log(&self, i: usize) -> (r: Vec<TelemetryRecord>)
        ensures
            r@ == (if i < self@.nodes.len() {
                self@.nodes[i as int].log.reverse()
            } else {
                Seq::empty()
            }),
    {
        if i < self.nodes.len() {
            assert(self@.nodes[i as int] == self.nodes@[i as int]@);
            telemetry::newest_first(&self.nodes[i].log)
        } else {
            Vec::new()
        }
    }

    /// Stops all origination, so what is in the mesh can be watched to
    /// completion.
    pub fn halt_origination(&mut self)
        ensures
            final(self)@ == (DvModel {
                nodes: old(self)@.nodes.map_values(
                    |n: NodeModel| NodeModel { next_bundle_round: u64::MAX, ..n },
                ),
                ..old(self)@
            }),
            final(self).params == old(self).params,
    {
        let ghost before = self@;
        let mut i: usize = 0;
        while i < self.nodes.len()
            invariant
                i <= self.nodes@.len(),
                self.nodes@.len() == before.nodes.len(),
                self.params == old(self).params,
                self@.towers == before.towers,
                self@.tally == before.tally,
                self@.aodv == before.aodv,
                self@.linkstate == before.linkstate,
                forall|j: int|
                    0 <= j < i ==> (#[trigger] self.nodes@[j])@ == (NodeModel {
                        next_bundle_round: u64::MAX,
                        ..before.nodes[j]
                    }),
                forall|j: int|
                    i <= j < before.nodes.len() ==> (#[trigger] self.nodes@[j])@ == before.nodes[j],
            decreases self.nodes@.len() - i,
        {
            let ghost held = self.nodes@;
            self.nodes[i].next_bundle_round = u64::MAX;
            assert(self.nodes@[i as int]@ =~~= NodeModel {
                next_bundle_round: u64::MAX,
                ..before.nodes[i as int]
            });
            i = i + 1;
        }
        assert(self@.nodes =~~= before.nodes.map_values(
            |n: NodeModel| NodeModel { next_bundle_round: u64::MAX, ..n },
        ));
    }

    /// The canonical counters, and this protocol's own.
    pub fn stats(&self) -> (r: StatsTable)
        requires
            self@.tally.resolved() <= u64::MAX,
            self@.tally.stalls() <= u64::MAX,
            self.params.beacon_interval_rounds > 0,
            self.linkstate.records_redundant + self.linkstate.records_useful <= u64::MAX,
        ensures
            r@ == table_of(self.stats, self.params, self.linkstate@),
    {
        let st: &BundleStats = &self.stats;
        let records: u64 = self.linkstate.records_redundant + self.linkstate.records_useful;
        let r: StatsTable = StatsTable::new().count("originated", st.originated).count(
            "delivered",
            st.delivered,
        ).count("resolved", st.resolved()).ratio("completion_rate", st.completion_rate()).count(
            "unresolved",
            st.unresolved(),
        ).ratio("unresolved_share", st.unresolved_share()).ratio(
            "delivered_per_originated",
            st.delivered_per_originated(),
        ).ratio("stall_rate", st.stall_rate()).ratio(
            "delivered_per_slot_used",
            st.delivered_per_slot_used(),
        ).ratio("ceiling_utilisation", st.ceiling_utilisation(&self.params)).ratio(
            "delivery_latency_mean",
            st.delivery_latency.mean(),
        ).ratio("ack_latency_mean", st.ack_latency.mean()).ratio(
            "first_hop_latency_mean",
            st.first_hop_latency.mean(),
        ).count("satellite", st.satellite).ratio("satellite_share", st.satellite_share()).count(
            "dropped_loop",
            st.dropped_loop,
        ).count("dropped_ttl", st.dropped_ttl).ratio(
            "mesh_loss_rate",
            st.mesh_loss_rate(),
        ).count("blocked", st.blocked).count("acked", st.acked).count(
            "ack_lost",
            st.ack_lost,
        ).ratio("ack_rate", st.ack_rate()).count(
            "stall_no_belief",
            st.stall_no_belief,
        ).ratio("belief_hops_mean", bundle_stats::hist_mean(&st.belief_hops)).ratio(
            "delivered_hops_mean",
            bundle_stats::hist_mean(&st.delivered_hops),
        ).ratio(
            "gossip_redundant_share",
            tables::ratio(self.linkstate.records_redundant, records),
        );
        assert(r@ =~= table_of(self.stats, self.params, self.linkstate@));
        r
    }
}

/// The counters as a keyed table.
pub open spec fn table_of(st: BundleStats, params: DvDtnParams, gossip: StateModel) -> Seq<
    (Seq<char>, StatValue),
> {
    let t = st@;
    let resolved = t.resolved() as nat;
    seq![
        ("originated"@, StatValue::Count(st.originated)),
        ("delivered"@, StatValue::Count(st.delivered)),
        ("resolved"@, StatValue::Count(resolved as u64)),
        ("completion_rate"@, StatValue::Ratio(tables::share(st.delivered as nat, resolved))),
        ("unresolved"@, StatValue::Count(t.left() as u64)),
        ("unresolved_share"@, StatValue::Ratio(tables::share(t.left(), st.originated as nat))),
        (
            "delivered_per_originated"@,
            StatValue::Ratio(tables::share(st.delivered as nat, st.originated as nat)),
        ),
        (
            "stall_rate"@,
            StatValue::Ratio(
                tables::share(
                    (st.slots_with_bundle - t.used()) as nat,
                    st.slots_with_bundle as nat,
                ),
            ),
        ),
        (
            "delivered_per_slot_used"@,
            StatValue::Ratio(tables::share(st.delivered as nat, t.used())),
        ),
        (
            "ceiling_utilisation"@,
            StatValue::Ratio(
                if st.rounds_sampled == 0 {
                    tables::share(0, 0)
                } else {
                    tables::share(
                        st.delivered as nat * params.beacon_interval_rounds as nat,
                        st.tower_adjacent_samples as nat * params.batch.tower_contact as nat,
                    )
                },
            ),
        ),
        ("delivery_latency_mean"@, StatValue::Ratio(mean_of(st.delivery_latency))),
        ("ack_latency_mean"@, StatValue::Ratio(mean_of(st.ack_latency))),
        ("first_hop_latency_mean"@, StatValue::Ratio(mean_of(st.first_hop_latency))),
        ("satellite"@, StatValue::Count(st.satellite)),
        ("satellite_share"@, StatValue::Ratio(tables::share(st.satellite as nat, resolved))),
        ("dropped_loop"@, StatValue::Count(st.dropped_loop)),
        ("dropped_ttl"@, StatValue::Count(st.dropped_ttl)),
        (
            "mesh_loss_rate"@,
            StatValue::Ratio(
                tables::share(
                    (st.dropped_loop + st.dropped_ttl) as nat,
                    st.originated as nat,
                ),
            ),
        ),
        ("blocked"@, StatValue::Count(st.blocked)),
        ("acked"@, StatValue::Count(st.acked)),
        ("ack_lost"@, StatValue::Count(st.ack_lost)),
        ("ack_rate"@, StatValue::Ratio(tables::share(st.acked as nat, st.delivered as nat))),
        ("stall_no_belief"@, StatValue::Count(st.stall_no_belief)),
        ("belief_hops_mean"@, StatValue::Ratio(hops_mean(st.belief_hops@))),
        ("delivered_hops_mean"@, StatValue::Ratio(hops_mean(st.delivered_hops@))),
        (
            "gossip_redundant_share"@,
            StatValue::Ratio(
                tables::share(
                    gossip.records_redundant as nat,
                    (gossip.records_redundant + gossip.records_useful) as nat,
                ),
            ),
        ),
    ]
}

/// The mean of some latencies.
pub open spec fn mean_of(l: LatencyStats) -> Ratio {
    tables::share(l.sum as nat, l.count as nat)
}

/// The mean of a histogram of hops.
pub open spec fn hops_mean(h: Seq<u64>) -> Ratio {
    tables::share(bundle_stats::hist_weight(h, 32), bundle_stats::hist_count(h, 32))
}
} // verus!
