//! The simulated world, and what clients see of it.
use std::collections::HashSet;

use vstd::prelude::*;
use vstd::slice::{slice_subrange, slice_to_vec};

use crate::balloon::Balloon;
use crate::config;
use crate::grounding;
use crate::link_detection;
use crate::link_detection::{Candidate, Edge, NodeKey};
use crate::mesh_adjacency;
use crate::mesh_adjacency::{MeshAdjacency, Topology};
use crate::protocol::choice::ProtocolSpec;
use crate::protocol::dv_dtn;
use crate::protocol::dv_dtn::bundle::{AckState, Channel};
use crate::protocol::dv_dtn::bundle_stats::BundleStats;
use crate::protocol::dv_dtn::DvDtn;
use crate::protocol::mesh;
use crate::protocol::stats;
use crate::protocol::stats::{Ratio, StatsTable};
use crate::protocol::{CommsEvent, MeshProtocol, NodeCommsView, Scene, StepCtx};
use crate::telemetry::{Reading, TelemetryRecord};
use crate::tower;
use crate::tower::Tower;
use crate::union_find::UnionFind;

verus! {

/// A node's most recently resolved payload.
#[derive(Debug)]
pub struct LastBundleView {
    pub seq: u64,
    pub state: AckState,
    pub channel: Option<Channel>,
    /// The tower that took delivery.
    pub tower_id: Option<u32>,
    /// The full recorded path, origin first.
    pub path: Option<Vec<u32>>,
    /// How many hops of the reverse ack path completed before it was lost.
    pub ack_hops_completed: Option<u32>,
}

/// The mathematical content of a `LastBundleView`.
#[verifier::ext_equal]
pub struct LastBundleModel {
    pub seq: u64,
    pub state: AckState,
    pub channel: Option<Channel>,
    pub tower_id: Option<u32>,
    pub path: Option<Seq<u32>>,
    pub ack_hops_completed: Option<u32>,
}

impl View for LastBundleView {
    type V = LastBundleModel;

    open spec fn view(&self) -> LastBundleModel {
        LastBundleModel {
            seq: self.seq,
            state: self.state,
            channel: self.channel,
            tower_id: self.tower_id,
            path: match self.path {
                Some(p) => Some(p@),
                None => None,
            },
            ack_hops_completed: self.ack_hops_completed,
        }
    }
}


/// What one balloon's inspector shows: its published belief, its most recently
/// resolved payload and its telemetry, newest first.
#[derive(Debug)]
pub struct BalloonComms {
    pub id: u32,
    pub believed_hops: Option<u32>,
    pub grounded: bool,
    pub last_bundle: Option<LastBundleView>,
    pub log: Vec<TelemetryRecord>,
}

/// One radio link: which two nodes, and whether they reach a tower. It carries
/// no positions: a client has them already.
#[derive(Debug)]
pub struct EdgeSnapshot {
    pub pair_key: String,
    pub grounded: bool,
}

/// One transmission as clients animate it. Both ends are wire node keys.
#[derive(Debug)]
pub struct BeaconHopWire {
    pub from: String,
    pub to: String,
    pub tower_id: u32,
    pub hop_count: u32,
    pub epoch: u64,
}

/// What clients are told after a tick. Proportions are exact quotients.
#[derive(Debug)]
pub struct Snapshot {
    pub tick: u64,
    /// Wall clock, in milliseconds, when the snapshot was built.
    pub server_time_ms: u64,
    pub balloons: Vec<Balloon>,
    pub towers: Vec<Tower>,
    /// Absent on ticks that did not recompute the links: clients keep theirs.
    pub edges: Option<Vec<EdgeSnapshot>>,
    /// Absent when nothing was transmitted.
    pub beacon_hops: Option<Vec<BeaconHopWire>>,
    /// The bit pattern of the coefficient.
    pub horizon_refraction_coeff: u64,
    pub paused: bool,
    /// Links per visible balloon, tower links included in the count.
    pub mean_degree: Ratio,
    /// Hundredfold share of the visible balloons that can reach a tower.
    pub grounded_pct: Ratio,
    /// Hundredfold share that believe they have a route.
    pub believed_grounded_pct: Ratio,
    /// Hundredfold share that believe in a route they do not have.
    pub belief_stale_pct: Ratio,
    /// Hundredfold share with a route they do not know of.
    pub belief_unaware_pct: Ratio,
    pub bundles_delivered: u64,
    pub bundles_lost: u64,
    pub bundles_in_flight: u64,
    pub bundles_stranded: u64,
}

/// A change to the world, or a question about it.
#[derive(Debug)]
pub enum Command {
    SetBalloonCount(u32),
    /// Place and height are bit patterns.
    AddTower { lon: u64, lat: u64, height_m: u64 },
    RemoveTower { id: u32 },
    /// The bit pattern of the coefficient.
    SetHorizonRefractionCoeff(u64),
    SetPaused(bool),
    QueryBalloonComms { id: u32 },
}

/// What a command is answered.
#[derive(Debug)]
pub enum Reply {
    Done,
    /// Nothing if there is no such balloon.
    Comms(Option<BalloonComms>),
}

/// How the mesh is doing, as last computed.
#[derive(Debug, Clone, Copy, PartialEq, Eq, Structural)]
pub struct Health {
    pub mean_degree: Ratio,
    pub grounded_pct: Ratio,
    pub believed_grounded_pct: Ratio,
    pub belief_stale_pct: Ratio,
    pub belief_unaware_pct: Ratio,
}

/// The one authoritative simulation state. Balloon motion and radio range are
/// geometry: their outcomes are handed in.
pub struct World {
    pub balloons: Vec<Balloon>,
    pub towers: Vec<Tower>,
    /// The bit pattern of the coefficient.
    pub horizon_refraction_coeff: u64,
    /// How many of the balloons take part in connectivity.
    pub visible_count: usize,
    pub paused: bool,
    pub health: Health,
    pub protocol: MeshProtocol,
    pub adjacency: MeshAdjacency,
    pub next_balloon_id: u32,
    pub next_tower_id: u32,
    pub union_find: UnionFind,
    pub tick_count: u64,
}

/// Nothing out of nothing.
pub open spec fn nothing() -> Ratio {
    Ratio { num: 0, den: 1 }
}

/// Health before anything was computed.
pub open spec fn no_health() -> Health {
    Health {
        mean_degree: nothing(),
        grounded_pct: nothing(),
        believed_grounded_pct: nothing(),
        belief_stale_pct: nothing(),
        belief_unaware_pct: nothing(),
    }
}

/// Whether the tick of this number recomputes the links.
pub open spec fn links_on(tick: int) -> bool {
    tick % (config::LINK_UPDATE_EVERY_N_TICKS as int) == 0
}

/// Whether the tick of this number is a comms round.
pub open spec fn comms_on(tick: int) -> bool {
    tick % (config::COMMS_EVERY_N_TICKS as int) == 0
}

/// The balloons at their new places.
pub open spec fn carried(balloons: Seq<Balloon>, readings: Seq<Reading>) -> Seq<Balloon> {
    Seq::new(balloons.len(), |i: int| Balloon { reading: readings[i], ..balloons[i] })
}

/// The nodes of the connectivity graph: visible balloons, then towers.
pub open spec fn keys_of(visible: Seq<Balloon>, towers: Seq<Tower>) -> Seq<NodeKey> {
    visible.map_values(|b: Balloon| NodeKey::Balloon(b.id)) + towers.map_values(
        |t: Tower| NodeKey::Tower(t.id),
    )
}

/// The balloons with the ground truth stamped on the first `v`.
pub open spec fn stamped(
    balloons: Seq<Balloon>,
    v: int,
    edges: Seq<Edge>,
    towers: Seq<Tower>,
) -> Seq<Balloon> {
    Seq::new(
        balloons.len(),
        |i: int|
            if i < v {
                Balloon {
                    grounded: grounding::grounded(
                        edges,
                        towers,
                        NodeKey::Balloon(balloons[i].id),
                    ),
                    ..balloons[i]
                }
            } else {
                balloons[i]
            },
    )
}

/// The balloons with the protocol's view published on the first `v`.
pub open spec fn published(balloons: Seq<Balloon>, v: int, protocol: MeshProtocol) -> Seq<Balloon> {
    Seq::new(
        balloons.len(),
        |i: int|
            if i < v {
                Balloon {
                    believed_hops: protocol.view_of(i).route_hops,
                    last_channel: protocol.view_of(i).last_channel,
                    ..balloons[i]
                }
            } else {
                balloons[i]
            },
    )
}

/// How many link ends a node has among the first `k` links.
pub open spec fn ends_at(edges: Seq<Edge>, k: nat, key: NodeKey) -> nat
    decreases k,
{
    if k == 0 {
        0
    } else {
        ends_at(edges, (k - 1) as nat, key) + (if edges[k - 1].a == key {
            1nat
        } else {
            0
        }) + (if edges[k - 1].b == key {
            1nat
        } else {
            0
        })
    }
}

/// The degrees of the first `k` balloons, added up.
pub open spec fn degree_total(balloons: Seq<Balloon>, edges: Seq<Edge>, k: nat) -> nat
    decreases k,
{
    if k == 0 {
        0
    } else {
        degree_total(balloons, edges, (k - 1) as nat) + ends_at(
            edges,
            edges.len(),
            NodeKey::Balloon(balloons[k - 1].id),
        )
    }
}

/// How many of the first `k` balloons are grounded.
pub open spec fn grounded_among(balloons: Seq<Balloon>, k: nat) -> nat
    decreases k,
{
    if k == 0 {
        0
    } else {
        grounded_among(balloons, (k - 1) as nat) + (if balloons[k - 1].grounded {
            1nat
        } else {
            0
        })
    }
}

/// How many of the first `k` balloons believe they have a route.
pub open spec fn believers(balloons: Seq<Balloon>, k: nat) -> nat
    decreases k,
{
    if k == 0 {
        0
    } else {
        believers(balloons, (k - 1) as nat) + (if balloons[k - 1].believed_hops is Some {
            1nat
        } else {
            0
        })
    }
}

/// How many of the first `k` balloons believe in a route they do not have.
pub open spec fn misled(balloons: Seq<Balloon>, k: nat) -> nat
    decreases k,
{
    if k == 0 {
        0
    } else {
        misled(balloons, (k - 1) as nat) + (if balloons[k - 1].believed_hops is Some
            && !balloons[k - 1].grounded {
            1nat
        } else {
            0
        })
    }
}

/// How many of the first `k` balloons have a route they do not know of.
pub open spec fn unaware(balloons: Seq<Balloon>, k: nat) -> nat
    decreases k,
{
    if k == 0 {
        0
    } else {
        unaware(balloons, (k - 1) as nat) + (if balloons[k - 1].believed_hops is None
            && balloons[k - 1].grounded {
            1nat
        } else {
            0
        })
    }
}

/// A hundredfold share.
pub open spec fn percent(n: nat, of: nat) -> Ratio {
    stats::share(100 * n, of)
}

/// Belief and truth add up: those who believe and those who are unaware are
/// together those who are grounded and those who are misled.
pub proof fn belief_and_truth_add_up(balloons: Seq<Balloon>, k: nat)
    requires
        k <= balloons.len(),
    ensures
        believers(balloons, k) + unaware(balloons, k) == grounded_among(balloons, k) + misled(
            balloons,
            k,
        ),
        misled(balloons, k) <= believers(balloons, k) <= k,
        unaware(balloons, k) <= grounded_among(balloons, k) <= k,
    decreases k,
{
    if k > 0 {
        belief_and_truth_add_up(balloons, (k - 1) as nat);
    }
}

/// Whether these are the links as clients see them.
pub open spec fn shows_edges(
    shots: Seq<EdgeSnapshot>,
    edges: Seq<Edge>,
    towers: Seq<Tower>,
) -> bool {
    &&& shots.len() == edges.len()
    &&& forall|i: int|
        0 <= i < edges.len() ==> (#[trigger] shots[i]).pair_key@ == link_detection::wire_pair(
            edges[i].a,
            edges[i].b,
        ) && shots[i].grounded == grounding::grounded(edges, towers, edges[i].a)
}

/// Whether this is a transmission as clients see it.
pub open spec fn shows_hop(hop: BeaconHopWire, e: CommsEvent) -> bool {
    &&& hop.from@ == link_detection::wire_key(e.from)
    &&& hop.to@ == link_detection::wire_key(e.to)
    &&& hop.tower_id == (match e.tower_id {
        Some(t) => t,
        None => 0,
    })
    &&& hop.hop_count == (match e.hop_count {
        Some(h) => h,
        None => 0,
    })
    &&& hop.epoch == (match e.epoch {
        Some(n) => n,
        None => 0,
    })
}

/// Whether these are the transmissions as clients see them: none at all rather
/// than an empty list.
pub open spec fn shows_hops(hops: Option<Vec<BeaconHopWire>>, events: Seq<CommsEvent>) -> bool {
    match hops {
        Some(h) => events.len() > 0 && h@.len() == events.len() && forall|i: int|
            0 <= i < events.len() ==> #[trigger] shows_hop(h@[i], events[i]),
        None => events.len() == 0,
    }
}

impl World {
    pub open spec fn wf(self) -> bool {
        &&& self.visible_count <= self.balloons@.len()
        &&& self.visible_count <= u32::MAX
        &&& self.union_find.wf()
    }

    /// The balloons that take part in connectivity.
    pub open spec fn visible(self) -> Seq<Balloon> {
        self.balloons@.take(self.visible_count as int)
    }

    /// The links, if this tick computes them.
    pub open spec fn edges_now(self, rows: Seq<Vec<Candidate>>) -> Seq<Edge> {
        let keys = keys_of(self.visible(), self.towers@);
        link_detection::tried_rows(keys, rows, keys.len()).edges
    }

    /// The balloons after this tick's motion and link detection.
    pub open spec fn flown(
        self,
        readings: Seq<Reading>,
        rows: Seq<Vec<Candidate>>,
    ) -> Seq<Balloon> {
        let moved = carried(self.balloons@, readings);
        if links_on(self.tick_count + 1) {
            stamped(moved, self.visible_count as int, self.edges_now(rows), self.towers@)
        } else {
            moved
        }
    }

    /// Who hears whom after this tick's link detection.
    pub open spec fn topo_now(self, rows: Seq<Vec<Candidate>>) -> Topology {
        if links_on(self.tick_count + 1) {
            mesh_adjacency::topology_of(
                self.edges_now(rows),
                self.visible_count as nat,
                self.towers@,
            )
        } else {
            self.adjacency@
        }
    }

    /// What the protocol sees this tick.
    pub open spec fn scene(self, readings: Seq<Reading>, rows: Seq<Vec<Candidate>>) -> Scene {
        Scene {
            round: ((self.tick_count + 1) / (config::COMMS_EVERY_N_TICKS as int)) as u64,
            balloons: self.flown(readings, rows).take(self.visible_count as int),
            towers: self.towers@,
            topo: self.topo_now(rows),
        }
    }

    /// What a tick demands: readings for every balloon, candidates for every
    /// node where links are computed, and room in the protocol's counters,
    /// dates and sequence numbers where it takes its turn.
    pub open spec fn tickable(self, readings: Seq<Reading>, rows: Seq<Vec<Candidate>>) -> bool {
        &&& self.tick_count < u64::MAX
        &&& readings.len() == self.balloons@.len()
        &&& links_on(self.tick_count + 1) ==> link_detection::rows_within(
            rows,
            (self.visible_count + self.towers@.len()) as nat,
        )
        &&& comms_on(self.tick_count + 1) ==> self.protocol.fits(self.scene(readings, rows))
    }

    /// Whether this is what an unpaused tick leads to, with these
    /// transmissions.
    pub open spec fn ticked(
        self,
        after: World,
        readings: Seq<Reading>,
        rows: Seq<Vec<Candidate>>,
        events: Seq<CommsEvent>,
    ) -> bool {
        let v = self.visible_count as nat;
        let flown = self.flown(readings, rows);
        &&& after.tick_count == self.tick_count + 1
        &&& after.towers@ == self.towers@
        &&& after.horizon_refraction_coeff == self.horizon_refraction_coeff
        &&& after.visible_count == self.visible_count
        &&& after.paused == self.paused
        &&& after.next_balloon_id == self.next_balloon_id
        &&& after.next_tower_id == self.next_tower_id
        &&& after.adjacency@ == self.topo_now(rows)
        &&& if comms_on(self.tick_count + 1) {
            self.protocol.stepped(after.protocol, self.scene(readings, rows), events)
        } else {
            after.protocol == self.protocol && events.len() == 0
        }
        &&& after.balloons@ == published(flown, v as int, after.protocol)
        &&& if links_on(self.tick_count + 1) {
            &&& after.health.mean_degree == stats::share(
                degree_total(self.balloons@, self.edges_now(rows), v),
                v,
            )
            &&& after.health.grounded_pct == percent(grounded_among(flown, v), v)
        } else {
            &&& after.health.mean_degree == self.health.mean_degree
            &&& after.health.grounded_pct == self.health.grounded_pct
        }
        &&& after.health.believed_grounded_pct == percent(believers(after.balloons@, v), v)
        &&& after.health.belief_stale_pct == percent(misled(after.balloons@, v), v)
        &&& after.health.belief_unaware_pct == percent(unaware(after.balloons@, v), v)
    }

    /// Whether a snapshot tells the state of the world.
    pub open spec fn told(self, shot: Snapshot, now_ms: u64) -> bool {
        &&& shot.tick == self.tick_count
        &&& shot.server_time_ms == now_ms
        &&& shot.balloons@ == self.visible()
        &&& shot.towers@ == self.towers@
        &&& shot.horizon_refraction_coeff == self.horizon_refraction_coeff
        &&& shot.paused == self.paused
        &&& shot.mean_degree == self.health.mean_degree
        &&& shot.grounded_pct == self.health.grounded_pct
        &&& shot.believed_grounded_pct == self.health.believed_grounded_pct
        &&& shot.belief_stale_pct == self.health.belief_stale_pct
        &&& shot.belief_unaware_pct == self.health.belief_unaware_pct
        &&& shot.bundles_delivered == self.protocol.landed()
        &&& shot.bundles_lost == stats::capped(self.protocol.settled()) - self.protocol.landed()
        &&& shot.bundles_in_flight == stats::capped(
            self.protocol.held(self.visible_count) as int,
        )
        &&& shot.bundles_stranded == stats::capped(
            self.protocol.held_back(self.visible_count) as int,
        )
    }

    /// Whether the next tick recomputes the links, and so needs candidates.
    pub fn links_due(&self) -> (r: bool)
        requires
            self.tick_count < u64::MAX,
        ensures
            r == links_on(self.tick_count + 1),
    {
        (self.tick_count + 1) % (config::LINK_UPDATE_EVERY_N_TICKS as u64) == 0
    }

    fn snapshot(
        &self,
        now_ms: u64,
        edges: Option<Vec<EdgeSnapshot>>,
        beacon_hops: Option<Vec<BeaconHopWire>>,
    ) -> (shot: Snapshot)
        requires
            self.wf(),
        ensures
            self.told(shot, now_ms),
            shot.edges == edges,
            shot.beacon_hops == beacon_hops,
    {
        let balloons: Vec<Balloon> = slice_to_vec(
            slice_subrange(self.balloons.as_slice(), 0, self.visible_count),
        );
        assert(balloons@ =~= self.visible());
        let towers: Vec<Tower> = slice_to_vec(self.towers.as_slice());
        let delivered: u64 = self.protocol.delivered();
        Snapshot {
            tick: self.tick_count,
            server_time_ms: now_ms,
            balloons,
            towers,
            edges,
            beacon_hops,
            horizon_refraction_coeff: self.horizon_refraction_coeff,
            paused: self.paused,
            mean_degree: self.health.mean_degree,
            grounded_pct: self.health.grounded_pct,
            believed_grounded_pct: self.health.believed_grounded_pct,
            belief_stale_pct: self.health.belief_stale_pct,
            belief_unaware_pct: self.health.belief_unaware_pct,
            bundles_delivered: delivered,
            bundles_lost: self.protocol.resolved() - delivered,
            bundles_in_flight: self.count_carrying(),
            bundles_stranded: self.count_stranded(),
        }
    }

    fn count_carrying(&self) -> (r: u64)
        ensures
            r == stats::capped(self.protocol.held(self.visible_count) as int),
    {
        self.protocol.carrying(self.visible_count)
    }

    /// Held by a balloon that believes it has no route: waiting, not lost.
    fn count_stranded(&self) -> (r: u64)
        ensures
            r == stats::capped(self.protocol.held_back(self.visible_count) as int),
    {
        self.protocol.stranded(self.visible_count)
    }

    /// Takes the balloons to their new places.
    fn carry(&mut self, readings: &Vec<Reading>)
        requires
            readings@.len() == old(self).balloons@.len(),
        ensures
            *final(self) == (World { balloons: final(self).balloons, ..*old(self) }),
            final(self).balloons@ == carried(old(self).balloons@, readings@),
    {
        let ghost before = self.balloons@;
        let mut i: usize = 0;
        while i < self.balloons.len()
            invariant
                i <= before.len(),
                readings@.len() == before.len(),
                self.balloons@.len() == before.len(),
                *self == (World { balloons: self.balloons, ..*old(self) }),
                forall|j: int|
                    0 <= j < before.len() ==> #[trigger] self.balloons@[j] == (if j < i {
                        carried(before, readings@)[j]
                    } else {
                        before[j]
                    }),
            decreases before.len() - i,
        {
            let b: Balloon = self.balloons[i];
            self.balloons.set(i, Balloon { reading: readings[i], ..b });
            i += 1;
        }
        assert(self.balloons@ =~= carried(before, readings@));
    }

    fn node_keys(&self) -> (r: Vec<NodeKey>)
        requires
            self.wf(),
        ensures
            r@ == keys_of(self.visible(), self.towers@),
    {
        let mut r: Vec<NodeKey> = Vec::new();
        let mut i: usize = 0;
        while i < self.visible_count
            invariant
                i <= self.visible_count <= self.balloons@.len(),
                r@.len() == i,
                forall|j: int|
                    0 <= j < i ==> #[trigger] r@[j] == NodeKey::Balloon(self.balloons@[j].id),
            decreases self.visible_count - i,
        {
            r.push(NodeKey::Balloon(self.balloons[i].id));
            i += 1;
        }
        let mut t: usize = 0;
        let ghost v = self.visible_count as int;
        while t < self.towers.len()
            invariant
                t <= self.towers@.len(),
                r@.len() == v + t,
                v == self.visible_count,
                v <= self.balloons@.len(),
                forall|j: int|
                    0 <= j < v ==> #[trigger] r@[j] == NodeKey::Balloon(self.balloons@[j].id),
                forall|j: int|
                    0 <= j < t ==> #[trigger] r@[v + j] == NodeKey::Tower(self.towers@[j].id),
            decreases self.towers@.len() - t,
        {
            let ghost before = r@;
            r.push(NodeKey::Tower(self.towers[t].id));
            assert forall|j: int| 0 <= j < t + 1 implies #[trigger] r@[v + j] == NodeKey::Tower(
                self.towers@[j].id,
            ) by {
                if j < t {
                    assert(before[v + j] == NodeKey::Tower(self.towers@[j].id));
                }
            }
            t += 1;
        }
        assert forall|j: int| 0 <= j < r@.len() implies r@[j] == keys_of(
            self.visible(),
            self.towers@,
        )[j] by {
            if j >= v {
                assert(r@[v + (j - v)] == NodeKey::Tower(self.towers@[j - v].id));
            }
        }
        assert(r@ =~= keys_of(self.visible(), self.towers@));
        r
    }
}

fn count_ends(edges: &Vec<Edge>, key: NodeKey) -> (r: u128)
    ensures
        r == ends_at(edges@, edges@.len(), key),
        r <= 2 * edges@.len(),
{
    let mut r: u128 = 0;
    let mut e: usize = 0;
    while e < edges.len()
        invariant
            e <= edges@.len(),
            r == ends_at(edges@, e as nat, key),
            r <= 2 * e,
        decreases edges@.len() - e,
    {
        if edges[e].a == key {
            r += 1;
        }
        if edges[e].b == key {
            r += 1;
        }
        e += 1;
    }
    r
}

fn fraction(num: u128, den: usize) -> (r: Ratio)
    ensures
        r == stats::share(num as nat, den as nat),
{
    if den == 0 {
        Ratio { num: 0, den: 1 }
    } else {
        Ratio { num, den: den as u128 }
    }
}

/// The links as clients see them.
fn edge_snapshots(
    sets: &mut UnionFind,
    roots: &HashSet<u64>,
    towers: &Vec<Tower>,
    keys: &Vec<NodeKey>,
    edges: &Vec<Edge>,
) -> (r: Vec<EdgeSnapshot>)
    requires
        old(sets).wf(),
        grounding::settled(old(sets)@, keys@, edges@),
        grounding::towers_among(towers@, keys@),
        grounding::ends_among(edges@, keys@),
        grounding::are_roots(roots@, old(sets)@, towers@, towers@.len() as int),
    ensures
        final(sets).wf(),
        shows_edges(r@, edges@, towers@),
{
    let mut r: Vec<EdgeSnapshot> = Vec::new();
    let ghost reps = sets@;
    let mut e: usize = 0;
    while e < edges.len()
        invariant
            e <= edges@.len(),
            sets.wf(),
            sets@ == reps,
            grounding::settled(reps, keys@, edges@),
            grounding::towers_among(towers@, keys@),
            grounding::ends_among(edges@, keys@),
            grounding::are_roots(roots@, reps, towers@, towers@.len() as int),
            r@.len() == e,
            forall|i: int|
                0 <= i < e ==> (#[trigger] r@[i]).pair_key@ == link_detection::wire_pair(
                    edges@[i].a,
                    edges@[i].b,
                ) && r@[i].grounded == grounding::grounded(edges@, towers@, edges@[i].a),
        decreases edges@.len() - e,
    {
        let edge: Edge = edges[e];
        assert(edge == edges@[e as int]);
        let grounded: bool = grounding::is_grounded(sets, roots, edge.a, towers, keys, edges);
        r.push(EdgeSnapshot { pair_key: link_detection::wire_pair_key(edge.a, edge.b), grounded });
        e += 1;
    }
    r
}

/// The transmissions as clients see them.
fn hop_wires(events: &Vec<CommsEvent>) -> (r: Option<Vec<BeaconHopWire>>)
    ensures
        shows_hops(r, events@),
{
    if events.len() == 0 {
        return None;
    }
    let mut r: Vec<BeaconHopWire> = Vec::new();
    let mut i: usize = 0;
    while i < events.len()
        invariant
            i <= events@.len(),
            r@.len() == i,
            forall|j: int| 0 <= j < i ==> #[trigger] shows_hop(r@[j], events@[j]),
        decreases events@.len() - i,
    {
        let e: CommsEvent = events[i];
        let hop = BeaconHopWire {
            from: e.from.to_wire(),
            to: e.to.to_wire(),
            tower_id: match e.tower_id {
                Some(t) => t,
                None => 0,
            },
            hop_count: match e.hop_count {
                Some(h) => h,
                None => 0,
            },
            epoch: match e.epoch {
                Some(n) => n,
                None => 0,
            },
        };
        let ghost before = r@;
        r.push(hop);
        assert forall|j: int| 0 <= j < i + 1 implies #[trigger] shows_hop(r@[j], events@[j]) by {
            if j < i {
                assert(r@[j] == before[j]);
            }
        }
        i += 1;
    }
    Some(r)
}

proof fn lemma_keys_hold_towers(visible: Seq<Balloon>, towers: Seq<Tower>)
    ensures
        grounding::towers_among(towers, keys_of(visible, towers)),
        forall|i: int|
            0 <= i < visible.len() ==> keys_of(visible, towers).contains(
                NodeKey::Balloon((#[trigger] visible[i]).id),
            ),
{
    let keys = keys_of(visible, towers);
    assert forall|t: int| 0 <= t < towers.len() implies keys.contains(
        NodeKey::Tower((#[trigger] towers[t]).id),
    ) by {
        assert(keys[visible.len() + t] == NodeKey::Tower(towers[t].id));
    }
    assert forall|i: int| 0 <= i < visible.len() implies keys.contains(
        NodeKey::Balloon((#[trigger] visible[i]).id),
    ) by {
        assert(keys[i] == NodeKey::Balloon(visible[i].id));
    }
}

proof fn lemma_carried_keys(balloons: Seq<Balloon>, readings: Seq<Reading>, v: int, towers: Seq<Tower>)
    requires
        0 <= v <= balloons.len(),
    ensures
        keys_of(carried(balloons, readings).take(v), towers) == keys_of(balloons.take(v), towers),
{
    assert(keys_of(carried(balloons, readings).take(v), towers) =~= keys_of(
        balloons.take(v),
        towers,
    ));
}

proof fn lemma_carried_degrees(
    balloons: Seq<Balloon>,
    readings: Seq<Reading>,
    edges: Seq<Edge>,
    k: nat,
)
    requires
        k <= balloons.len(),
    ensures
        degree_total(carried(balloons, readings), edges, k) == degree_total(balloons, edges, k),
    decreases k,
{
    if k > 0 {
        lemma_carried_degrees(balloons, readings, edges, (k - 1) as nat);
    }
}

proof fn lemma_grounded_prefix(a: Seq<Balloon>, b: Seq<Balloon>, k: nat)
    requires
        k <= a.len(),
        k <= b.len(),
        forall|i: int| 0 <= i < k ==> (#[trigger] a[i]).grounded == b[i].grounded,
    ensures
        grounded_among(a, k) == grounded_among(b, k),
    decreases k,
{
    if k > 0 {
        lemma_grounded_prefix(a, b, (k - 1) as nat);
    }
}

impl World {
    /// Stamps the ground truth on the visible balloons, and counts degrees and
    /// grounded balloons.
    fn stamp(&mut self, roots: &HashSet<u64>, keys: &Vec<NodeKey>, edges: &Vec<Edge>) -> (r: (
        u128,
        u128,
    ))
        requires
            old(self).wf(),
            keys@ == keys_of(old(self).visible(), old(self).towers@),
            grounding::settled(old(self).union_find@, keys@, edges@),
            grounding::are_roots(
                roots@,
                old(self).union_find@,
                old(self).towers@,
                old(self).towers@.len() as int,
            ),
        ensures
            final(self).wf(),
            *final(self) == (World {
                balloons: final(self).balloons,
                union_find: final(self).union_find,
                ..*old(self)
            }),
            final(self).union_find@ == old(self).union_find@,
            final(self).balloons@ == stamped(
                old(self).balloons@,
                old(self).visible_count as int,
                edges@,
                old(self).towers@,
            ),
            r.0 == degree_total(old(self).balloons@, edges@, old(self).visible_count as nat),
            r.1 == grounded_among(final(self).balloons@, old(self).visible_count as nat),
            r.1 <= old(self).visible_count,
    {
        let ghost before = self.balloons@;
        let ghost reps = self.union_find@;
        let ghost towers = self.towers@;
        let v: usize = self.visible_count;
        let edge_count: usize = edges.len();
        let mut degrees: u128 = 0;
        let mut grounded_count: u128 = 0;
        let mut i: usize = 0;
        proof {
            lemma_keys_hold_towers(self.visible(), towers);
        }
        while i < v
            invariant
                i <= v,
                v <= before.len(),
                v <= u32::MAX,
                v == self.visible_count,
                edge_count == edges@.len(),
                self.towers@ == towers,
                self.balloons@.len() == before.len(),
                self.union_find.wf(),
                self.union_find@ == reps,
                *self == (World {
                    balloons: self.balloons,
                    union_find: self.union_find,
                    ..*old(self)
                }),
                keys@ == keys_of(before.take(v as int), towers),
                grounding::towers_among(towers, keys@),
                forall|j: int|
                    0 <= j < v ==> keys@.contains(
                        NodeKey::Balloon((#[trigger] before.take(v as int)[j]).id),
                    ),
                grounding::settled(reps, keys@, edges@),
                grounding::are_roots(roots@, reps, towers, towers.len() as int),
                forall|j: int|
                    0 <= j < before.len() ==> #[trigger] self.balloons@[j] == (if j < i {
                        stamped(before, v as int, edges@, towers)[j]
                    } else {
                        before[j]
                    }),
                degrees == degree_total(before, edges@, i as nat),
                degrees <= 2 * edge_count * i,
                grounded_count == grounded_among(self.balloons@, i as nat),
                grounded_count <= i,
            decreases v - i,
        {
            let key: NodeKey = NodeKey::Balloon(self.balloons[i].id);
            assert(before.take(v as int)[i as int] == before[i as int]);
            let ghost so_far = self.balloons@;
            let ends: u128 = count_ends(edges, key);
            proof {
                let e = edge_count as int;
                let n = i as int;
                assert(2 * e * n <= 2 * 0x1_0000_0000_0000_0000 * 0x1_0000_0000) by (nonlinear_arith)
                    requires
                        0 <= e < 0x1_0000_0000_0000_0000,
                        0 <= n < 0x1_0000_0000,
                ;
                assert(2 * e * n + 2 * e == 2 * e * (n + 1)) by (nonlinear_arith);
            }
            degrees = degrees + ends;
            let grounded: bool = grounding::is_grounded(
                &mut self.union_find,
                roots,
                key,
                &self.towers,
                keys,
                edges,
            );
            let b: Balloon = self.balloons[i];
            self.balloons.set(i, Balloon { grounded, ..b });
            proof {
                lemma_grounded_prefix(so_far, self.balloons@, i as nat);
            }
            if grounded {
                grounded_count = grounded_count + 1;
            }
            i += 1;
        }
        assert(self.balloons@ =~= stamped(before, v as int, edges@, towers));
        (degrees, grounded_count)
    }

    /// Computes the links, and everything that follows from them.
    fn find_links(&mut self, rows: &Vec<Vec<Candidate>>) -> (r: Vec<EdgeSnapshot>)
        requires
            old(self).wf(),
            link_detection::rows_within(
                rows@,
                (old(self).visible_count + old(self).towers@.len()) as nat,
            ),
        ensures
            final(self).wf(),
            *final(self) == (World {
                balloons: final(self).balloons,
                union_find: final(self).union_find,
                adjacency: final(self).adjacency,
                health: final(self).health,
                ..*old(self)
            }),
            final(self).balloons@ == stamped(
                old(self).balloons@,
                old(self).visible_count as int,
                old(self).edges_now(rows@),
                old(self).towers@,
            ),
            final(self).adjacency@ == mesh_adjacency::topology_of(
                old(self).edges_now(rows@),
                old(self).visible_count as nat,
                old(self).towers@,
            ),
            final(self).health == (Health {
                mean_degree: stats::share(
                    degree_total(
                        old(self).balloons@,
                        old(self).edges_now(rows@),
                        old(self).visible_count as nat,
                    ),
                    old(self).visible_count as nat,
                ),
                grounded_pct: percent(
                    grounded_among(final(self).balloons@, old(self).visible_count as nat),
                    old(self).visible_count as nat,
                ),
                ..old(self).health
            }),
            shows_edges(r@, old(self).edges_now(rows@), old(self).towers@),
    {
        let keys: Vec<NodeKey> = self.node_keys();
        assert(keys@.len() == self.visible_count + self.towers@.len());
        let edges: Vec<Edge> = link_detection::compute_grid_edges(&keys, rows);
        proof {
            grounding::links_join_the_nodes(keys@, rows@, keys@.len());
            lemma_keys_hold_towers(self.visible(), self.towers@);
        }
        grounding::join_links(&mut self.union_find, &keys, &edges);
        let roots: HashSet<u64> = grounding::tower_roots(
            &mut self.union_find,
            &self.towers,
            &keys,
            &edges,
        );
        let (degrees, grounded_count) = self.stamp(&roots, &keys, &edges);
        self.health.mean_degree = fraction(degrees, self.visible_count);
        self.health.grounded_pct = fraction(100 * grounded_count, self.visible_count);
        self.adjacency.rebuild(
            edges.as_slice(),
            self.visible_count,
            self.towers.as_slice(),
        );
        edge_snapshots(&mut self.union_find, &roots, &self.towers, &keys, &edges)
    }

    /// Publishes each visible balloon's belief, and counts how far belief has
    /// drifted from truth. Both kinds of drift are expected.
    fn publish(&mut self)
        requires
            old(self).wf(),
        ensures
            final(self).wf(),
            *final(self) == (World {
                balloons: final(self).balloons,
                health: final(self).health,
                ..*old(self)
            }),
            final(self).balloons@ == published(
                old(self).balloons@,
                old(self).visible_count as int,
                old(self).protocol,
            ),
            final(self).health == (Health {
                believed_grounded_pct: percent(
                    believers(final(self).balloons@, old(self).visible_count as nat),
                    old(self).visible_count as nat,
                ),
                belief_stale_pct: percent(
                    misled(final(self).balloons@, old(self).visible_count as nat),
                    old(self).visible_count as nat,
                ),
                belief_unaware_pct: percent(
                    unaware(final(self).balloons@, old(self).visible_count as nat),
                    old(self).visible_count as nat,
                ),
                ..old(self).health
            }),
    {
        let ghost before = self.balloons@;
        let v: usize = self.visible_count;
        let mut believes: u128 = 0;
        let mut stale: u128 = 0;
        let mut unknowing: u128 = 0;
        let mut i: usize = 0;
        while i < v
            invariant
                i <= v,
                v <= before.len(),
                v <= u32::MAX,
                v == self.visible_count,
                self.balloons@.len() == before.len(),
                self.protocol == old(self).protocol,
                *self == (World { balloons: self.balloons, ..*old(self) }),
                forall|j: int|
                    0 <= j < before.len() ==> #[trigger] self.balloons@[j] == (if j < i {
                        published(before, v as int, self.protocol)[j]
                    } else {
                        before[j]
                    }),
                believes == believers(self.balloons@, i as nat),
                stale == misled(self.balloons@, i as nat),
                unknowing == unaware(self.balloons@, i as nat),
                believes <= i,
                stale <= i,
                unknowing <= i,
            decreases v - i,
        {
            let view: NodeCommsView = self.protocol.node_view(i);
            let b: Balloon = self.balloons[i];
            let ghost so_far = self.balloons@;
            self.balloons.set(
                i,
                Balloon { believed_hops: view.route_hops, last_channel: view.last_channel, ..b },
            );
            proof {
                lemma_beliefs_prefix(so_far, self.balloons@, i as nat);
            }
            match (view.route_hops.is_some(), b.grounded) {
                (true, true) => {
                    believes = believes + 1;
                },
                (true, false) => {
                    believes = believes + 1;
                    stale = stale + 1;
                },
                (false, true) => {
                    unknowing = unknowing + 1;
                },
                (false, false) => {},
            }
            i += 1;
        }
        assert(self.balloons@ =~= published(before, v as int, self.protocol));
        self.health.believed_grounded_pct = fraction(100 * believes, v);
        self.health.belief_stale_pct = fraction(100 * stale, v);
        self.health.belief_unaware_pct = fraction(100 * unknowing, v);
    }

    /// Lets the protocol take its round.
    fn converse(&mut self) -> (events: Vec<CommsEvent>)
        requires
            old(self).wf(),
            old(self).protocol.fits(old(self).present()),
        ensures
            final(self).wf(),
            *final(self) == (World { protocol: final(self).protocol, ..*old(self) }),
            old(self).protocol.stepped(final(self).protocol, old(self).present(), events@),
    {
        let ctx = StepCtx {
            round: self.tick_count / config::COMMS_EVERY_N_TICKS,
            balloons: slice_subrange(self.balloons.as_slice(), 0, self.visible_count),
            towers: self.towers.as_slice(),
            adj: &self.adjacency,
        };
        assert(ctx@ =~= self.present());
        self.protocol.step(ctx)
    }

    spec fn present(self) -> Scene {
        Scene {
            round: (self.tick_count / config::COMMS_EVERY_N_TICKS) as u64,
            balloons: self.visible(),
            towers: self.towers@,
            topo: self.adjacency@,
        }
    }

    /// Whether the world can advance over these readings and candidates.
    pub fn can_tick(&self, readings: &Vec<Reading>, rows: &Vec<Vec<Candidate>>) -> (r: bool)
        requires
            self.wf(),
        ensures
            r == self.tickable(readings@, rows@),
    {
        if self.tick_count == u64::MAX || readings.len() != self.balloons.len() {
            return false;
        }
        let keys: Vec<NodeKey> = self.node_keys();
        if self.links_due() && !link_detection::are_rows_within(rows, keys.len()) {
            return false;
        }
        if (self.tick_count + 1) % config::COMMS_EVERY_N_TICKS != 0 {
            return true;
        }
        let round: u64 = (self.tick_count + 1) / config::COMMS_EVERY_N_TICKS;
        let balloons: &[Balloon] = slice_subrange(
            self.balloons.as_slice(),
            0,
            self.visible_count,
        );
        let towers: &[Tower] = self.towers.as_slice();
        self.protocol.can_step(StepCtx { round, balloons, towers, adj: &self.adjacency })
    }

    /// Advances one tick and tells what clients are told. A paused world
    /// stands still and is told all the same. The balloons' new readings, and
    /// the candidates where the links are due, are handed in.
    pub fn tick(
        &mut self,
        now_ms: u64,
        readings: &Vec<Reading>,
        rows: &Vec<Vec<Candidate>>,
    ) -> (shot: Snapshot)
        requires
            old(self).wf(),
            !old(self).paused ==> old(self).tickable(readings@, rows@),
        ensures
            final(self).wf(),
            final(self).told(shot, now_ms),
            old(self).paused ==> *final(self) == *old(self) && shot.edges is None
                && shot.beacon_hops is None,
            !old(self).paused ==> {
                &&& exists|events: Seq<CommsEvent>| #[trigger]
                    old(self).ticked(*final(self), readings@, rows@, events) && shows_hops(
                        shot.beacon_hops,
                        events,
                    )
                &&& match shot.edges {
                    Some(e) => links_on(final(self).tick_count as int) && shows_edges(
                        e@,
                        old(self).edges_now(rows@),
                        old(self).towers@,
                    ),
                    None => !links_on(final(self).tick_count as int),
                }
            },
    {
        if self.paused {
            return self.snapshot(now_ms, None, None);
        }
        self.carry(readings);
        self.tick_count = self.tick_count + 1;
        let ghost carried_now = *self;
        proof {
            lemma_carried_keys(
                old(self).balloons@,
                readings@,
                self.visible_count as int,
                self.towers@,
            );
            assert(carried_now.edges_now(rows@) == old(self).edges_now(rows@));
            lemma_carried_degrees(
                old(self).balloons@,
                readings@,
                old(self).edges_now(rows@),
                self.visible_count as nat,
            );
        }
        let edges: Option<Vec<EdgeSnapshot>> = if self.tick_count
            % (config::LINK_UPDATE_EVERY_N_TICKS as u64) == 0 {
            Some(self.find_links(rows))
        } else {
            None
        };
        let ghost linked = *self;
        assert(linked.balloons@ == old(self).flown(readings@, rows@));
        assert(linked.present() == old(self).scene(readings@, rows@));
        let events: Vec<CommsEvent> = if self.tick_count % config::COMMS_EVERY_N_TICKS == 0 {
            self.converse()
        } else {
            Vec::new()
        };
        let beacon_hops: Option<Vec<BeaconHopWire>> = hop_wires(&events);
        self.publish();
        assert(old(self).ticked(*self, readings@, rows@, events@));
        self.snapshot(now_ms, edges, beacon_hops)
    }
}

proof fn lemma_beliefs_prefix(a: Seq<Balloon>, b: Seq<Balloon>, k: nat)
    requires
        k <= a.len(),
        k <= b.len(),
        forall|i: int| 0 <= i < k ==> #[trigger] a[i] == b[i],
    ensures
        believers(a, k) == believers(b, k),
        misled(a, k) == misled(b, k),
        unaware(a, k) == unaware(b, k),
    decreases k,
{
    if k > 0 {
        lemma_beliefs_prefix(a, b, (k - 1) as nat);
    }
}

/// The towers other than one.
pub open spec fn without(towers: Seq<Tower>, id: u32) -> Seq<Tower> {
    towers.filter(|t: Tower| t.id != id)
}

/// Whether this is what is known of one balloon's communications.
pub open spec fn answers(w: World, id: u32, r: Option<BalloonComms>) -> bool {
    match r {
        Some(c) => {
            &&& id < w.balloons@.len()
            &&& c.id == w.balloons@[id as int].id
            &&& c.believed_hops == w.balloons@[id as int].believed_hops
            &&& c.grounded == w.balloons@[id as int].grounded
            &&& w.protocol.recalls(id as int, c.last_bundle)
            &&& c.log@ == w.protocol.log_of(id as int)
        },
        None => id >= w.balloons@.len(),
    }
}

impl World {
    /// An empty world under the default protocol. `coeff` is the bit pattern
    /// of the horizon coefficient.
    pub fn new(coeff: u64) -> (w: World)
        ensures
            w.wf(),
            w.balloons@.len() == 0,
            w.towers@.len() == 0,
            w.horizon_refraction_coeff == coeff,
            w.visible_count == 0,
            !w.paused,
            w.health == no_health(),
            mesh::pristine(
                ProtocolSpec::DvDtn(dv_dtn::params::default_params()),
                w.protocol,
            ),
            w.adjacency@ == mesh_adjacency::topology_of(Seq::empty(), 0, Seq::empty()),
            w.next_balloon_id == 0,
            w.next_tower_id == 0,
            w.tick_count == 0,
    {
        let nothing: Ratio = Ratio { num: 0, den: 1 };
        World {
            balloons: Vec::new(),
            towers: Vec::new(),
            horizon_refraction_coeff: coeff,
            visible_count: 0,
            paused: false,
            health: Health {
                mean_degree: nothing,
                grounded_pct: nothing,
                believed_grounded_pct: nothing,
                belief_stale_pct: nothing,
                belief_unaware_pct: nothing,
            },
            protocol: ProtocolSpec::default().build(),
            adjacency: MeshAdjacency::default(),
            next_balloon_id: 0,
            next_tower_id: 0,
            union_find: UnionFind::new(),
            tick_count: 0,
        }
    }

    /// Pins the protocol's random choices, for a reproducible run.
    pub fn with_seed(self, seed: u64) -> (w: World)
        ensures
            w == (World { protocol: w.protocol, ..self }),
            self.protocol.alike(w.protocol),
            w.protocol.seeded_with(seed),
    {
        let mut w: World = self;
        w.protocol.reseed(seed);
        w
    }

    /// Replaces the balloons by a pool with these readings, every one with a
    /// fresh node in the protocol. Meant for once, at the start: what discovery
    /// has under way goes by place, and is left to the new pool.
    pub fn spawn_balloon_pool(&mut self, readings: &Vec<Reading>)
        requires
            old(self).wf(),
            old(self).protocol.can_spawn(),
            old(self).next_balloon_id + readings@.len() <= u32::MAX,
        ensures
            old(self).visible_count <= readings@.len() ==> final(self).wf(),
            *final(self) == (World {
                balloons: final(self).balloons,
                protocol: final(self).protocol,
                next_balloon_id: (old(self).next_balloon_id + readings@.len()) as u32,
                ..*old(self)
            }),
            final(self).balloons@ == Seq::new(
                readings@.len(),
                |i: int|
                    (Balloon {
                        id: (old(self).next_balloon_id + i) as u32,
                        reading: readings@[i],
                        believed_hops: None,
                        grounded: false,
                        last_channel: None,
                    }),
            ),
            old(self).protocol.restocked(final(self).protocol, readings@.len()),
    {
        self.balloons.clear();
        self.protocol.clear_nodes();
        let ghost first = old(self).next_balloon_id;
        let mut i: usize = 0;
        while i < readings.len()
            invariant
                i <= readings@.len(),
                first == old(self).next_balloon_id,
                first + readings@.len() <= u32::MAX,
                self.next_balloon_id == first + i,
                self.protocol.can_spawn(),
                *self == (World {
                    balloons: self.balloons,
                    protocol: self.protocol,
                    next_balloon_id: self.next_balloon_id,
                    ..*old(self)
                }),
                self.balloons@.len() == i,
                forall|j: int|
                    0 <= j < i ==> #[trigger] self.balloons@[j] == (Balloon {
                        id: (first + j) as u32,
                        reading: readings@[j],
                        believed_hops: None,
                        grounded: false,
                        last_channel: None,
                    }),
                old(self).protocol.restocked(self.protocol, i as nat),
            decreases readings@.len() - i,
        {
            let ghost before = self.protocol;
            self.protocol.spawn_node();
            proof {
                mesh::lemma_one_more(old(self).protocol, before, self.protocol, i as nat);
            }
            self.balloons.push(Balloon::new(self.next_balloon_id, readings[i]));
            self.next_balloon_id = self.next_balloon_id + 1;
            i += 1;
        }
    }

    /// Says how many of the balloons take part in connectivity.
    pub fn set_visible_count(&mut self, n: u32)
        requires
            old(self).wf(),
        ensures
            final(self).wf(),
            *final(self) == (World {
                visible_count: if n < old(self).balloons@.len() {
                    n as usize
                } else {
                    old(self).balloons@.len() as usize
                },
                ..*old(self)
            }),
    {
        let pool: usize = self.balloons.len();
        self.visible_count = if (n as usize) < pool {
            n as usize
        } else {
            pool
        };
    }

    /// Puts up a tower under the next id.
    pub fn add_tower(&mut self, lon: u64, lat: u64, height_m: u64)
        requires
            old(self).wf(),
            old(self).next_tower_id < u32::MAX,
        ensures
            final(self).wf(),
            *final(self) == (World {
                towers: final(self).towers,
                protocol: final(self).protocol,
                next_tower_id: (old(self).next_tower_id + 1) as u32,
                ..*old(self)
            }),
            final(self).towers@ == old(self).towers@.push(
                tower::fresh(old(self).next_tower_id, lon, lat, height_m),
            ),
            old(self).protocol.gained(final(self).protocol, old(self).next_tower_id),
    {
        self.towers.push(Tower::new(self.next_tower_id, lon, lat, height_m));
        self.protocol.add_tower(self.next_tower_id);
        self.next_tower_id = self.next_tower_id + 1;
    }

    /// Takes a tower down.
    pub fn remove_tower(&mut self, id: u32)
        requires
            old(self).wf(),
        ensures
            final(self).wf(),
            *final(self) == (World {
                towers: final(self).towers,
                protocol: final(self).protocol,
                ..*old(self)
            }),
            final(self).towers@ == without(old(self).towers@, id),
            old(self).protocol.lost(final(self).protocol, id),
    {
        let mut kept: Vec<Tower> = Vec::new();
        let mut i: usize = 0;
        let ghost other = |t: Tower| t.id != id;
        proof {
            reveal(Seq::filter);
            assert(self.towers@.take(0).filter(other) =~= Seq::<Tower>::empty());
        }
        while i < self.towers.len()
            invariant
                i <= self.towers@.len(),
                other == (|t: Tower| t.id != id),
                kept@ == self.towers@.take(i as int).filter(other),
            decreases self.towers@.len() - i,
        {
            let t: Tower = self.towers[i];
            proof {
                reveal(Seq::filter);
                assert(self.towers@.take(i + 1).drop_last() =~= self.towers@.take(i as int));
                assert(self.towers@.take(i + 1).last() == t);
            }
            if t.id != id {
                kept.push(t);
            }
            i += 1;
        }
        assert(self.towers@.take(i as int) =~= self.towers@);
        self.towers = kept;
        self.protocol.remove_tower(id);
    }

    /// What the inspector shows of one balloon.
    fn balloon_comms(&self, id: u32) -> (r: Option<BalloonComms>)
        ensures
            answers(*self, id, r),
    {
        if id as usize >= self.balloons.len() {
            return None;
        }
        let b: Balloon = self.balloons[id as usize];
        Some(
            BalloonComms {
                id: b.id,
                believed_hops: b.believed_hops,
                grounded: b.grounded,
                last_bundle: self.protocol.last_bundle(id as usize),
                log: self.protocol.log(id as usize),
            },
        )
    }

    /// Carries out a command.
    pub fn apply(&mut self, cmd: Command) -> (r: Reply)
        requires
            old(self).wf(),
            cmd is AddTower ==> old(self).next_tower_id < u32::MAX,
        ensures
            final(self).wf(),
            match cmd {
                Command::SetBalloonCount(n) => r is Done && *final(self) == (World {
                    visible_count: if n < old(self).balloons@.len() {
                        n as usize
                    } else {
                        old(self).balloons@.len() as usize
                    },
                    ..*old(self)
                }),
                Command::AddTower { lon, lat, height_m } => {
                    &&& r is Done
                    &&& *final(self) == (World {
                        towers: final(self).towers,
                        protocol: final(self).protocol,
                        next_tower_id: (old(self).next_tower_id + 1) as u32,
                        ..*old(self)
                    })
                    &&& final(self).towers@ == old(self).towers@.push(
                        tower::fresh(old(self).next_tower_id, lon, lat, height_m),
                    )
                    &&& old(self).protocol.gained(final(self).protocol, old(self).next_tower_id)
                },
                Command::RemoveTower { id } => {
                    &&& r is Done
                    &&& *final(self) == (World {
                        towers: final(self).towers,
                        protocol: final(self).protocol,
                        ..*old(self)
                    })
                    &&& final(self).towers@ == without(old(self).towers@, id)
                    &&& old(self).protocol.lost(final(self).protocol, id)
                },
                Command::SetHorizonRefractionCoeff(c) => r is Done && *final(self) == (World {
                    horizon_refraction_coeff: c,
                    ..*old(self)
                }),
                Command::SetPaused(p) => r is Done && *final(self) == (World {
                    paused: p,
                    ..*old(self)
                }),
                Command::QueryBalloonComms { id } => {
                    &&& *final(self) == *old(self)
                    &&& r matches Reply::Comms(c) && answers(*old(self), id, c)
                },
            },
    {
        match cmd {
            Command::SetBalloonCount(n) => self.set_visible_count(n),
            Command::AddTower { lon, lat, height_m } => self.add_tower(lon, lat, height_m),
            Command::RemoveTower { id } => self.remove_tower(id),
            Command::SetHorizonRefractionCoeff(c) => {
                self.horizon_refraction_coeff = c;
            },
            Command::SetPaused(p) => {
                self.paused = p;
            },
            Command::QueryBalloonComms { id } => {
                return Reply::Comms(self.balloon_comms(id));
            },
        }
        Reply::Done
    }

    /// The distance-vector protocol's state, for a world that runs it.
    pub fn dv_dtn(&self) -> (r: &DvDtn)
        requires
            self.protocol is DvDtn,
        ensures
            MeshProtocol::DvDtn(*r) == self.protocol,
    {
        match &self.protocol {
            MeshProtocol::DvDtn(d) => d,
            MeshProtocol::Epidemic(_) => {
                vstd::pervasive::unreached()
            },
        }
    }

    /// That protocol's counters.
    pub fn bundle_stats(&self) -> (r: BundleStats)
        requires
            self.protocol is DvDtn,
        ensures
            r == self.protocol->DvDtn_0.stats,
    {
        self.dv_dtn().stats
    }

    /// Stops all origination.
    pub fn halt_origination(&mut self)
        requires
            old(self).wf(),
        ensures
            final(self).wf(),
            *final(self) == (World { protocol: final(self).protocol, ..*old(self) }),
            old(self).protocol.halted(final(self).protocol),
    {
        self.protocol.halt_origination();
    }
}

impl World {
    /// The same world under another protocol, which has done nothing yet.
    pub fn with_protocol(self, choice: &ProtocolSpec) -> (w: World)
        ensures
            w == (World { protocol: w.protocol, ..self }),
            mesh::pristine(*choice, w.protocol),
    {
        let mut w: World = self;
        w.protocol = choice.build();
        w
    }

    /// The protocol's counters as a keyed table.
    pub fn stats(&self) -> (r: StatsTable)
        requires
            self.protocol.tabulable(),
        ensures
            r@ == self.protocol.table(),
    {
        self.protocol.stats()
    }
}
} // verus!
