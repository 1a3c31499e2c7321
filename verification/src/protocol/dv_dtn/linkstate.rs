//! Gossiped link-state: balloons exchange whom they can hear, and each works
//! out its own route from the picture it has assembled.
use std::collections::{HashMap, HashSet, VecDeque};

use rand::rngs::StdRng;
use vstd::prelude::*;

use crate::balloon::Balloon;
use crate::link_detection::NodeKey;
use crate::mesh_adjacency::{MeshAdjacency, Topology};
use crate::protocol::{CommsEvent, EventKind};

use super::beacon;
use super::beacon::RouteBelief;
use super::bundle;
use super::params::DvDtnParams;
use super::{DvNode, NodeModel};

verus! {

broadcast use vstd::std_specs::hash::group_hash_axioms;

/// One balloon's observation of its own surroundings, as broadcast. No
/// distances, no next hops, no conclusions.
#[derive(Debug)]
pub struct Lsa {
    pub origin: u32,
    /// Tells a newer observation from an older one.
    pub seq: u64,
    /// When the originator observed this, never restamped by a relay.
    pub emitted_at_round: u64,
    pub neighbors: Vec<u32>,
    /// A tower this balloon can hand a bundle straight to, if any.
    pub tower: Option<u32>,
}

/// The mathematical content of an `Lsa`.
#[verifier::ext_equal]
pub struct LsaModel {
    pub origin: u32,
    pub seq: u64,
    pub emitted_at_round: u64,
    pub neighbors: Seq<u32>,
    pub tower: Option<u32>,
}

impl View for Lsa {
    type V = LsaModel;

    open spec fn view(&self) -> LsaModel {
        LsaModel {
            origin: self.origin,
            seq: self.seq,
            emitted_at_round: self.emitted_at_round,
            neighbors: self.neighbors@,
            tower: self.tower,
        }
    }
}

impl Clone for Lsa {
    fn clone(&self) -> (r: Lsa)
        ensures
            r@ == self@,
    {
        let neighbors: Vec<u32> = self.neighbors.clone();
        assert(neighbors@ =~= self.neighbors@);
        Lsa {
            origin: self.origin,
            seq: self.seq,
            emitted_at_round: self.emitted_at_round,
            neighbors,
            tower: self.tower,
        }
    }
}

/// A balloon's map of the mesh: observations by whose they are.
pub open spec fn map_of(db: Map<u32, Lsa>) -> Map<u32, LsaModel> {
    db.map_values(|r: Lsa| r@)
}

// ---------------------------------------------------------------------------
// The search
// ---------------------------------------------------------------------------

/// What a breadth-first search has reached. A trail is a way through the map:
/// the searcher, the balloons along it, and the balloon it has come to.
#[verifier::ext_equal]
pub struct Layer {
    pub trails: Seq<Seq<u32>>,
    pub seen: Set<u32>,
}

/// A trail is carried on to those of the first `k` balloons listed that have
/// not been seen yet.
pub open spec fn carried_on(at: Layer, trail: Seq<u32>, list: Seq<u32>, k: nat) -> Layer
    decreases k,
{
    if k == 0 {
        at
    } else {
        let before = carried_on(at, trail, list, (k - 1) as nat);
        if before.seen.contains(list[k - 1]) {
            before
        } else {
            Layer {
                trails: before.trails.push(trail.push(list[k - 1])),
                seen: before.seen.insert(list[k - 1]),
            }
        }
    }
}

/// The next layer, from the first `k` trails of one: each is carried on to
/// what the balloon it ends at can hear, where that is known.
pub open spec fn spread(
    db: Map<u32, LsaModel>,
    seen: Set<u32>,
    trails: Seq<Seq<u32>>,
    k: nat,
) -> Layer
    decreases k,
{
    if k == 0 {
        Layer { trails: Seq::empty(), seen }
    } else {
        let before = spread(db, seen, trails, (k - 1) as nat);
        let trail = trails[k - 1];
        if db.contains_key(trail.last()) {
            let list = db[trail.last()].neighbors;
            carried_on(before, trail, list, list.len())
        } else {
            before
        }
    }
}

/// The balloons at distance `d` from the searcher, as the map has it, each by
/// one shortest trail, in the order in which a breadth-first search comes to
/// them.
pub open spec fn layer(db: Map<u32, LsaModel>, me: u32, d: nat) -> Layer
    decreases d,
{
    if d == 0 {
        Layer { trails: seq![seq![me]], seen: Set::empty().insert(me) }
    } else {
        let before = layer(db, me, (d - 1) as nat);
        spread(db, before.seen, before.trails, before.trails.len())
    }
}

/// Whether a balloon is known to hear a tower.
pub open spec fn grounded(db: Map<u32, LsaModel>, id: u32) -> bool {
    db.contains_key(id) && db[id].tower is Some
}

/// The first trail, from `k` on, that has come to a tower.
pub open spec fn landfall(db: Map<u32, LsaModel>, trails: Seq<Seq<u32>>, k: int) -> Option<Seq<u32>>
    decreases trails.len() - k,
{
    if k >= trails.len() {
        None
    } else if grounded(db, trails[k].last()) {
        Some(trails[k])
    } else {
        landfall(db, trails, k + 1)
    }
}

/// The earliest of the observations along a trail.
pub open spec fn stalest(db: Map<u32, LsaModel>, trail: Seq<u32>) -> u64
    decreases trail.len(),
{
    if trail.len() <= 1 {
        db[trail[0]].emitted_at_round
    } else {
        let before = stalest(db, trail.drop_last());
        let here = db[trail.last()].emitted_at_round;
        if here < before {
            here
        } else {
            before
        }
    }
}

/// The belief that a trail to a tower gives: as current as the stalest
/// observation it rests on.
pub open spec fn belief_from(db: Map<u32, LsaModel>, trail: Seq<u32>) -> RouteBelief {
    RouteBelief {
        tower_id: db[trail.last()].tower->Some_0,
        hop_count: if trail.len() > u32::MAX {
            u32::MAX
        } else {
            trail.len() as u32
        },
        next_hop: if trail.len() > 1 {
            Some(trail[1])
        } else {
            None
        },
        epoch: db[trail.last()].seq,
        emitted_at_round: stalest(db, trail),
    }
}

/// How far out a search looks.
pub open spec fn reach(max_hops: u32) -> nat {
    if max_hops < 1 {
        1
    } else {
        max_hops as nat
    }
}

/// The best route from distance `d` on.
pub open spec fn route_from(db: Map<u32, LsaModel>, me: u32, max_hops: u32, d: nat) -> Option<
    RouteBelief,
>
    decreases reach(max_hops) + 1 - d,
{
    if d > reach(max_hops) {
        None
    } else {
        match landfall(db, layer(db, me, d).trails, 0) {
            Some(trail) => Some(belief_from(db, trail)),
            None => route_from(db, me, max_hops, d + 1),
        }
    }
}

/// The route a balloon's map shows, if any.
pub open spec fn route(db: Map<u32, LsaModel>, me: u32, max_hops: u32) -> Option<RouteBelief> {
    if db.contains_key(me) {
        route_from(db, me, max_hops, 0)
    } else {
        None
    }
}

/// Whether a trail leads from the searcher along observed links.
pub open spec fn is_trail(db: Map<u32, LsaModel>, me: u32, trail: Seq<u32>) -> bool {
    &&& trail.len() > 0
    &&& trail[0] == me
    &&& forall|i: int|
        #![trigger trail[i]]
        0 <= i < trail.len() - 1 ==> db.contains_key(trail[i]) && db[trail[i]].neighbors.contains(
            trail[i + 1],
        )
}

/// Whether all of these are trails over this many balloons.
pub open spec fn are_trails(
    db: Map<u32, LsaModel>,
    me: u32,
    trails: Seq<Seq<u32>>,
    n: nat,
) -> bool {
    forall|j: int|
        0 <= j < trails.len() ==> (#[trigger] trails[j]).len() == n && is_trail(db, me, trails[j])
}

proof fn lemma_carried_on_trails(
    db: Map<u32, LsaModel>,
    me: u32,
    at: Layer,
    trail: Seq<u32>,
    k: nat,
    n: nat,
)
    requires
        is_trail(db, me, trail),
        trail.len() + 1 == n,
        db.contains_key(trail.last()),
        k <= db[trail.last()].neighbors.len(),
        are_trails(db, me, at.trails, n),
    ensures
        are_trails(
            db,
            me,
            carried_on(at, trail, db[trail.last()].neighbors, k).trails,
            n,
        ),
    decreases k,
{
    if k > 0 {
        lemma_carried_on_trails(db, me, at, trail, (k - 1) as nat, n);
        let list = db[trail.last()].neighbors;
        let more = trail.push(list[k - 1]);
        assert(list.contains(list[k - 1]));
        assert(is_trail(db, me, more)) by {
            assert forall|i: int| #![trigger more[i]] 0 <= i < more.len() - 1 implies db.contains_key(
                more[i],
            ) && db[more[i]].neighbors.contains(more[i + 1]) by {
                assert(more[i] == trail[i]);
                if i < trail.len() - 1 {
                    assert(more[i + 1] == trail[i + 1]);
                }
            }
        }
    }
}

proof fn lemma_spread_trails(
    db: Map<u32, LsaModel>,
    me: u32,
    seen: Set<u32>,
    trails: Seq<Seq<u32>>,
    k: nat,
    n: nat,
)
    requires
        k <= trails.len(),
        n > 0,
        are_trails(db, me, trails, n),
    ensures
        are_trails(db, me, spread(db, seen, trails, k).trails, n + 1),
    decreases k,
{
    if k > 0 {
        lemma_spread_trails(db, me, seen, trails, (k - 1) as nat, n);
        let trail = trails[k - 1];
        if db.contains_key(trail.last()) {
            let list = db[trail.last()].neighbors;
            lemma_carried_on_trails(
                db,
                me,
                spread(db, seen, trails, (k - 1) as nat),
                trail,
                list.len(),
                n + 1,
            );
        }
    }
}

/// What a search reaches, it reaches along observed links, one more with each
/// layer.
pub proof fn layers_are_trails(db: Map<u32, LsaModel>, me: u32, d: nat)
    ensures
        are_trails(db, me, layer(db, me, d).trails, d + 1),
    decreases d,
{
    if d > 0 {
        layers_are_trails(db, me, (d - 1) as nat);
        let before = layer(db, me, (d - 1) as nat);
        lemma_spread_trails(db, me, before.seen, before.trails, before.trails.len(), d);
    }
}

/// Where a search has come to: a balloon, the first hop out towards it, and
/// the earliest observation before it.
#[derive(Clone, Copy)]
struct Reached {
    node: u32,
    first_hop: u32,
    age: u64,
}

/// Whether an entry stands for a trail of at least one hop.
spec fn stands_for(db: Map<u32, LsaModel>, r: Reached, trail: Seq<u32>) -> bool {
    &&& trail.len() > 1
    &&& r.node == trail.last()
    &&& r.first_hop == trail[1]
    &&& r.age == stalest(db, trail.drop_last())
}

/// Whether a list of entries stands for a list of trails.
spec fn all_stand_for(db: Map<u32, LsaModel>, list: Seq<Reached>, trails: Seq<Seq<u32>>) -> bool {
    &&& list.len() == trails.len()
    &&& forall|j: int|
        0 <= j < list.len() ==> stands_for(db, #[trigger] list[j], trails[j])
}

/// Carries a trail on to the balloons listed.
fn carry_on(
    db: Ghost<Map<u32, LsaModel>>,
    trail: Ghost<Seq<u32>>,
    at: Ghost<Layer>,
    list: &Vec<u32>,
    first_hop: Option<u32>,
    age: u64,
    next: &mut Vec<Reached>,
    seen: &mut HashSet<u32>,
)
    requires
        trail@.len() > 0,
        all_stand_for(db@, old(next)@, at@.trails),
        old(seen)@ == at@.seen,
        age == stalest(db@, trail@),
        match first_hop {
            Some(h) => trail@.len() > 1 && h == trail@[1],
            None => trail@.len() == 1,
        },
    ensures
        ({
            let after = carried_on(at@, trail@, list@, list@.len());
            &&& all_stand_for(db@, final(next)@, after.trails)
            &&& final(seen)@ == after.seen
        }),
{
    let mut k: usize = 0;
    while k < list.len()
        invariant
            k <= list@.len(),
            trail@.len() > 0,
            age == stalest(db@, trail@),
            match first_hop {
                Some(h) => trail@.len() > 1 && h == trail@[1],
                None => trail@.len() == 1,
            },
            all_stand_for(db@, next@, carried_on(at@, trail@, list@, k as nat).trails),
            seen@ == carried_on(at@, trail@, list@, k as nat).seen,
        decreases list@.len() - k,
    {
        let nb: u32 = list[k];
        let ghost before = carried_on(at@, trail@, list@, k as nat);
        if !seen.contains(&nb) {
            let _ = seen.insert(nb);
            let hop: u32 = match first_hop {
                Some(h) => h,
                None => nb,
            };
            let entry: Reached = Reached { node: nb, first_hop: hop, age };
            next.push(entry);
            assert(trail@.push(nb).drop_last() =~= trail@);
            assert(stands_for(db@, entry, trail@.push(nb)));
        }
        k = k + 1;
    }
}

/// Once a layer is empty, so are all those after it.
proof fn lemma_nothing_further(db: Map<u32, LsaModel>, me: u32, max_hops: u32, d: nat)
    requires
        layer(db, me, d).trails.len() == 0,
    ensures
        route_from(db, me, max_hops, d) is None,
    decreases reach(max_hops) + 1 - d,
{
    if d <= reach(max_hops) {
        assert(layer(db, me, d + 1).trails.len() == 0);
        lemma_nothing_further(db, me, max_hops, d + 1);
    }
}

/// Breadth-first search to the nearest balloon that can hear a tower, over
/// whatever the map currently claims. `None` means that the map shows no path.
pub fn shortest_route(db: &HashMap<u32, Lsa>, self_id: u32, params: &DvDtnParams) -> (r: Option<
    RouteBelief,
>)
    ensures
        r == route(map_of(db@), self_id, params.beacon_max_hops),
{
    let ghost m = map_of(db@);
    let ghost max = params.beacon_max_hops;
    let mut frontier: Vec<Reached> = Vec::new();
    let mut seen: HashSet<u32> = HashSet::new();
    match db.get(&self_id) {
        None => {
            return None;
        },
        Some(rec) => {
            let ghost start = seq![self_id];
            assert(m[self_id] == rec@);
            assert(start.last() == self_id);
            if let Some(tower_id) = rec.tower {
                assert(landfall(m, layer(m, self_id, 0).trails, 0) == Some(start));
                return Some(
                    RouteBelief {
                        tower_id,
                        hop_count: 1,
                        next_hop: None,
                        epoch: rec.seq,
                        emitted_at_round: rec.emitted_at_round,
                    },
                );
            }
            assert(landfall(m, layer(m, self_id, 0).trails, 1) is None);
            assert(landfall(m, layer(m, self_id, 0).trails, 0) is None);
            let _ = seen.insert(self_id);
            carry_on(
                Ghost(m),
                Ghost(start),
                Ghost(Layer { trails: Seq::empty(), seen: Set::empty().insert(self_id) }),
                &rec.neighbors,
                None,
                rec.emitted_at_round,
                &mut frontier,
                &mut seen,
            );
            proof {
                reveal_with_fuel(spread, 2);
                assert(layer(m, self_id, 1) == carried_on(
                    Layer { trails: Seq::empty(), seen: Set::empty().insert(self_id) },
                    start,
                    rec.neighbors@,
                    rec.neighbors@.len(),
                ));
            }
        },
    }
    let limit: u32 = if params.beacon_max_hops < 1 {
        1
    } else {
        params.beacon_max_hops
    };
    let mut depth: u32 = 1;
    loop
        invariant
            1 <= depth <= limit,
            limit == reach(max),
            max == params.beacon_max_hops,
            m == map_of(db@),
            m.contains_key(self_id),
            all_stand_for(m, frontier@, layer(m, self_id, depth as nat).trails),
            seen@ == layer(m, self_id, depth as nat).seen,
            route(m, self_id, max) == route_from(m, self_id, max, depth as nat),
        decreases limit - depth,
    {
        let ghost here = layer(m, self_id, depth as nat);
        if frontier.len() == 0 {
            proof {
                lemma_nothing_further(m, self_id, max, depth as nat);
            }
            return None;
        }
        proof {
            layers_are_trails(m, self_id, depth as nat);
        }
        let mut next: Vec<Reached> = Vec::new();
        let mut k: usize = 0;
        while k < frontier.len()
            invariant
                k <= frontier@.len(),
                limit == reach(max),
                depth <= limit,
                max == params.beacon_max_hops,
                m == map_of(db@),
                here == layer(m, self_id, depth as nat),
                all_stand_for(m, frontier@, here.trails),
                are_trails(m, self_id, here.trails, depth as nat + 1),
                all_stand_for(m, next@, spread(m, here.seen, here.trails, k as nat).trails),
                seen@ == spread(m, here.seen, here.trails, k as nat).seen,
                landfall(m, here.trails, 0) == landfall(m, here.trails, k as int),
                route(m, self_id, max) == route_from(m, self_id, max, depth as nat),
            decreases frontier@.len() - k,
        {
            let at: Reached = frontier[k];
            let ghost trail = here.trails[k as int];
            assert(stands_for(m, frontier@[k as int], trail));
            match db.get(&at.node) {
                None => {},
                Some(rec) => {
                    assert(m[at.node] == rec@);
                    let age: u64 = if rec.emitted_at_round < at.age {
                        rec.emitted_at_round
                    } else {
                        at.age
                    };
                    assert(age == stalest(m, trail));
                    if let Some(tower_id) = rec.tower {
                        assert(landfall(m, here.trails, 0) == Some(trail));
                        return Some(
                            RouteBelief {
                                tower_id,
                                hop_count: depth.saturating_add(1),
                                next_hop: Some(at.first_hop),
                                epoch: rec.seq,
                                emitted_at_round: age,
                            },
                        );
                    }
                    carry_on(
                        Ghost(m),
                        Ghost(trail),
                        Ghost(spread(m, here.seen, here.trails, k as nat)),
                        &rec.neighbors,
                        Some(at.first_hop),
                        age,
                        &mut next,
                        &mut seen,
                    );
                },
            }
            k = k + 1;
        }
        if depth == limit {
            assert(route_from(m, self_id, max, depth as nat + 1) is None);
            return None;
        }
        frontier = next;
        depth = depth + 1;
    }
}


// ---------------------------------------------------------------------------
// Gossip
// ---------------------------------------------------------------------------

#[derive(Debug)]
pub struct LsNode {
    /// This balloon's map of the mesh, by whose observation it is.
    pub db: HashMap<u32, Lsa>,
    /// Sequence for this balloon's own observations.
    pub seq: u64,
    /// Origins whose records this balloon has learned but not yet passed on,
    /// first come first.
    pub to_relay: VecDeque<u32>,
    /// Whether the map has changed since the route was last computed.
    pub dirty: bool,
}

/// The mathematical content of an `LsNode`.
#[verifier::ext_equal]
pub struct LsModel {
    pub db: Map<u32, LsaModel>,
    pub seq: u64,
    pub to_relay: Seq<u32>,
    pub dirty: bool,
}

impl View for LsNode {
    type V = LsModel;

    open spec fn view(&self) -> LsModel {
        LsModel {
            db: map_of(self.db@),
            seq: self.seq,
            to_relay: self.to_relay@,
            dirty: self.dirty,
        }
    }
}

/// A node that has heard nothing yet.
pub open spec fn blank() -> LsModel {
    LsModel { db: Map::empty(), seq: 0, to_relay: Seq::empty(), dirty: false }
}

impl Default for LsNode {
    fn default() -> (r: LsNode)
        ensures
            r@ == blank(),
    {
        let r: LsNode = LsNode {
            db: HashMap::new(),
            seq: 0,
            to_relay: VecDeque::new(),
            dirty: false,
        };
        assert(r@ =~~= blank());
        r
    }
}

/// The models of a list of nodes.
pub open spec fn ls_models(nodes: Seq<LsNode>) -> Seq<LsModel> {
    nodes.map_values(|n: LsNode| n@)
}

#[derive(Debug)]
pub struct State {
    pub nodes: Vec<LsNode>,
    /// Records that arrived carrying nothing new.
    pub records_redundant: u64,
    /// Records that did teach the receiver something.
    pub records_useful: u64,
}

/// The mathematical content of a `State`.
#[verifier::ext_equal]
pub struct StateModel {
    pub nodes: Seq<LsModel>,
    pub records_redundant: int,
    pub records_useful: int,
}

impl View for State {
    type V = StateModel;

    open spec fn view(&self) -> StateModel {
        StateModel {
            nodes: ls_models(self.nodes@),
            records_redundant: self.records_redundant as int,
            records_useful: self.records_useful as int,
        }
    }
}

impl Default for State {
    fn default() -> (r: State)
        ensures
            r@ == (StateModel {
                nodes: Seq::empty(),
                records_redundant: 0,
                records_useful: 0,
            }),
    {
        let r: State = State { nodes: Vec::new(), records_redundant: 0, records_useful: 0 };
        assert(ls_models(r.nodes@) =~= Seq::empty());
        r
    }
}

/// A list cut or filled up with blank nodes to length `n`.
pub open spec fn fitted(nodes: Seq<LsModel>, n: nat) -> Seq<LsModel> {
    Seq::new(
        n,
        |i: int|
            if i < nodes.len() {
                nodes[i]
            } else {
                blank()
            },
    )
}

impl State {
    /// Keeps state for `n` balloons.
    pub fn resize(&mut self, n: usize)
        ensures
            final(self)@ == (StateModel { nodes: fitted(old(self)@.nodes, n as nat), ..old(self)@ }),
    {
        let ghost before = self@;
        if self.nodes.len() > n {
            self.nodes.truncate(n);
        }
        while self.nodes.len() < n
            invariant
                self.nodes@.len() <= n,
                self.records_redundant == before.records_redundant,
                self.records_useful == before.records_useful,
                forall|j: int|
                    0 <= j < self.nodes@.len() ==> (#[trigger] self.nodes@[j])@ == fitted(
                        before.nodes,
                        n as nat,
                    )[j],
                self.nodes@.len() == n || self.nodes@.len() >= before.nodes.len(),
            decreases n - self.nodes@.len(),
        {
            self.nodes.push(LsNode::default());
        }
        assert(self@.nodes =~~= fitted(before.nodes, n as nat));
    }
}

/// Whether an observation is too old to keep.
pub open spec fn stale(r: LsaModel, round: u64, max_age: u64) -> bool {
    bundle::rounds_since(r.emitted_at_round, round) > max_age
}

/// A node that has let go of what is too old.
pub open spec fn aged(n: LsModel, round: u64, max_age: u64) -> LsModel {
    LsModel {
        db: Map::new(
            |id: u32| n.db.contains_key(id) && !stale(n.db[id], round, max_age),
            |id: u32| n.db[id],
        ),
        dirty: n.dirty || exists|id: u32|
            #![trigger n.db[id]]
            n.db.contains_key(id) && stale(n.db[id], round, max_age),
        ..n
    }
}

/// What a balloon observes for itself.
pub open spec fn own_record(n: LsModel, id: u32, i: int, topo: Topology, round: u64) -> LsaModel {
    LsaModel {
        origin: id,
        seq: (n.seq + 1) as u64,
        emitted_at_round: round,
        neighbors: topo.neighbors_of(i),
        tower: topo.tower_of(i),
    }
}

/// A batch filled up to a limit with what waits to be relayed, and what is
/// then still waiting.
pub open spec fn filled(
    db: Map<u32, LsaModel>,
    id: u32,
    batch: Seq<LsaModel>,
    waiting: Seq<u32>,
    limit: nat,
) -> (Seq<LsaModel>, Seq<u32>)
    decreases waiting.len(),
{
    if batch.len() >= limit || waiting.len() == 0 {
        (batch, waiting)
    } else {
        let origin = waiting[0];
        let rest = waiting.subrange(1, waiting.len() as int);
        if origin != id && db.contains_key(origin) {
            filled(db, id, batch.push(db[origin]), rest, limit)
        } else {
            filled(db, id, batch, rest, limit)
        }
    }
}

/// How many records one transmission carries at most.
pub open spec fn batch_limit(params: DvDtnParams) -> nat {
    if params.lsa_per_transmission < 1 {
        1
    } else {
        params.lsa_per_transmission as nat
    }
}

/// What a waking balloon sends, and its state after.
pub open spec fn sending(
    n: LsModel,
    id: u32,
    i: int,
    topo: Topology,
    params: DvDtnParams,
    round: u64,
) -> (LsModel, Seq<LsaModel>) {
    let own = own_record(n, id, i, topo, round);
    let db = n.db.insert(id, own);
    let (batch, waiting) = filled(db, id, seq![own], n.to_relay, batch_limit(params));
    (LsModel { db, seq: own.seq, to_relay: waiting, dirty: true }, batch)
}

/// Transmissions gathered for this round: who sends, and what.
#[verifier::ext_equal]
pub struct Broadcast {
    pub from: int,
    pub batch: Seq<LsaModel>,
}

#[verifier::ext_equal]
pub struct Sendings {
    pub nodes: Seq<LsModel>,
    pub out: Seq<Broadcast>,
}

pub open spec fn sendings(
    nodes: Seq<LsModel>,
    fleet: Seq<Balloon>,
    topo: Topology,
    params: DvDtnParams,
    round: u64,
    awake: Seq<usize>,
    k: nat,
) -> Sendings
    decreases k,
{
    if k == 0 {
        Sendings { nodes, out: Seq::empty() }
    } else {
        let before = sendings(nodes, fleet, topo, params, round, awake, (k - 1) as nat);
        let i = awake[k - 1] as int;
        let (node, batch) = sending(before.nodes[i], fleet[i].id, i, topo, params, round);
        Sendings {
            nodes: before.nodes.update(i, node),
            out: before.out.push(Broadcast { from: i, batch }),
        }
    }
}

/// Whether a record would teach a balloon something.
pub open spec fn teaches(n: LsModel, rec: LsaModel) -> bool {
    n.db.contains_key(rec.origin) ==> rec.seq > n.db[rec.origin].seq
}

/// A balloon that has learned a record.
pub open spec fn learned(n: LsModel, rec: LsaModel) -> LsModel {
    LsModel {
        db: n.db.insert(rec.origin, rec),
        dirty: true,
        to_relay: if n.to_relay.contains(rec.origin) {
            n.to_relay
        } else {
            n.to_relay.push(rec.origin)
        },
        ..n
    }
}

/// What gossip has brought so far.
#[verifier::ext_equal]
pub struct Gossip {
    pub state: StateModel,
    pub events: Seq<CommsEvent>,
}

/// A count of records with one more. It stops at the most its type can say.
pub open spec fn one_more(count: int) -> int {
    if count >= u64::MAX {
        u64::MAX as int
    } else {
        count + 1
    }
}

/// Balloon `nb` hears one record.
pub open spec fn record_heard(g: Gossip, nb: u32, rec: LsaModel) -> Gossip {
    let n = g.state.nodes[nb as int];
    if rec.origin == nb {
        g
    } else if teaches(n, rec) {
        Gossip {
            state: StateModel {
                nodes: g.state.nodes.update(nb as int, learned(n, rec)),
                records_useful: one_more(g.state.records_useful),
                ..g.state
            },
            ..g
        }
    } else {
        Gossip {
            state: StateModel {
                records_redundant: one_more(g.state.records_redundant),
                ..g.state
            },
            ..g
        }
    }
}

pub open spec fn records_heard(g: Gossip, nb: u32, batch: Seq<LsaModel>, k: nat) -> Gossip
    decreases k,
{
    if k == 0 {
        g
    } else {
        record_heard(records_heard(g, nb, batch, (k - 1) as nat), nb, batch[k - 1])
    }
}

/// Balloon `nb` hears a transmission, if it is one of those simulated.
pub open spec fn batch_heard(g: Gossip, fleet: Seq<Balloon>, b: Broadcast, nb: u32) -> Gossip {
    if nb >= g.state.nodes.len() {
        g
    } else {
        let told = Gossip {
            events: g.events.push(
                CommsEvent {
                    kind: EventKind::Gossip,
                    from: NodeKey::Balloon(fleet[b.from].id),
                    to: NodeKey::Balloon(nb),
                    payload: (b.batch.len() as usize) as u32,
                    tower_id: None,
                    hop_count: None,
                    epoch: Some(b.batch[0].seq),
                },
            ),
            ..g
        };
        records_heard(told, nb, b.batch, b.batch.len())
    }
}

/// The first `k` balloons in earshot hear a transmission.
pub open spec fn batch_spread(
    g: Gossip,
    fleet: Seq<Balloon>,
    topo: Topology,
    b: Broadcast,
    k: nat,
) -> Gossip
    decreases k,
{
    if k == 0 {
        g
    } else {
        batch_heard(
            batch_spread(g, fleet, topo, b, (k - 1) as nat),
            fleet,
            b,
            topo.neighbors_of(b.from)[k - 1],
        )
    }
}

pub open spec fn all_spread(
    g: Gossip,
    fleet: Seq<Balloon>,
    topo: Topology,
    out: Seq<Broadcast>,
    k: nat,
) -> Gossip
    decreases k,
{
    if k == 0 {
        g
    } else {
        let b = out[k - 1];
        batch_spread(
            all_spread(g, fleet, topo, out, (k - 1) as nat),
            fleet,
            topo,
            b,
            topo.neighbors_of(b.from).len(),
        )
    }
}

/// Nodes and their maps once the routes have been worked out again.
#[verifier::ext_equal]
pub struct Routed {
    pub nodes: Seq<NodeModel>,
    pub maps: Seq<LsModel>,
}

/// Those of the first `k` awake whose map has moved work out their route, and
/// install what comes of it, be it nothing.
pub open spec fn rerouted(
    r: Routed,
    fleet: Seq<Balloon>,
    params: DvDtnParams,
    awake: Seq<usize>,
    k: nat,
) -> Routed
    decreases k,
{
    if k == 0 {
        r
    } else {
        let before = rerouted(r, fleet, params, awake, (k - 1) as nat);
        let i = awake[k - 1] as int;
        if before.maps[i].dirty {
            Routed {
                nodes: before.nodes.update(
                    i,
                    NodeModel {
                        belief: route(before.maps[i].db, fleet[i].id, params.beacon_max_hops),
                        ..before.nodes[i]
                    },
                ),
                maps: before.maps.update(i, LsModel { dirty: false, ..before.maps[i] }),
            }
        } else {
            before
        }
    }
}

/// What a round of gossip leads to.
#[verifier::ext_equal]
pub struct GossipOutcome {
    pub nodes: Seq<NodeModel>,
    pub state: StateModel,
    pub awake: Seq<usize>,
    pub events: Seq<CommsEvent>,
}

/// Transmissions and those who hear them, for given jitter draws.
pub open spec fn gossiped(
    nodes: Seq<NodeModel>,
    state: StateModel,
    fleet: Seq<Balloon>,
    topo: Topology,
    params: DvDtnParams,
    round: u64,
) -> Gossip {
    let kept = fitted(state.nodes, nodes.len());
    let fresh = Seq::new(kept.len(), |i: int| aged(kept[i], round, params.belief_max_age_rounds));
    let awake = beacon::awake_of(nodes, nodes.len(), round);
    let s = sendings(fresh, fleet, topo, params, round, awake, awake.len());
    all_spread(
        Gossip { state: StateModel { nodes: s.nodes, ..state }, events: Seq::empty() },
        fleet,
        topo,
        s.out,
        s.out.len(),
    )
}

/// One round of gossip, for given jitter draws.
pub open spec fn gossip_round(
    nodes: Seq<NodeModel>,
    state: StateModel,
    fleet: Seq<Balloon>,
    topo: Topology,
    params: DvDtnParams,
    round: u64,
    draws: Seq<u64>,
) -> GossipOutcome {
    let awake = beacon::awake_of(nodes, nodes.len(), round);
    let woken = Seq::new(
        nodes.len(),
        |i: int| beacon::rescheduled(nodes[i], params, round, draws[i]),
    );
    let g = gossiped(nodes, state, fleet, topo, params, round);
    let r = rerouted(
        Routed { nodes: woken, maps: g.state.nodes },
        fleet,
        params,
        awake,
        awake.len(),
    );
    GossipOutcome {
        nodes: r.nodes,
        state: StateModel { nodes: r.maps, ..g.state },
        awake,
        events: g.events,
    }
}

/// What the machine's number types demand of a round.
pub open spec fn gossip_fits(state: StateModel, params: DvDtnParams, round: u64) -> bool {
    &&& beacon::schedule_fits(round, params.beacon_interval_rounds, params.beacon_jitter_rounds)
    &&& forall|i: int| 0 <= i < state.nodes.len() ==> (#[trigger] state.nodes[i]).seq < u64::MAX
}

/// The ids in a map.
fn ids_of(db: &HashMap<u32, Lsa>) -> (r: Vec<u32>)
    ensures
        r@.to_set() == db@.dom(),
        r@.no_duplicates(),
{
    let mut r: Vec<u32> = Vec::new();
    for id in it: db.keys()
        invariant
            it.seq().unref().to_set() == db@.dom(),
            it.seq().no_duplicates(),
            r@ =~= it.seq().unref().take(it.index() as int),
            it.index() == it.seq().len() ==> r@.to_set() == db@.dom(),
    {
        r.push(*id);
        assert(it.index() + 1 == it.seq().len() ==> r@ =~= it.seq().unref());
    }
    r
}

/// Lets go of observations that are too old.
fn age_out(n: &mut LsNode, round: u64, max_age: u64)
    ensures
        final(n)@ == aged(old(n)@, round, max_age),
{
    let ghost before = n@;
    let ids: Vec<u32> = ids_of(&n.db);
    let mut k: usize = 0;
    while k < ids.len()
        invariant
            k <= ids@.len(),
            n.seq == before.seq,
            n.to_relay@ == before.to_relay,
            ids@.no_duplicates(),
            forall|j: int| 0 <= j < ids@.len() ==> before.db.contains_key(#[trigger] ids@[j]),
            forall|id: u32| #[trigger] before.db.contains_key(id) ==> ids@.contains(id),
            forall|id: u32| #[trigger]
                n@.db.contains_key(id) ==> before.db.contains_key(id) && n@.db[id] == before.db[id],
            forall|j: int|
                k <= j < ids@.len() ==> n@.db.contains_key(#[trigger] ids@[j]),
            forall|j: int|
                0 <= j < k ==> (n@.db.contains_key(#[trigger] ids@[j]) <==> !stale(
                    before.db[ids@[j]],
                    round,
                    max_age,
                )),
            n.dirty <==> before.dirty || exists|j: int|
                0 <= j < k && stale(before.db[#[trigger] ids@[j]], round, max_age),
        decreases ids@.len() - k,
    {
        let id: u32 = ids[k];
        assert(n@.db.contains_key(ids@[k as int]));
        let ghost held = n@.db;
        let mut gone: bool = false;
        if let Some(r) = n.db.get(&id) {
            assert(held[id] == r@);
            gone = round.saturating_sub(r.emitted_at_round) > max_age;
        }
        assert(gone == stale(before.db[ids@[k as int]], round, max_age));
        if gone {
            let _ = n.db.remove(&id);
            n.dirty = true;
            assert(n@.db =~= held.remove(id));
        }
        k = k + 1;
    }
    let ghost want = aged(before, round, max_age);
    assert forall|id: u32| #[trigger] n@.db.contains_key(id) == want.db.contains_key(id) by {
        if before.db.contains_key(id) {
            let j = choose|j: int| 0 <= j < ids@.len() && ids@[j] == id;
            assert(ids@[j] == id);
        }
    }
    assert(n@.db =~= want.db);
    assert(n.dirty == want.dirty) by {
        if want.dirty && !before.dirty {
            let id = choose|id: u32|
                #![trigger before.db[id]]
                before.db.contains_key(id) && stale(before.db[id], round, max_age);
            let j = choose|j: int| 0 <= j < ids@.len() && ids@[j] == id;
            assert(stale(before.db[ids@[j]], round, max_age));
        }
    }
}

/// The models of a batch of records.
pub open spec fn lsas(batch: Seq<Lsa>) -> Seq<LsaModel> {
    batch.map_values(|r: Lsa| r@)
}

/// A copy of a list of ids.
fn listed(list: &[u32]) -> (r: Vec<u32>)
    ensures
        r@ == list@,
{
    let mut r: Vec<u32> = Vec::new();
    while r.len() < list.len()
        invariant
            r@.len() <= list@.len(),
            r@ =~= list@.take(r@.len() as int),
        decreases list@.len() - r@.len(),
    {
        let k: usize = r.len();
        r.push(list[k]);
    }
    r
}

/// What a waking balloon sends.
fn send(
    ls: &mut LsNode,
    id: u32,
    i: usize,
    adj: &MeshAdjacency,
    params: &DvDtnParams,
    round: u64,
) -> (batch: Vec<Lsa>)
    requires
        old(ls)@.seq < u64::MAX,
    ensures
        (final(ls)@, lsas(batch@)) == sending(old(ls)@, id, i as int, adj@, *params, round),
        1 <= batch@.len() <= batch_limit(*params),
{
    let ghost before = ls@;
    ls.seq = ls.seq + 1;
    let own: Lsa = Lsa {
        origin: id,
        seq: ls.seq,
        emitted_at_round: round,
        neighbors: listed(adj.neighbors(i)),
        tower: adj.tower_in_range(i),
    };
    let ghost mine = own_record(before, id, i as int, adj@, round);
    assert(own@ =~~= mine);
    let kept: Lsa = own.clone();
    let _ = ls.db.insert(id, kept);
    assert(ls@.db =~= before.db.insert(id, mine));
    ls.dirty = true;
    let limit: usize = if params.lsa_per_transmission < 1 {
        1
    } else {
        params.lsa_per_transmission
    };
    let mut batch: Vec<Lsa> = Vec::new();
    batch.push(own);
    assert(lsas(batch@) =~= seq![mine]);
    let ghost db = ls@.db;
    let mut done: bool = false;
    while !done && batch.len() < limit
        invariant
            limit == batch_limit(*params),
            1 <= batch@.len() <= limit,
            ls@.db == db,
            ls.seq == mine.seq,
            ls.dirty,
            filled(db, id, lsas(batch@), ls.to_relay@, limit as nat) == filled(
                db,
                id,
                seq![mine],
                before.to_relay,
                limit as nat,
            ),
            done ==> ls.to_relay@.len() == 0,
        decreases
            ls.to_relay@.len() + (if done {
                0int
            } else {
                1int
            }),
    {
        let ghost waiting = ls.to_relay@;
        let ghost so_far = lsas(batch@);
        match ls.to_relay.pop_front() {
            None => {
                done = true;
            },
            Some(origin) => {
                assert(ls.to_relay@ =~= waiting.subrange(1, waiting.len() as int));
                if origin != id {
                    if let Some(r) = ls.db.get(&origin) {
                        assert(db[origin] == r@);
                        let copy: Lsa = r.clone();
                        batch.push(copy);
                        assert(lsas(batch@) =~= so_far.push(db[origin]));
                    }
                }
            },
        }
    }
    assert(filled(db, id, lsas(batch@), ls.to_relay@, limit as nat) == (
        lsas(batch@),
        ls.to_relay@,
    ));
    assert(ls@ =~~= sending(before, id, i as int, adj@, *params, round).0);
    batch
}

/// One transmission.
struct Sent {
    from: usize,
    batch: Vec<Lsa>,
}

impl View for Sent {
    type V = Broadcast;

    closed spec fn view(&self) -> Broadcast {
        Broadcast { from: self.from as int, batch: lsas(self.batch@) }
    }
}

spec fn sents(out: Seq<Sent>) -> Seq<Broadcast> {
    out.map_values(|s: Sent| s@)
}

/// Whether a list of indices rises.
pub open spec fn rising(list: Seq<usize>, below: nat) -> bool {
    &&& forall|a: int, b: int| 0 <= a < b < list.len() ==> (#[trigger] list[a]) < (#[trigger] list[b])
    &&& forall|a: int| 0 <= a < list.len() ==> (#[trigger] list[a]) < below
}

pub(crate) proof fn lemma_awake_rises(nodes: Seq<NodeModel>, k: nat, round: u64)
    requires
        k <= nodes.len() <= usize::MAX,
    ensures
        rising(beacon::awake_of(nodes, k, round), k),
    decreases k,
{
    if k > 0 {
        lemma_awake_rises(nodes, (k - 1) as nat, round);
    }
}

/// Gathers what the awake balloons send.
fn send_all(
    nodes: &mut Vec<LsNode>,
    balloons: &[Balloon],
    adj: &MeshAdjacency,
    params: &DvDtnParams,
    round: u64,
    awake: &Vec<usize>,
) -> (out: Vec<Sent>)
    requires
        balloons@.len() >= old(nodes)@.len(),
        rising(awake@, old(nodes)@.len()),
        forall|j: int|
            0 <= j < old(nodes)@.len() ==> (#[trigger] ls_models(old(nodes)@)[j]).seq < u64::MAX,
    ensures
        ({
            let s = sendings(
                ls_models(old(nodes)@),
                balloons@,
                adj@,
                *params,
                round,
                awake@,
                awake@.len(),
            );
            &&& ls_models(final(nodes)@) == s.nodes
            &&& sents(out@) == s.out
        }),
        final(nodes)@.len() == old(nodes)@.len(),
        out@.len() == awake@.len(),
        forall|j: int|
            0 <= j < out@.len() ==> (#[trigger] out@[j])@.from == awake@[j] && 1
                <= out@[j]@.batch.len() <= batch_limit(*params),
{
    let ghost before = ls_models(nodes@);
    let mut out: Vec<Sent> = Vec::new();
    assert(sents(out@) =~= Seq::empty());
    let mut k: usize = 0;
    while k < awake.len()
        invariant
            k <= awake@.len(),
            balloons@.len() >= nodes@.len(),
            nodes@.len() == before.len(),
            rising(awake@, nodes@.len()),
            forall|j: int| 0 <= j < before.len() ==> (#[trigger] before[j]).seq < u64::MAX,
            forall|j: int|
                #![trigger nodes@[j]]
                0 <= j < before.len() && (forall|a: int| 0 <= a < k ==> awake@[a] != j)
                    ==> nodes@[j]@ == before[j],
            ls_models(nodes@) == sendings(
                before,
                balloons@,
                adj@,
                *params,
                round,
                awake@,
                k as nat,
            ).nodes,
            sents(out@) == sendings(
                before,
                balloons@,
                adj@,
                *params,
                round,
                awake@,
                k as nat,
            ).out,
            out@.len() == k,
            forall|j: int|
                0 <= j < out@.len() ==> (#[trigger] out@[j])@.from == awake@[j] && 1
                    <= out@[j]@.batch.len() <= batch_limit(*params),
        decreases awake@.len() - k,
    {
        let i: usize = awake[k];
        assert(awake@[k as int] < nodes@.len());
        assert forall|a: int| 0 <= a < k implies awake@[a] != i by {
            assert(awake@[a] < awake@[k as int]);
        }
        let ghost held = ls_models(nodes@);
        assert(held[i as int] == nodes@[i as int]@);
        assert(nodes@[i as int]@ == before[i as int]);
        let batch: Vec<Lsa> = send(&mut nodes[i], balloons[i].id, i, adj, params, round);
        assert(ls_models(nodes@) =~= held.update(i as int, nodes@[i as int]@));
        let ghost so_far = sents(out@);
        out.push(Sent { from: i, batch });
        assert(sents(out@) =~= so_far.push(
            Broadcast { from: i as int, batch: lsas(batch@) },
        ));
        k = k + 1;
    }
    out
}

/// Whether an id waits in a queue.
fn waits(q: &VecDeque<u32>, id: u32) -> (r: bool)
    ensures
        r == q@.contains(id),
{
    let mut k: usize = 0;
    while k < q.len()
        invariant
            k <= q@.len(),
            forall|j: int| 0 <= j < k ==> q@[j] != id,
        decreases q@.len() - k,
    {
        if q[k] == id {
            assert(q@[k as int] == id);
            return true;
        }
        k = k + 1;
    }
    false
}

/// A node learns a record, if there is anything in it.
fn learn(n: &mut LsNode, rec: &Lsa) -> (useful: bool)
    ensures
        useful == teaches(old(n)@, rec@),
        final(n)@ == (if useful {
            learned(old(n)@, rec@)
        } else {
            old(n)@
        }),
{
    let ghost before = n@;
    let newer: bool = match n.db.get(&rec.origin) {
        None => true,
        Some(cur) => {
            assert(before.db[rec.origin] == cur@);
            rec.seq > cur.seq
        },
    };
    if !newer {
        return false;
    }
    let _ = n.db.insert(rec.origin, rec.clone());
    assert(n@.db =~= before.db.insert(rec.origin, rec@));
    n.dirty = true;
    if !waits(&n.to_relay, rec.origin) {
        n.to_relay.push_back(rec.origin);
    }
    assert(n@ =~~= learned(before, rec@));
    true
}

spec fn gossip_of(state: State, events: Seq<CommsEvent>) -> Gossip {
    Gossip { state: state@, events }
}

/// A balloon hears a transmission.
fn hear(
    state: &mut State,
    events: &mut Vec<CommsEvent>,
    balloons: &[Balloon],
    s: &Sent,
    nb: u32,
)
    requires
        s@.from < balloons@.len(),
        s@.batch.len() >= 1,
    ensures
        gossip_of(*final(state), final(events)@) == batch_heard(
            gossip_of(*old(state), old(events)@),
            balloons@,
            s@,
            nb,
        ),
        final(state)@.nodes.len() == old(state)@.nodes.len(),
{
    let idx: usize = nb as usize;
    if idx >= state.nodes.len() {
        return;
    }
    let ghost g0 = gossip_of(*state, events@);
    assert(lsas(s.batch@)[0] == s.batch@[0]@);
    events.push(
        CommsEvent {
            kind: EventKind::Gossip,
            from: NodeKey::Balloon(balloons[s.from].id),
            to: NodeKey::Balloon(nb),
            payload: s.batch.len() as u32,
            tower_id: None,
            hop_count: None,
            epoch: Some(s.batch[0].seq),
        },
    );
    let ghost told = gossip_of(*state, events@);
    let mut k: usize = 0;
    while k < s.batch.len()
        invariant
            k <= s.batch@.len(),
            idx == nb,
            idx < state.nodes@.len(),
            told.state.nodes.len() == state.nodes@.len(),
            gossip_of(*state, events@) == records_heard(told, nb, lsas(s.batch@), k as nat),
        decreases s.batch@.len() - k,
    {
        let ghost before = gossip_of(*state, events@);
        assert(lsas(s.batch@)[k as int] == s.batch@[k as int]@);
        assert(before.state.nodes[nb as int] == state.nodes@[nb as int]@);
        if s.batch[k].origin != nb {
            if learn(&mut state.nodes[idx], &s.batch[k]) {
                state.records_useful = state.records_useful.saturating_add(1);
            } else {
                state.records_redundant = state.records_redundant.saturating_add(1);
            }
        }
        assert(gossip_of(*state, events@) =~~= record_heard(
            before,
            nb,
            s.batch@[k as int]@,
        ));
        k = k + 1;
    }
}

/// Everyone in earshot hears a transmission.
fn spread_one(
    state: &mut State,
    events: &mut Vec<CommsEvent>,
    balloons: &[Balloon],
    adj: &MeshAdjacency,
    s: &Sent,
)
    requires
        s@.from < balloons@.len(),
        1 <= s@.batch.len(),
    ensures
        gossip_of(*final(state), final(events)@) == batch_spread(
            gossip_of(*old(state), old(events)@),
            balloons@,
            adj@,
            s@,
            adj@.neighbors_of(s@.from).len(),
        ),
        final(state)@.nodes.len() == old(state)@.nodes.len(),
{
    let ghost g0 = gossip_of(*state, events@);
    let list: &[u32] = adj.neighbors(s.from);
    let mut k: usize = 0;
    while k < list.len()
        invariant
            k <= list@.len(),
            list@ == adj@.neighbors_of(s@.from),
            s@.from < balloons@.len(),
            1 <= s@.batch.len(),
            state@.nodes.len() == g0.state.nodes.len(),
            gossip_of(*state, events@) == batch_spread(g0, balloons@, adj@, s@, k as nat),
        decreases list@.len() - k,
    {
        hear(state, events, balloons, s, list[k]);
        k = k + 1;
    }
}

/// Everyone in earshot hears every transmission.
fn spread_all(
    state: &mut State,
    events: &mut Vec<CommsEvent>,
    balloons: &[Balloon],
    adj: &MeshAdjacency,
    out: &Vec<Sent>,
)
    requires
        forall|a: int|
            0 <= a < out@.len() ==> (#[trigger] out@[a])@.from < balloons@.len() && 1
                <= out@[a]@.batch.len(),
    ensures
        gossip_of(*final(state), final(events)@) == all_spread(
            gossip_of(*old(state), old(events)@),
            balloons@,
            adj@,
            sents(out@),
            out@.len(),
        ),
        final(state)@.nodes.len() == old(state)@.nodes.len(),
{
    let ghost g0 = gossip_of(*state, events@);
    let ghost list = sents(out@);
    let mut k: usize = 0;
    while k < out.len()
        invariant
            k <= out@.len(),
            list == sents(out@),
            forall|a: int|
                0 <= a < out@.len() ==> (#[trigger] out@[a])@.from < balloons@.len() && 1
                    <= out@[a]@.batch.len(),
            state@.nodes.len() == g0.state.nodes.len(),
            gossip_of(*state, events@) == all_spread(g0, balloons@, adj@, list, k as nat),
        decreases out@.len() - k,
    {
        assert(list[k as int] == out@[k as int]@);
        spread_one(state, events, balloons, adj, &out[k]);
        k = k + 1;
    }
}

spec fn routed_of(nodes: Seq<DvNode>, maps: Seq<LsNode>) -> Routed {
    Routed { nodes: super::models(nodes), maps: ls_models(maps) }
}

/// Those awake whose map has moved work out their route again.
fn reroute(
    nodes: &mut Vec<DvNode>,
    maps: &mut Vec<LsNode>,
    balloons: &[Balloon],
    params: &DvDtnParams,
    awake: &Vec<usize>,
)
    requires
        old(maps)@.len() == old(nodes)@.len(),
        balloons@.len() >= old(nodes)@.len(),
        rising(awake@, old(nodes)@.len()),
    ensures
        routed_of(final(nodes)@, final(maps)@) == rerouted(
            routed_of(old(nodes)@, old(maps)@),
            balloons@,
            *params,
            awake@,
            awake@.len(),
        ),
        final(nodes)@.len() == old(nodes)@.len(),
{
    let ghost r0 = routed_of(nodes@, maps@);
    let mut k: usize = 0;
    while k < awake.len()
        invariant
            k <= awake@.len(),
            maps@.len() == nodes@.len(),
            balloons@.len() >= nodes@.len(),
            rising(awake@, nodes@.len()),
            r0.nodes.len() == nodes@.len(),
            routed_of(nodes@, maps@) == rerouted(
                r0,
                balloons@,
                *params,
                awake@,
                k as nat,
            ),
        decreases awake@.len() - k,
    {
        let i: usize = awake[k];
        assert(awake@[k as int] < nodes@.len());
        let ghost before = routed_of(nodes@, maps@);
        assert(before.maps[i as int] == maps@[i as int]@);
        assert(before.nodes[i as int] == nodes@[i as int]@);
        if maps[i].dirty {
            maps[i].dirty = false;
            nodes[i].belief = shortest_route(&maps[i].db, balloons[i].id, params);
            assert(super::models(nodes@) =~~= before.nodes.update(
                i as int,
                NodeModel {
                    belief: route(
                        before.maps[i as int].db,
                        balloons@[i as int].id,
                        params.beacon_max_hops,
                    ),
                    ..before.nodes[i as int]
                },
            ));
            assert(ls_models(maps@) =~~= before.maps.update(
                i as int,
                LsModel { dirty: false, ..before.maps[i as int] },
            ));
        }
        k = k + 1;
    }
}

/// One round of gossip for given jitter draws, one per node: expire, decide
/// who transmits, pass observations on, work out routes. Returns who is awake
/// and what was sent.
pub fn step_with(
    nodes: &mut Vec<DvNode>,
    state: &mut State,
    balloons: &[Balloon],
    adj: &MeshAdjacency,
    params: &DvDtnParams,
    round: u64,
    draws: &Vec<u64>,
) -> (r: (Vec<usize>, Vec<CommsEvent>))
    requires
        balloons@.len() >= old(nodes)@.len(),
        draws@.len() == old(nodes)@.len(),
        beacon::drawn(draws@, params.beacon_jitter_rounds),
        gossip_fits(old(state)@, *params, round),
    ensures
        outcome_of(final(nodes)@, *final(state), r.0@, r.1@) == gossip_round(
            super::models(old(nodes)@),
            old(state)@,
            balloons@,
            adj@,
            *params,
            round,
            draws@,
        ),
        final(nodes)@.len() == old(nodes)@.len(),
        forall|j: int| 0 <= j < r.0@.len() ==> (#[trigger] r.0@[j]) < old(nodes)@.len(),
{
    let ghost n0 = super::models(nodes@);
    let ghost s0 = state@;
    let ghost n = nodes@.len();
    let ghost kept = fitted(s0.nodes, n);
    let ghost fresh = Seq::new(n, |i: int| aged(kept[i], round, params.belief_max_age_rounds));
    state.resize(nodes.len());
    assert(state@.nodes.len() == n);
    assert forall|j: int| 0 <= j < n implies (#[trigger] state.nodes@[j])@ == kept[j] by {
        assert(state@.nodes[j] == kept[j]);
    }
    let mut i: usize = 0;
    while i < state.nodes.len()
        invariant
            i <= state.nodes@.len(),
            state.nodes@.len() == n,
            kept.len() == n,
            state.records_redundant == s0.records_redundant,
            state.records_useful == s0.records_useful,
            forall|j: int|
                0 <= j < i ==> (#[trigger] state.nodes@[j])@ == aged(
                    kept[j],
                    round,
                    params.belief_max_age_rounds,
                ),
            forall|j: int| i <= j < n ==> (#[trigger] state.nodes@[j])@ == kept[j],
        decreases state.nodes@.len() - i,
    {
        assert(state.nodes@[i as int]@ == kept[i as int]);
        age_out(&mut state.nodes[i], round, params.belief_max_age_rounds);
        i = i + 1;
    }
    assert(ls_models(state.nodes@) =~~= fresh);
    let awake: Vec<usize> = beacon::wake(nodes, params, round, draws);
    proof {
        lemma_awake_rises(n0, n, round);
        assert forall|j: int| 0 <= j < n implies (#[trigger] ls_models(state.nodes@)[j]).seq
            < u64::MAX by {
            assert(ls_models(state.nodes@)[j] == aged(
                kept[j],
                round,
                params.belief_max_age_rounds,
            ));
            if j < s0.nodes.len() {
                assert(s0.nodes[j].seq < u64::MAX);
            }
        }
    }
    let out: Vec<Sent> = send_all(&mut state.nodes, balloons, adj, params, round, &awake);
    let mut events: Vec<CommsEvent> = Vec::new();
    let ghost sent = gossip_of(*state, events@);
    assert(sent =~~= Gossip {
        state: StateModel { nodes: ls_models(state.nodes@), ..s0 },
        events: Seq::empty(),
    });
    spread_all(state, &mut events, balloons, adj, &out);
    assert(gossip_of(*state, events@) == gossiped(n0, s0, balloons@, adj@, *params, round));
    reroute(nodes, &mut state.nodes, balloons, params, &awake);
    assert(outcome_of(nodes@, *state, awake@, events@) =~~= gossip_round(
        n0,
        s0,
        balloons@,
        adj@,
        *params,
        round,
        draws@,
    ));
    (awake, events)
}

/// A round's outcome, as it stands in the variables.
pub open spec fn outcome_of(
    nodes: Seq<DvNode>,
    state: State,
    awake: Seq<usize>,
    events: Seq<CommsEvent>,
) -> GossipOutcome {
    GossipOutcome { nodes: super::models(nodes), state: state@, awake, events }
}

/// One round of gossip.
pub fn step(
    nodes: &mut Vec<DvNode>,
    state: &mut State,
    balloons: &[Balloon],
    adj: &MeshAdjacency,
    params: &DvDtnParams,
    round: u64,
    rng: &mut StdRng,
) -> (r: (Vec<usize>, Vec<CommsEvent>))
    requires
        balloons@.len() >= old(nodes)@.len(),
        gossip_fits(old(state)@, *params, round),
    ensures
        exists|draws: Seq<u64>|
            beacon::drawn(draws, params.beacon_jitter_rounds) && draws.len() == old(nodes)@.len()
                && outcome_of(final(nodes)@, *final(state), r.0@, r.1@) == #[trigger] gossip_round(
                super::models(old(nodes)@),
                old(state)@,
                balloons@,
                adj@,
                *params,
                round,
                draws,
            ),
        final(nodes)@.len() == old(nodes)@.len(),
        forall|j: int| 0 <= j < r.0@.len() ==> (#[trigger] r.0@[j]) < old(nodes)@.len(),
{
    let draws: Vec<u64> = beacon::draw_for_nodes(nodes, params, round, rng);
    let r: (Vec<usize>, Vec<CommsEvent>) = step_with(
        nodes,
        state,
        balloons,
        adj,
        params,
        round,
        &draws,
    );
    assert(outcome_of(nodes@, *state, r.0@, r.1@) == gossip_round(
        super::models(old(nodes)@),
        old(state)@,
        balloons@,
        adj@,
        *params,
        round,
        draws@,
    ));
    r
}
} // verus!
