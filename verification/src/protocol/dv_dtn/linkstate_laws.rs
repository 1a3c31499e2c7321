//! What a route computed from gossip is worth.
use vstd::prelude::*;

use crate::balloon::Balloon;
use crate::link_detection::NodeKey;
use crate::mesh_adjacency::Topology;
use crate::protocol::{CommsEvent, EventKind};

use super::beacon;
use super::linkstate;
use super::linkstate::{Broadcast, Gossip, Layer, LsModel, LsaModel, Routed, StateModel};
use super::params::DvDtnParams;
use super::NodeModel;

verus! {

/// Whether a way through the map leads from the searcher to a balloon that
/// hears a tower.
pub open spec fn way_down(db: Map<u32, LsaModel>, me: u32, trail: Seq<u32>) -> bool {
    linkstate::is_trail(db, me, trail) && linkstate::grounded(db, trail.last())
}

proof fn lemma_landfall(db: Map<u32, LsaModel>, trails: Seq<Seq<u32>>, k: int)
    requires
        0 <= k,
    ensures
        linkstate::landfall(db, trails, k) matches Some(t) ==> linkstate::grounded(db, t.last())
            && exists|j: int| k <= j < trails.len() && #[trigger] trails[j] == t,
    decreases trails.len() - k,
{
    if k < trails.len() {
        if linkstate::grounded(db, trails[k].last()) {
            assert(trails[k] == linkstate::landfall(db, trails, k)->Some_0);
        } else {
            lemma_landfall(db, trails, k + 1);
        }
    }
}

/// A landfall is found wherever a trail ends at a balloon that hears a tower.
proof fn lemma_landfall_found(db: Map<u32, LsaModel>, trails: Seq<Seq<u32>>, k: int, j: int)
    requires
        0 <= k <= j < trails.len(),
        linkstate::grounded(db, trails[j].last()),
    ensures
        linkstate::landfall(db, trails, k) is Some,
    decreases j - k,
{
    if k < j {
        lemma_landfall_found(db, trails, k + 1, j);
    }
}

proof fn lemma_route_from(db: Map<u32, LsaModel>, me: u32, max_hops: u32, d: nat)
    ensures
        linkstate::route_from(db, me, max_hops, d) matches Some(b) ==> exists|trail: Seq<u32>|
            #[trigger] way_down(db, me, trail) && b == linkstate::belief_from(db, trail)
                && trail.len() <= linkstate::reach(max_hops) + 1,
    decreases linkstate::reach(max_hops) + 1 - d,
{
    if d <= linkstate::reach(max_hops) {
        let trails = linkstate::layer(db, me, d).trails;
        linkstate::layers_are_trails(db, me, d);
        lemma_landfall(db, trails, 0);
        match linkstate::landfall(db, trails, 0) {
            Some(t) => {
                let j = choose|j: int| 0 <= j < trails.len() && #[trigger] trails[j] == t;
                assert(trails[j] == t);
                assert(way_down(db, me, t));
            },
            None => {
                lemma_route_from(db, me, max_hops, d + 1);
            },
        }
    }
}

/// A computed route rests on observations: it belongs to a way along observed
/// links to a balloon that hears the tower, its hops are those of that way and
/// the last one down as far as a count of hops goes, its next hop is the first
/// step, and its age is that of the stalest observation along it.
pub proof fn a_computed_route_rests_on_observations(
    db: Map<u32, LsaModel>,
    me: u32,
    max_hops: u32,
) -> (trail: Seq<u32>)
    requires
        linkstate::route(db, me, max_hops) is Some,
    ensures
        ({
            let b = linkstate::route(db, me, max_hops)->Some_0;
            &&& way_down(db, me, trail)
            &&& b == linkstate::belief_from(db, trail)
            &&& trail.len() <= linkstate::reach(max_hops) + 1
            &&& trail.len() <= u32::MAX ==> b.hop_count == trail.len()
            &&& trail.len() > u32::MAX ==> b.hop_count == u32::MAX
            &&& trail.len() > 1 ==> b.next_hop == Some(trail[1])
            &&& trail.len() == 1 ==> b.next_hop is None
            &&& forall|i: int|
                0 <= i < trail.len() ==> b.emitted_at_round <= db[#[trigger] trail[i]].emitted_at_round
            &&& exists|i: int|
                0 <= i < trail.len() && b.emitted_at_round == db[#[trigger] trail[i]].emitted_at_round
            &&& db[trail.last()].tower == Some(b.tower_id)
            &&& db[trail.last()].seq == b.epoch
        }),
{
    lemma_route_from(db, me, max_hops, 0);
    let b = linkstate::route(db, me, max_hops)->Some_0;
    let trail = choose|trail: Seq<u32>|
        #[trigger] way_down(db, me, trail) && b == linkstate::belief_from(db, trail)
            && trail.len() <= linkstate::reach(max_hops) + 1;
    lemma_stalest(db, trail);
    trail
}

proof fn lemma_stalest(db: Map<u32, LsaModel>, trail: Seq<u32>)
    requires
        trail.len() > 0,
    ensures
        forall|i: int|
            0 <= i < trail.len() ==> linkstate::stalest(db, trail) <= db[
            #[trigger] trail[i]].emitted_at_round,
        exists|i: int|
            0 <= i < trail.len() && linkstate::stalest(db, trail) == db[
            #[trigger] trail[i]].emitted_at_round,
    decreases trail.len(),
{
    if trail.len() > 1 {
        lemma_stalest(db, trail.drop_last());
        let rest = trail.drop_last();
        let y = choose|i: int|
            0 <= i < rest.len() && linkstate::stalest(db, rest) == db[
            #[trigger] rest[i]].emitted_at_round;
        assert(rest[y] == trail[y]);
        assert(trail[trail.len() - 1] == trail.last());
        assert forall|i: int| 0 <= i < trail.len() implies linkstate::stalest(db, trail) <= db[
        #[trigger] trail[i]].emitted_at_round by {
            if i < trail.len() - 1 {
                assert(trail.drop_last()[i] == trail[i]);
            }
        }
    }
}

// ---------------------------------------------------------------------------
// Nothing nearer is overlooked
// ---------------------------------------------------------------------------

/// Whether a balloon ends one of the trails of a layer.
spec fn ends_one(trails: Seq<Seq<u32>>, id: u32) -> bool {
    exists|j: int| 0 <= j < trails.len() && (#[trigger] trails[j]).last() == id
}

proof fn lemma_carried_on_sees(at: Layer, trail: Seq<u32>, list: Seq<u32>, k: nat)
    requires
        k <= list.len(),
    ensures
        ({
            let after = linkstate::carried_on(at, trail, list, k);
            &&& forall|id: u32| #[trigger] at.seen.contains(id) ==> after.seen.contains(id)
            &&& forall|i: int| 0 <= i < k ==> after.seen.contains(#[trigger] list[i])
            &&& forall|id: u32| #[trigger]
                after.seen.contains(id) ==> at.seen.contains(id) || ends_one(after.trails, id)
            &&& forall|id: u32| ends_one(at.trails, id) ==> #[trigger] ends_one(after.trails, id)
        }),
    decreases k,
{
    if k > 0 {
        lemma_carried_on_sees(at, trail, list, (k - 1) as nat);
        let before = linkstate::carried_on(at, trail, list, (k - 1) as nat);
        let after = linkstate::carried_on(at, trail, list, k);
        if !before.seen.contains(list[k - 1]) {
            let more = trail.push(list[k - 1]);
            assert(after.trails[before.trails.len() as int] == more);
            assert(more.last() == list[k - 1]);
            assert(ends_one(after.trails, list[k - 1]));
            assert forall|id: u32| ends_one(before.trails, id) implies #[trigger] ends_one(
                after.trails,
                id,
            ) by {
                let j = choose|j: int|
                    0 <= j < before.trails.len() && (#[trigger] before.trails[j]).last() == id;
                assert(after.trails[j] == before.trails[j]);
            }
        }
    }
}

proof fn lemma_spread_sees(
    db: Map<u32, LsaModel>,
    seen: Set<u32>,
    trails: Seq<Seq<u32>>,
    k: nat,
)
    requires
        k <= trails.len(),
    ensures
        ({
            let after = linkstate::spread(db, seen, trails, k);
            &&& forall|id: u32| #[trigger] seen.contains(id) ==> after.seen.contains(id)
            &&& forall|j: int, id: u32|
                #![trigger trails[j], after.seen.contains(id)]
                0 <= j < k && db.contains_key(trails[j].last()) && db[trails[j].last()].neighbors.contains(id)
                    ==> after.seen.contains(id)
            &&& forall|id: u32| #[trigger]
                after.seen.contains(id) ==> seen.contains(id) || ends_one(after.trails, id)
        }),
    decreases k,
{
    if k > 0 {
        lemma_spread_sees(db, seen, trails, (k - 1) as nat);
        let before = linkstate::spread(db, seen, trails, (k - 1) as nat);
        let after = linkstate::spread(db, seen, trails, k);
        let trail = trails[k - 1];
        if db.contains_key(trail.last()) {
            let list = db[trail.last()].neighbors;
            lemma_carried_on_sees(before, trail, list, list.len());
            assert forall|id: u32| list.contains(id) implies #[trigger] after.seen.contains(id) by {
                let i = choose|i: int| 0 <= i < list.len() && list[i] == id;
                assert(after.seen.contains(list[i]));
            }
            assert forall|id: u32| #[trigger] after.seen.contains(id) implies seen.contains(id)
                || ends_one(after.trails, id) by {
                if before.seen.contains(id) && !seen.contains(id) {
                    assert(ends_one(before.trails, id));
                }
            }
        }
        assert forall|j: int, id: u32|
            #![trigger trails[j], after.seen.contains(id)]
            0 <= j < k && db.contains_key(trails[j].last())
                && db[trails[j].last()].neighbors.contains(id) implies after.seen.contains(
            id,
        ) by {
            if j < k - 1 {
                assert(before.seen.contains(id));
            }
        }
    }
}

/// Every balloon seen by distance `d` ends a trail at that distance or nearer.
proof fn lemma_seen_is_reached(db: Map<u32, LsaModel>, me: u32, d: nat, id: u32) -> (e: nat)
    requires
        linkstate::layer(db, me, d).seen.contains(id),
    ensures
        e <= d,
        ends_one(linkstate::layer(db, me, e).trails, id),
    decreases d,
{
    if d == 0 {
        assert(linkstate::layer(db, me, 0).trails[0] == seq![me]);
        assert(seq![me].last() == me);
        0
    } else {
        let before = linkstate::layer(db, me, (d - 1) as nat);
        lemma_spread_sees(db, before.seen, before.trails, before.trails.len());
        if before.seen.contains(id) {
            lemma_seen_is_reached(db, me, (d - 1) as nat, id)
        } else {
            d
        }
    }
}

proof fn lemma_seen_stays(db: Map<u32, LsaModel>, me: u32, e: nat, d: nat, id: u32)
    requires
        e <= d,
        linkstate::layer(db, me, e).seen.contains(id),
    ensures
        linkstate::layer(db, me, d).seen.contains(id),
    decreases d - e,
{
    if e < d {
        let at = linkstate::layer(db, me, e);
        lemma_spread_sees(db, at.seen, at.trails, at.trails.len());
        lemma_seen_stays(db, me, e + 1, d, id);
    }
}

/// The end of a trail of `d` hops has been seen by distance `d`.
proof fn lemma_trails_are_seen(db: Map<u32, LsaModel>, me: u32, trail: Seq<u32>)
    requires
        linkstate::is_trail(db, me, trail),
    ensures
        linkstate::layer(db, me, (trail.len() - 1) as nat).seen.contains(trail.last()),
    decreases trail.len(),
{
    let d = (trail.len() - 1) as nat;
    if d > 0 {
        let shorter = trail.drop_last();
        assert(linkstate::is_trail(db, me, shorter)) by {
            assert forall|i: int| #![trigger shorter[i]] 0 <= i < shorter.len() - 1 implies db.contains_key(
                shorter[i],
            ) && db[shorter[i]].neighbors.contains(shorter[i + 1]) by {
                assert(shorter[i] == trail[i]);
                assert(shorter[i + 1] == trail[i + 1]);
            }
        }
        lemma_trails_are_seen(db, me, shorter);
        assert(trail[d - 1] == shorter.last());
        let e = lemma_seen_is_reached(db, me, (d - 1) as nat, shorter.last());
        let at = linkstate::layer(db, me, e);
        let j = choose|j: int|
            0 <= j < at.trails.len() && (#[trigger] at.trails[j]).last() == shorter.last();
        lemma_spread_sees(db, at.seen, at.trails, at.trails.len());
        assert(db[at.trails[j].last()].neighbors.contains(trail[d as int]));
        assert(linkstate::layer(db, me, e + 1).seen.contains(trail[d as int]));
        lemma_seen_stays(db, me, e + 1, d, trail[d as int]);
    }
}

/// A landfall at distance `e` bounds the route found from distance `d` on.
proof fn lemma_route_bounded(db: Map<u32, LsaModel>, me: u32, max_hops: u32, d: nat, e: nat)
    requires
        d <= e <= linkstate::reach(max_hops),
        linkstate::landfall(db, linkstate::layer(db, me, e).trails, 0) is Some,
    ensures
        linkstate::route_from(db, me, max_hops, d) matches Some(b) && b.hop_count <= e + 1,
    decreases e - d,
{
    let trails = linkstate::layer(db, me, d).trails;
    linkstate::layers_are_trails(db, me, d);
    lemma_landfall(db, trails, 0);
    match linkstate::landfall(db, trails, 0) {
        Some(t) => {
            let j = choose|j: int| 0 <= j < trails.len() && #[trigger] trails[j] == t;
            assert(trails[j].len() == d + 1);
        },
        None => {
            lemma_route_bounded(db, me, max_hops, d + 1, e);
        },
    }
}

/// No nearer way down is overlooked: wherever the map shows a way to a tower
/// within reach, a route is found, and it takes no more hops.
pub proof fn no_nearer_way_is_overlooked(
    db: Map<u32, LsaModel>,
    me: u32,
    max_hops: u32,
    trail: Seq<u32>,
)
    requires
        way_down(db, me, trail),
        trail.len() <= linkstate::reach(max_hops) + 1,
    ensures
        linkstate::route(db, me, max_hops) matches Some(b) && b.hop_count <= trail.len(),
{
    let d = (trail.len() - 1) as nat;
    lemma_trails_are_seen(db, me, trail);
    let e = lemma_seen_is_reached(db, me, d, trail.last());
    let trails = linkstate::layer(db, me, e).trails;
    let j = choose|j: int| 0 <= j < trails.len() && (#[trigger] trails[j]).last() == trail.last();
    lemma_landfall_found(db, trails, 0, j);
    lemma_route_bounded(db, me, max_hops, 0, e);
    assert(db.contains_key(trail[0]));
}

/// A search comes back without a route exactly where the map shows no way to a
/// tower within reach.
pub proof fn no_route_means_no_way(db: Map<u32, LsaModel>, me: u32, max_hops: u32)
    ensures
        linkstate::route(db, me, max_hops) is None <==> forall|trail: Seq<u32>|
            #[trigger] way_down(db, me, trail) ==> trail.len() > linkstate::reach(max_hops) + 1,
{
    if linkstate::route(db, me, max_hops) is Some {
        let trail = a_computed_route_rests_on_observations(db, me, max_hops);
        assert(way_down(db, me, trail));
    } else {
        assert forall|trail: Seq<u32>| #[trigger] way_down(db, me, trail) implies trail.len()
            > linkstate::reach(max_hops) + 1 by {
            if trail.len() <= linkstate::reach(max_hops) + 1 {
                no_nearer_way_is_overlooked(db, me, max_hops, trail);
            }
        }
    }
}


// ---------------------------------------------------------------------------
// What gossip passes on
// ---------------------------------------------------------------------------

/// Whether every observation held by anyone has a property.
pub open spec fn all_held(nodes: Seq<LsModel>, p: spec_fn(LsaModel) -> bool) -> bool {
    forall|j: int, id: u32|
        0 <= j < nodes.len() && #[trigger] nodes[j].db.contains_key(id) ==> p(nodes[j].db[id])
}

spec fn all_sent(batch: Seq<LsaModel>, p: spec_fn(LsaModel) -> bool) -> bool {
    forall|j: int| 0 <= j < batch.len() ==> p(#[trigger] batch[j])
}

proof fn lemma_filled(
    db: Map<u32, LsaModel>,
    id: u32,
    batch: Seq<LsaModel>,
    waiting: Seq<u32>,
    limit: nat,
    p: spec_fn(LsaModel) -> bool,
)
    requires
        all_sent(batch, p),
        forall|x: u32| #[trigger] db.contains_key(x) ==> p(db[x]),
    ensures
        all_sent(linkstate::filled(db, id, batch, waiting, limit).0, p),
    decreases waiting.len(),
{
    if batch.len() < limit && waiting.len() > 0 {
        let rest = waiting.subrange(1, waiting.len() as int);
        if waiting[0] != id && db.contains_key(waiting[0]) {
            lemma_filled(db, id, batch.push(db[waiting[0]]), rest, limit, p);
        } else {
            lemma_filled(db, id, batch, rest, limit, p);
        }
    }
}

/// Whether what a balloon would observe for itself now has a property.
spec fn own_holds(
    nodes: Seq<LsModel>,
    fleet: Seq<Balloon>,
    topo: Topology,
    round: u64,
    p: spec_fn(LsaModel) -> bool,
) -> bool {
    forall|i: int, n: LsModel|
        0 <= i < nodes.len() ==> p(
            #[trigger] linkstate::own_record(n, fleet[i].id, i, topo, round),
        )
}

proof fn lemma_sendings(
    nodes: Seq<LsModel>,
    fleet: Seq<Balloon>,
    topo: Topology,
    params: DvDtnParams,
    round: u64,
    awake: Seq<usize>,
    k: nat,
    p: spec_fn(LsaModel) -> bool,
)
    requires
        k <= awake.len(),
        forall|a: int| 0 <= a < awake.len() ==> (#[trigger] awake[a]) < nodes.len(),
        all_held(nodes, p),
        own_holds(nodes, fleet, topo, round, p),
    ensures
        ({
            let s = linkstate::sendings(nodes, fleet, topo, params, round, awake, k);
            &&& s.nodes.len() == nodes.len()
            &&& all_held(s.nodes, p)
            &&& forall|j: int| 0 <= j < s.out.len() ==> all_sent((#[trigger] s.out[j]).batch, p)
        }),
    decreases k,
{
    if k > 0 {
        lemma_sendings(nodes, fleet, topo, params, round, awake, (k - 1) as nat, p);
        let before = linkstate::sendings(nodes, fleet, topo, params, round, awake, (k - 1) as nat);
        let after = linkstate::sendings(nodes, fleet, topo, params, round, awake, k);
        let i = awake[k - 1] as int;
        let n = before.nodes[i];
        let own = linkstate::own_record(n, fleet[i].id, i, topo, round);
        assert(p(own));
        let db = n.db.insert(fleet[i].id, own);
        assert forall|x: u32| #[trigger] db.contains_key(x) implies p(db[x]) by {
            if x != fleet[i].id {
                assert(before.nodes[i].db.contains_key(x));
            }
        }
        lemma_filled(
            db,
            fleet[i].id,
            seq![own],
            n.to_relay,
            linkstate::batch_limit(params),
            p,
        );
        assert forall|j: int, id: u32|
            0 <= j < after.nodes.len() && #[trigger] after.nodes[j].db.contains_key(id) implies p(
            after.nodes[j].db[id],
        ) by {
            if j == i {
                assert(after.nodes[j].db == db);
            } else {
                assert(before.nodes[j].db.contains_key(id));
            }
        }
    }
}

proof fn lemma_records_heard(
    g: Gossip,
    nb: u32,
    batch: Seq<LsaModel>,
    k: nat,
    p: spec_fn(LsaModel) -> bool,
)
    requires
        k <= batch.len(),
        nb < g.state.nodes.len(),
        all_held(g.state.nodes, p),
        all_sent(batch, p),
    ensures
        all_held(linkstate::records_heard(g, nb, batch, k).state.nodes, p),
        linkstate::records_heard(g, nb, batch, k).state.nodes.len() == g.state.nodes.len(),
        linkstate::records_heard(g, nb, batch, k).events == g.events,
    decreases k,
{
    if k > 0 {
        lemma_records_heard(g, nb, batch, (k - 1) as nat, p);
        let before = linkstate::records_heard(g, nb, batch, (k - 1) as nat);
        let after = linkstate::records_heard(g, nb, batch, k);
        assert(p(batch[k - 1]));
        assert forall|j: int, id: u32|
            0 <= j < after.state.nodes.len()
                && #[trigger] after.state.nodes[j].db.contains_key(id) implies p(
            after.state.nodes[j].db[id],
        ) by {
            if after.state.nodes[j].db[id] != batch[k - 1] {
                assert(before.state.nodes[j].db.contains_key(id));
            }
        }
    }
}

/// Whether nothing but gossip was sent.
pub open spec fn only_gossip(events: Seq<CommsEvent>) -> bool {
    forall|j: int| 0 <= j < events.len() ==> (#[trigger] events[j]).kind == EventKind::Gossip
}

proof fn lemma_batch_spread(
    g: Gossip,
    fleet: Seq<Balloon>,
    topo: Topology,
    b: Broadcast,
    k: nat,
    p: spec_fn(LsaModel) -> bool,
)
    requires
        all_held(g.state.nodes, p),
        all_sent(b.batch, p),
        only_gossip(g.events),
    ensures
        all_held(linkstate::batch_spread(g, fleet, topo, b, k).state.nodes, p),
        linkstate::batch_spread(g, fleet, topo, b, k).state.nodes.len() == g.state.nodes.len(),
        only_gossip(linkstate::batch_spread(g, fleet, topo, b, k).events),
    decreases k,
{
    if k > 0 {
        lemma_batch_spread(g, fleet, topo, b, (k - 1) as nat, p);
        let before = linkstate::batch_spread(g, fleet, topo, b, (k - 1) as nat);
        let nb = topo.neighbors_of(b.from)[k - 1];
        if nb < before.state.nodes.len() {
            let told = Gossip {
                events: before.events.push(
                    CommsEvent {
                        kind: EventKind::Gossip,
                        from: NodeKey::Balloon(fleet[b.from].id),
                        to: NodeKey::Balloon(nb),
                        payload: (b.batch.len() as usize) as u32,
                        tower_id: None,
                        hop_count: None,
                        epoch: Some(b.batch[0].seq),
                    },
                ),
                ..before
            };
            lemma_records_heard(told, nb, b.batch, b.batch.len(), p);
        }
    }
}

proof fn lemma_all_spread(
    g: Gossip,
    fleet: Seq<Balloon>,
    topo: Topology,
    out: Seq<Broadcast>,
    k: nat,
    p: spec_fn(LsaModel) -> bool,
)
    requires
        k <= out.len(),
        all_held(g.state.nodes, p),
        forall|j: int| 0 <= j < out.len() ==> all_sent((#[trigger] out[j]).batch, p),
        only_gossip(g.events),
    ensures
        all_held(linkstate::all_spread(g, fleet, topo, out, k).state.nodes, p),
        linkstate::all_spread(g, fleet, topo, out, k).state.nodes.len() == g.state.nodes.len(),
        only_gossip(linkstate::all_spread(g, fleet, topo, out, k).events),
    decreases k,
{
    if k > 0 {
        lemma_all_spread(g, fleet, topo, out, (k - 1) as nat, p);
        lemma_batch_spread(
            linkstate::all_spread(g, fleet, topo, out, (k - 1) as nat),
            fleet,
            topo,
            out[k - 1],
            topo.neighbors_of(out[k - 1].from).len(),
            p,
        );
    }
}

proof fn lemma_rerouted(
    r: Routed,
    fleet: Seq<Balloon>,
    params: DvDtnParams,
    awake: Seq<usize>,
    k: nat,
    p: spec_fn(LsaModel) -> bool,
)
    requires
        k <= awake.len(),
        forall|a: int| 0 <= a < awake.len() ==> (#[trigger] awake[a]) < r.maps.len(),
        all_held(r.maps, p),
    ensures
        all_held(linkstate::rerouted(r, fleet, params, awake, k).maps, p),
        linkstate::rerouted(r, fleet, params, awake, k).maps.len() == r.maps.len(),
    decreases k,
{
    if k > 0 {
        lemma_rerouted(r, fleet, params, awake, (k - 1) as nat, p);
        let before = linkstate::rerouted(r, fleet, params, awake, (k - 1) as nat);
        let after = linkstate::rerouted(r, fleet, params, awake, k);
        assert(awake[k - 1] < r.maps.len());
        assert forall|j: int, id: u32|
            0 <= j < after.maps.len() && #[trigger] after.maps[j].db.contains_key(id) implies p(
            after.maps[j].db[id],
        ) by {
            assert(before.maps[j].db.contains_key(id));
        }
    }
}

/// Whatever holds of all observations that are kept, and of all that are made,
/// holds of all that are about after a round.
proof fn lemma_gossip_keeps(
    nodes: Seq<NodeModel>,
    state: StateModel,
    fleet: Seq<Balloon>,
    topo: Topology,
    params: DvDtnParams,
    round: u64,
    draws: Seq<u64>,
    p: spec_fn(LsaModel) -> bool,
)
    requires
        nodes.len() <= usize::MAX,
        ({
            let kept = linkstate::fitted(state.nodes, nodes.len());
            let fresh = Seq::new(
                kept.len(),
                |i: int| linkstate::aged(kept[i], round, params.belief_max_age_rounds),
            );
            all_held(fresh, p) && own_holds(fresh, fleet, topo, round, p)
        }),
    ensures
        all_held(
            linkstate::gossip_round(nodes, state, fleet, topo, params, round, draws).state.nodes,
            p,
        ),
        only_gossip(
            linkstate::gossip_round(nodes, state, fleet, topo, params, round, draws).events,
        ),
{
    let kept = linkstate::fitted(state.nodes, nodes.len());
    let fresh = Seq::new(
        kept.len(),
        |i: int| linkstate::aged(kept[i], round, params.belief_max_age_rounds),
    );
    let awake = beacon::awake_of(nodes, nodes.len(), round);
    linkstate::lemma_awake_rises(nodes, nodes.len(), round);
    lemma_sendings(fresh, fleet, topo, params, round, awake, awake.len(), p);
    let s = linkstate::sendings(fresh, fleet, topo, params, round, awake, awake.len());
    let g0 = Gossip { state: StateModel { nodes: s.nodes, ..state }, events: Seq::empty() };
    lemma_all_spread(g0, fleet, topo, s.out, s.out.len(), p);
    let g = linkstate::gossiped(nodes, state, fleet, topo, params, round);
    let woken = Seq::new(
        nodes.len(),
        |i: int| beacon::rescheduled(nodes[i], params, round, draws[i]),
    );
    lemma_rerouted(
        Routed { nodes: woken, maps: g.state.nodes },
        fleet,
        params,
        awake,
        awake.len(),
        p,
    );
}

/// Whether an observation was held by someone.
pub open spec fn known(nodes: Seq<LsModel>, rec: LsaModel) -> bool {
    exists|j: int, id: u32|
        0 <= j < nodes.len() && #[trigger] nodes[j].db.contains_key(id) && nodes[j].db[id] == rec
}

/// Whether an observation is what one of the first `n` balloons sees now.
pub open spec fn first_hand(
    rec: LsaModel,
    fleet: Seq<Balloon>,
    topo: Topology,
    round: u64,
    n: nat,
) -> bool {
    exists|i: int|
        0 <= i < n && rec.origin == (#[trigger] fleet[i]).id && rec.emitted_at_round == round
            && rec.neighbors == topo.neighbors_of(i) && rec.tower == topo.tower_of(i)
}

/// Gossip passes observations on unchanged: whatever a map holds after a round
/// was held by someone before it, word for word and with its date, or is what
/// a balloon saw for itself this round.
pub proof fn observations_are_never_restamped(
    nodes: Seq<NodeModel>,
    state: StateModel,
    fleet: Seq<Balloon>,
    topo: Topology,
    params: DvDtnParams,
    round: u64,
    draws: Seq<u64>,
    j: int,
    id: u32,
)
    requires
        nodes.len() <= usize::MAX,
        ({
            let after = linkstate::gossip_round(
                nodes,
                state,
                fleet,
                topo,
                params,
                round,
                draws,
            ).state.nodes;
            0 <= j < after.len() && after[j].db.contains_key(id)
        }),
    ensures
        ({
            let rec = linkstate::gossip_round(
                nodes,
                state,
                fleet,
                topo,
                params,
                round,
                draws,
            ).state.nodes[j].db[id];
            known(state.nodes, rec) || first_hand(rec, fleet, topo, round, nodes.len())
        }),
{
    let p = |rec: LsaModel|
        known(state.nodes, rec) || first_hand(rec, fleet, topo, round, nodes.len());
    let kept = linkstate::fitted(state.nodes, nodes.len());
    let fresh = Seq::new(
        kept.len(),
        |i: int| linkstate::aged(kept[i], round, params.belief_max_age_rounds),
    );
    assert forall|a: int, x: u32|
        0 <= a < fresh.len() && #[trigger] fresh[a].db.contains_key(x) implies p(
        fresh[a].db[x],
    ) by {
        assert(kept[a].db.contains_key(x));
        assert(state.nodes[a].db.contains_key(x));
    }
    assert forall|i: int, n: LsModel| 0 <= i < fresh.len() implies p(
        #[trigger] linkstate::own_record(n, fleet[i].id, i, topo, round),
    ) by {
        assert(first_hand(
            linkstate::own_record(n, fleet[i].id, i, topo, round),
            fleet,
            topo,
            round,
            nodes.len(),
        )) by {
            assert(fleet[i].id == fleet[i].id);
        }
    }
    lemma_gossip_keeps(nodes, state, fleet, topo, params, round, draws, p);
}

/// Maps are current: after a round no map holds an observation older than the
/// lease.
pub proof fn maps_shrink_with_age(
    nodes: Seq<NodeModel>,
    state: StateModel,
    fleet: Seq<Balloon>,
    topo: Topology,
    params: DvDtnParams,
    round: u64,
    draws: Seq<u64>,
)
    requires
        nodes.len() <= usize::MAX,
    ensures
        all_held(
            linkstate::gossip_round(nodes, state, fleet, topo, params, round, draws).state.nodes,
            |rec: LsaModel| !linkstate::stale(rec, round, params.belief_max_age_rounds),
        ),
        all_held(
            linkstate::gossip_round(nodes, state, fleet, topo, params, round, draws).state.nodes,
            |rec: LsaModel| round <= rec.emitted_at_round + params.belief_max_age_rounds,
        ),
{
    lemma_gossip_keeps(
        nodes,
        state,
        fleet,
        topo,
        params,
        round,
        draws,
        |rec: LsaModel| round <= rec.emitted_at_round + params.belief_max_age_rounds,
    );
    lemma_gossip_keeps(
        nodes,
        state,
        fleet,
        topo,
        params,
        round,
        draws,
        |rec: LsaModel| !linkstate::stale(rec, round, params.belief_max_age_rounds),
    );
}

/// Gossip is the only kind on the wire: no route is ever advertised.
pub proof fn gossip_is_the_only_kind(
    nodes: Seq<NodeModel>,
    state: StateModel,
    fleet: Seq<Balloon>,
    topo: Topology,
    params: DvDtnParams,
    round: u64,
    draws: Seq<u64>,
)
    requires
        nodes.len() <= usize::MAX,
    ensures
        only_gossip(
            linkstate::gossip_round(nodes, state, fleet, topo, params, round, draws).events,
        ),
{
    lemma_gossip_keeps(
        nodes,
        state,
        fleet,
        topo,
        params,
        round,
        draws,
        |rec: LsaModel| true,
    );
}
} // verus!
