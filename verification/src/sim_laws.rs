//! What holds of a world from tick to tick.
use vstd::prelude::*;

use crate::balloon::Balloon;
use crate::config;
use crate::link_detection;
use crate::link_detection::{Candidate, Edge, NodeKey};
use crate::mesh_adjacency;
use crate::protocol::dv_dtn;
use crate::protocol::dv_dtn::beacon_laws;
use crate::protocol::dv_dtn::bundle_laws;
use crate::protocol::dv_dtn::bundle_order;
use crate::protocol::dv_dtn::bundle_paths;
use crate::protocol::dv_dtn::bundle_round;
use crate::protocol::dv_dtn::dv_laws;
use crate::protocol::dv_dtn::dv_round;
use crate::protocol::dv_dtn::dv_round::{Draws, DvModel};
use crate::protocol::dv_dtn::params::{AckPolicy, Discovery, DvDtnParams};
use crate::protocol::dv_dtn::{DvDtn, NodeModel};
use crate::protocol::epidemic::spray_counts;
use crate::protocol::epidemic::spray_laws;
use crate::protocol::epidemic::spray_round;
use crate::protocol::epidemic::spray_round::EpiModel;
use crate::protocol::mesh;
use crate::protocol::{CommsEvent, MeshProtocol};
use crate::sim;
use crate::sim::{EdgeSnapshot, World};
use crate::telemetry::Reading;
use crate::tower;
use crate::tower::Tower;

verus! {

/// Whether towers stand in the order of their ids, all of them given out.
pub open spec fn numbered(towers: Seq<Tower>, next: u32) -> bool {
    &&& forall|i: int| 0 <= i < towers.len() ==> (#[trigger] towers[i]).id < next
    &&& forall|i: int, j: int|
        0 <= i < j < towers.len() ==> (#[trigger] towers[i]).id < (#[trigger] towers[j]).id
}

/// An id is never given out twice: a new tower's is none that stands, and
/// towers stay in the order of their ids as they come and go.
pub proof fn tower_ids_are_never_reused(
    towers: Seq<Tower>,
    next: u32,
    lon: u64,
    lat: u64,
    height_m: u64,
    gone: u32,
)
    requires
        numbered(towers, next),
        next < u32::MAX,
    ensures
        numbered(towers.push(tower::fresh(next, lon, lat, height_m)), (next + 1) as u32),
        forall|i: int| 0 <= i < towers.len() ==> (#[trigger] towers[i]).id != next,
        numbered(sim::without(towers, gone), next),
        forall|i: int|
            0 <= i < sim::without(towers, gone).len() ==> (#[trigger] sim::without(
                towers,
                gone,
            )[i]).id != gone,
{
    lemma_filtered(towers, next, gone);
}

proof fn lemma_filtered(towers: Seq<Tower>, next: u32, gone: u32)
    requires
        numbered(towers, next),
    ensures
        numbered(sim::without(towers, gone), next),
        forall|i: int|
            0 <= i < sim::without(towers, gone).len() ==> (#[trigger] sim::without(
                towers,
                gone,
            )[i]).id != gone,
        forall|i: int|
            0 <= i < sim::without(towers, gone).len() ==> towers.contains(
                #[trigger] sim::without(towers, gone)[i],
            ),
    decreases towers.len(),
{
    let other = |t: Tower| t.id != gone;
    reveal(Seq::filter);
    if towers.len() > 0 {
        let before = towers.drop_last();
        lemma_filtered(before, next, gone);
        let kept = sim::without(before, gone);
        assert(before.filter(other) == kept);
        let after = sim::without(towers, gone);
        assert forall|i: int| 0 <= i < after.len() implies towers.contains(
            #[trigger] after[i],
        ) by {
            if i < kept.len() {
                assert(after[i] == kept[i]);
                assert(before.contains(kept[i]));
                let x = before.index_of(kept[i]);
                assert(towers[x] == kept[i]);
            } else {
                assert(after[i] == towers.last());
            }
        }
        assert forall|i: int, j: int| 0 <= i < j < after.len() implies (#[trigger] after[i]).id < (
        #[trigger] after[j]).id by {
            assert(after[i] == kept[i]);
            if j < kept.len() {
                assert(after[j] == kept[j]);
            } else {
                assert(before.contains(kept[i]));
                let x = before.index_of(kept[i]);
                assert(towers[x] == kept[i]);
                assert(after[j] == towers[towers.len() - 1]);
            }
        }
    }
}

/// No two links of a snapshot have the same pair key.
pub proof fn pair_keys_are_distinct(
    w: World,
    rows: Seq<Vec<Candidate>>,
    shots: Seq<EdgeSnapshot>,
)
    requires
        sim::shows_edges(shots, w.edges_now(rows), w.towers@),
    ensures
        forall|i: int, j: int|
            0 <= i < j < shots.len() ==> (#[trigger] shots[i]).pair_key@ != (
            #[trigger] shots[j]).pair_key@,
{
    let keys = sim::keys_of(w.visible(), w.towers@);
    let edges = w.edges_now(rows);
    link_detection::links_are_found_once(keys, rows, keys.len());
    assert forall|i: int, j: int| 0 <= i < j < shots.len() implies (#[trigger] shots[i]).pair_key@
        != (#[trigger] shots[j]).pair_key@ by {
        assert(shots[i].pair_key@ == link_detection::wire_pair(edges[i].a, edges[i].b));
        assert(shots[j].pair_key@ == link_detection::wire_pair(edges[j].a, edges[j].b));
    }
}

/// The nodes of the balloons that take part in connectivity.
pub open spec fn seen(d: DvDtn, v: nat) -> Seq<NodeModel> {
    d@.nodes.take(v as int)
}

/// Whether a world's visible nodes are in order, and its bundles things in
/// places.
pub open spec fn in_order(w: World) -> bool {
    w.protocol matches MeshProtocol::DvDtn(d) && w.visible_count <= d@.nodes.len() && {
        &&& bundle_order::all_orderly(seen(d, w.visible_count as nat), w.visible(), d.params)
        &&& bundle_paths::well_kept(seen(d, w.visible_count as nat), d.params)
    }
}

/// What the books of a world's visible nodes lack.
pub open spec fn missing(w: World) -> (int, int)
    recommends
        w.protocol is DvDtn,
{
    let d = w.protocol->DvDtn_0;
    let s = dv_round::to_deliver(DvModel { nodes: seen(d, w.visible_count as nat), ..d@ });
    (bundle_laws::bundles_missing(s), bundle_laws::receipts_missing(s))
}

/// A balloon keeps its id, whatever a tick does to it.
proof fn lemma_same_ids(
    w: World,
    after: World,
    readings: Seq<Reading>,
    rows: Seq<Vec<Candidate>>,
    events: Seq<CommsEvent>,
)
    requires
        w.wf(),
        w.ticked(after, readings, rows, events),
    ensures
        after.balloons@.len() == w.balloons@.len(),
        w.flown(readings, rows).len() == w.balloons@.len(),
        forall|i: int|
            0 <= i < w.balloons@.len() ==> (#[trigger] after.balloons@[i]).id == w.balloons@[i].id,
        forall|i: int|
            0 <= i < w.balloons@.len() ==> (#[trigger] w.flown(readings, rows)[i]).id
                == w.balloons@[i].id,
{
    let flown = w.flown(readings, rows);
    assert forall|i: int| 0 <= i < w.balloons@.len() implies (#[trigger] flown[i]).id
        == w.balloons@[i].id by {}
    assert forall|i: int| 0 <= i < w.balloons@.len() implies (#[trigger] after.balloons@[i]).id
        == w.balloons@[i].id by {
        assert(flown[i].id == w.balloons@[i].id);
    }
}

proof fn lemma_orderly_by_ids(
    nodes: Seq<NodeModel>,
    a: Seq<Balloon>,
    b: Seq<Balloon>,
    params: DvDtnParams,
)
    requires
        bundle_order::all_orderly(nodes, a, params),
        a.len() == b.len(),
        forall|i: int| 0 <= i < a.len() ==> (#[trigger] b[i]).id == a[i].id,
    ensures
        bundle_order::all_orderly(nodes, b, params),
{
    assert forall|i: int| 0 <= i < nodes.len() implies bundle_order::orderly(
        #[trigger] nodes[i],
        b[i].id,
        params,
    ) by {
        assert(bundle_order::orderly(nodes[i], a[i].id, params));
    }
    assert forall|i: int| 0 <= i < b.len() implies (#[trigger] b[i]).id == i by {
        assert(a[i].id == i);
    }
}

/// A comms tick is a round of the protocol, for some draws.
proof fn lemma_round_taken(
    w: World,
    after: World,
    readings: Seq<Reading>,
    rows: Seq<Vec<Candidate>>,
    events: Seq<CommsEvent>,
) -> (draws: Draws)
    requires
        w.wf(),
        w.tickable(readings, rows),
        w.ticked(after, readings, rows, events),
        w.protocol is DvDtn,
        sim::comms_on(w.tick_count + 1),
    ensures
        after.protocol is DvDtn,
        ({
            let d = w.protocol->DvDtn_0;
            let e = after.protocol->DvDtn_0;
            let s = w.scene(readings, rows);
            &&& e.params == d.params
            &&& e@ == dv_round::dv_round(
                d@,
                s.balloons,
                s.towers,
                s.topo,
                d.params,
                s.round,
                draws,
            ).m
            &&& dv_round::dv_fits(d@, s.balloons, s.towers, d.params, s.round)
            &&& d@.nodes.len() <= usize::MAX
            &&& s.balloons.len() == w.visible_count
            &&& e@.nodes.len() >= w.visible_count
        }),
{
    let d = w.protocol->DvDtn_0;
    let e = after.protocol->DvDtn_0;
    let s = w.scene(readings, rows);
    assert(w.protocol.fits(s));
    assert(w.protocol.stepped(after.protocol, s, events));
    assert(d@.nodes.len() == d.nodes.len());
    lemma_same_ids(w, after, readings, rows, events);
    let draws = choose|draws: Draws|
        draws.fit(s.towers.len(), s.balloons.len(), d.params) && dv_dtn::outcome_of(e@, events)
            == #[trigger] dv_round::dv_round(
            d@,
            s.balloons,
            s.towers,
            s.topo,
            d.params,
            s.round,
            draws,
        );
    assert(dv_dtn::outcome_of(e@, events).m == e@);
    dv_laws::lemma_sizes(d@, s.balloons, s.towers, s.topo, d.params, s.round, draws);
    draws
}

/// Every tick keeps a world in order: queues and logs within their bounds, each
/// bundle in one place with a path without a circle that ends where it is
/// held.
pub proof fn every_tick_keeps_order(
    w: World,
    after: World,
    readings: Seq<Reading>,
    rows: Seq<Vec<Candidate>>,
    events: Seq<CommsEvent>,
)
    requires
        w.wf(),
        w.tickable(readings, rows),
        w.ticked(after, readings, rows, events),
        in_order(w),
    ensures
        in_order(after),
{
    let v = w.visible_count as int;
    let d = w.protocol->DvDtn_0;
    let s = w.scene(readings, rows);
    lemma_same_ids(w, after, readings, rows, events);
    assert forall|i: int| 0 <= i < v implies (#[trigger] s.balloons[i]).id == w.visible()[i].id by {
        assert(w.flown(readings, rows)[i].id == w.balloons@[i].id);
    }
    assert forall|i: int| 0 <= i < v implies (#[trigger] after.visible()[i]).id
        == w.visible()[i].id by {
        assert(after.balloons@[i].id == w.balloons@[i].id);
    }
    if sim::comms_on(w.tick_count + 1) {
        let e = after.protocol->DvDtn_0;
        let draws = lemma_round_taken(w, after, readings, rows, events);
        lemma_orderly_by_ids(seen(d, v as nat), w.visible(), s.balloons, d.params);
        dv_laws::every_round_keeps_order(
            d@,
            s.balloons,
            s.towers,
            s.topo,
            d.params,
            s.round,
            draws,
        );
        lemma_orderly_by_ids(seen(e, v as nat), s.balloons, after.visible(), d.params);
    } else {
        lemma_orderly_by_ids(seen(d, v as nat), w.visible(), after.visible(), d.params);
    }
}

/// No tick loses anything: what is missing from the books of bundles stays as
/// it was, and so does what is missing from those of receipts where receipts
/// are sent back along the path.
pub proof fn no_tick_loses_anything(
    w: World,
    after: World,
    readings: Seq<Reading>,
    rows: Seq<Vec<Candidate>>,
    events: Seq<CommsEvent>,
)
    requires
        w.wf(),
        w.tickable(readings, rows),
        w.ticked(after, readings, rows, events),
        w.protocol is DvDtn,
        w.visible_count <= w.protocol->DvDtn_0@.nodes.len(),
    ensures
        after.protocol is DvDtn,
        missing(after).0 == missing(w).0,
        w.protocol->DvDtn_0.params.ack_policy == AckPolicy::SourceRouted ==> missing(after).1
            == missing(w).1,
{
    if sim::comms_on(w.tick_count + 1) {
        let d = w.protocol->DvDtn_0;
        let s = w.scene(readings, rows);
        let draws = lemma_round_taken(w, after, readings, rows, events);
        dv_laws::every_round_balances(
            d@,
            s.balloons,
            s.towers,
            s.topo,
            d.params,
            s.round,
            draws,
        );
    }
}

/// A world in which nothing more is originated drains: no tick makes anything
/// newer, and a comms round past the age limit leaves no bundle held and no
/// ack under way among the visible nodes.
pub proof fn a_quiet_world_drains(
    w: World,
    after: World,
    readings: Seq<Reading>,
    rows: Seq<Vec<Candidate>>,
    events: Seq<CommsEvent>,
    last: u64,
)
    requires
        w.wf(),
        w.tickable(readings, rows),
        w.ticked(after, readings, rows, events),
        w.protocol is DvDtn,
        w.visible_count <= w.protocol->DvDtn_0@.nodes.len(),
        bundle_order::dated_by(seen(w.protocol->DvDtn_0, w.visible_count as nat), last),
        bundle_order::none_due(
            seen(w.protocol->DvDtn_0, w.visible_count as nat),
            w.scene(readings, rows).round,
        ),
    ensures
        after.protocol is DvDtn,
        ({
            let nodes = seen(after.protocol->DvDtn_0, w.visible_count as nat);
            &&& bundle_order::dated_by(nodes, last)
            &&& bundle_order::same_plans(
                seen(w.protocol->DvDtn_0, w.visible_count as nat),
                nodes,
            )
            &&& sim::comms_on(w.tick_count + 1) && w.scene(readings, rows).round > last
                + w.protocol->DvDtn_0.params.bundle_max_age_rounds ==> bundle_order::all_empty(
                nodes,
            )
        }),
{
    if sim::comms_on(w.tick_count + 1) {
        let d = w.protocol->DvDtn_0;
        let s = w.scene(readings, rows);
        let draws = lemma_round_taken(w, after, readings, rows, events);
        dv_laws::a_quiet_fleet_drains(
            d@,
            s.balloons,
            s.towers,
            s.topo,
            d.params,
            s.round,
            draws,
            last,
        );
    }
}

/// A world without towers forgets: no tick makes news newer than what was
/// held, and a comms round past the age limit leaves no visible balloon that
/// believes in a route.
pub proof fn a_world_without_towers_forgets(
    w: World,
    after: World,
    readings: Seq<Reading>,
    rows: Seq<Vec<Candidate>>,
    events: Seq<CommsEvent>,
    t: u64,
)
    requires
        w.wf(),
        w.tickable(readings, rows),
        w.ticked(after, readings, rows, events),
        w.protocol is DvDtn,
        w.protocol->DvDtn_0.params.discovery == Discovery::Proactive,
        w.towers@.len() == 0,
        w.visible_count <= w.protocol->DvDtn_0@.nodes.len(),
        beacon_laws::no_news_after(seen(w.protocol->DvDtn_0, w.visible_count as nat), t),
    ensures
        after.towers@.len() == 0,
        after.protocol is DvDtn,
        beacon_laws::no_news_after(seen(after.protocol->DvDtn_0, w.visible_count as nat), t),
        sim::comms_on(w.tick_count + 1) && w.scene(readings, rows).round > t
            + w.protocol->DvDtn_0.params.belief_max_age_rounds ==> forall|i: int|
            0 <= i < w.visible_count ==> (#[trigger] after.balloons@[i]).believed_hops is None,
{
    if sim::comms_on(w.tick_count + 1) {
        let d = w.protocol->DvDtn_0;
        let e = after.protocol->DvDtn_0;
        let s = w.scene(readings, rows);
        let draws = lemma_round_taken(w, after, readings, rows, events);
        dv_laws::a_fleet_out_of_earshot_forgets(
            d@,
            s.balloons,
            s.towers,
            s.topo,
            d.params,
            s.round,
            draws,
            t,
        );
        lemma_same_ids(w, after, readings, rows, events);
        if s.round > t + d.params.belief_max_age_rounds {
            assert forall|i: int| 0 <= i < w.visible_count implies (
            #[trigger] after.balloons@[i]).believed_hops is None by {
                assert(seen(e, w.visible_count as nat)[i].belief is None);
                assert(after.protocol.view_of(i).route_hops is None);
            }
        }
    }
}

/// Every tick keeps within the copy budget: of no record are there ever more
/// copies among all nodes than a world that sprays allows.
pub proof fn every_tick_keeps_the_budget(
    w: World,
    after: World,
    readings: Seq<Reading>,
    rows: Seq<Vec<Candidate>>,
    events: Seq<CommsEvent>,
    origin_id: u32,
    seq: u64,
)
    requires
        w.wf(),
        w.tickable(readings, rows),
        w.ticked(after, readings, rows, events),
        w.protocol is Epidemic,
        spray_laws::distinct_ids(w.visible()),
        spray_laws::numbered(w.protocol->Epidemic_0.state().nodes, w.visible()),
        spray_laws::copies_out(w.protocol->Epidemic_0.state().nodes, origin_id, seq)
            <= w.protocol->Epidemic_0.params.copies,
    ensures
        after.protocol is Epidemic,
        after.protocol->Epidemic_0.params == w.protocol->Epidemic_0.params,
        spray_laws::distinct_ids(after.visible()),
        spray_laws::numbered(after.protocol->Epidemic_0.state().nodes, after.visible()),
        spray_laws::copies_out(after.protocol->Epidemic_0.state().nodes, origin_id, seq)
            <= after.protocol->Epidemic_0.params.copies,
{
    let v = w.visible_count as int;
    let d = w.protocol->Epidemic_0;
    let s = w.scene(readings, rows);
    lemma_same_ids(w, after, readings, rows, events);
    assert forall|i: int| 0 <= i < v implies (#[trigger] s.balloons[i]).id == w.visible()[i].id by {
        assert(w.flown(readings, rows)[i].id == w.balloons@[i].id);
    }
    assert forall|i: int| 0 <= i < v implies (#[trigger] after.visible()[i]).id
        == w.visible()[i].id by {
        assert(after.balloons@[i].id == w.balloons@[i].id);
    }
    lemma_numbered_by_ids(d.state().nodes, w.visible(), s.balloons);
    if sim::comms_on(w.tick_count + 1) {
        assert(w.protocol.stepped(after.protocol, s, events));
        let e = after.protocol->Epidemic_0;
        let (draws, picks) = choose|draws: Seq<u64>, picks: Seq<u64>|
            spray_round::chances_fit(d.state(), s.balloons, d.params, draws, picks)
                && e.outcome(events)
                == #[trigger] spray_round::spray_round(
                d.state(),
                s.balloons,
                s.topo,
                d.params,
                s.round,
                draws,
                picks,
            );
        assert(w.protocol.fits(s));
        spray_laws::the_copy_budget_is_conserved(
            d.state(),
            s.balloons,
            s.topo,
            d.params,
            s.round,
            draws,
            picks,
            origin_id,
            seq,
        );
        assert(e.outcome(events).nodes == e.state().nodes);
        lemma_numbered_by_ids(e.state().nodes, s.balloons, after.visible());
    } else {
        lemma_numbered_by_ids(d.state().nodes, w.visible(), after.visible());
    }
}

proof fn lemma_numbered_by_ids(nodes: Seq<EpiModel>, a: Seq<Balloon>, b: Seq<Balloon>)
    requires
        a.len() == b.len(),
        forall|i: int| 0 <= i < a.len() ==> (#[trigger] b[i]).id == a[i].id,
        spray_laws::numbered(nodes, a),
        spray_laws::distinct_ids(a),
    ensures
        spray_laws::numbered(nodes, b),
        spray_laws::distinct_ids(b),
{
    assert forall|i: int, q: u64|
        0 <= i < nodes.len() && i < b.len() && q >= nodes[i].bundle_seq implies #[trigger]
    spray_laws::copies_out(nodes, b[i].id, q) == 0 by {
        assert(spray_laws::copies_out(nodes, a[i].id, q) == 0);
    }
    assert forall|i: int, j: int| 0 <= i < j < b.len() implies (#[trigger] b[i]).id != (
    #[trigger] b[j]).id by {
        assert(a[i].id != a[j].id);
    }
}

/// A world whose first pool has just been spawned is in order.
pub proof fn a_first_pool_is_in_order(w: World)
    requires
        w.wf(),
        w.protocol is DvDtn,
        w.visible_count <= w.protocol->DvDtn_0@.nodes.len(),
        forall|i: int| 0 <= i < w.balloons@.len() ==> (#[trigger] w.balloons@[i]).id == i,
        forall|i: int|
            0 <= i < w.protocol->DvDtn_0@.nodes.len() ==> #[trigger] mesh::new_dv(
                w.protocol->DvDtn_0@.nodes[i],
                w.protocol->DvDtn_0.params,
            ),
    ensures
        in_order(w),
{
    let d = w.protocol->DvDtn_0;
    let nodes = seen(d, w.visible_count as nat);
    assert forall|i: int| 0 <= i < nodes.len() implies exists|wake: u64, first: u64| #[trigger]
        dv_dtn::spawned(wake, first) == #[trigger] nodes[i] by {
        assert(mesh::new_dv(d@.nodes[i], d.params));
        let (wake, first) = choose|wake: u64, first: u64|
            wake < d.params.beacon_interval_rounds && first < d.params.bundle_interval_rounds
                && d@.nodes[i] == #[trigger] dv_dtn::spawned(wake, first);
        assert(dv_dtn::spawned(wake, first) == nodes[i]);
    }
    dv_laws::a_fresh_fleet_is_in_order(nodes, w.visible(), d.params);
}

/// A world that sprays begins within its budget: where every node is as it was
/// spawned there are no copies of anything.
pub proof fn a_first_pool_is_within_budget(w: World, origin_id: u32, seq: u64)
    requires
        w.protocol is Epidemic,
        forall|i: int|
            0 <= i < w.protocol->Epidemic_0.state().nodes.len() ==> #[trigger] mesh::new_epi(
                w.protocol->Epidemic_0.state().nodes[i],
                w.protocol->Epidemic_0.params,
            ),
    ensures
        spray_laws::numbered(w.protocol->Epidemic_0.state().nodes, w.visible()),
        spray_laws::copies_out(w.protocol->Epidemic_0.state().nodes, origin_id, seq) == 0,
{
    let d = w.protocol->Epidemic_0;
    let nodes = d.state().nodes;
    assert forall|i: int| 0 <= i < nodes.len() implies (#[trigger] nodes[i]).held.len() == 0 by {
        assert(mesh::new_epi(nodes[i], d.params));
    }
    assert forall|o: u32, q: u64| #[trigger] spray_laws::copies_out(nodes, o, q) == 0 by {
        lemma_no_copies(nodes, o, q);
    }
}

proof fn lemma_no_copies(nodes: Seq<EpiModel>, o: u32, q: u64)
    requires
        forall|i: int| 0 <= i < nodes.len() ==> (#[trigger] nodes[i]).held.len() == 0,
    ensures
        spray_laws::copies_out(nodes, o, q) == 0,
    decreases nodes.len(),
{
    if nodes.len() > 0 {
        lemma_no_copies(nodes.drop_last(), o, q);
        assert(nodes[nodes.len() - 1].held.len() == 0);
    }
}

/// No tick counts a record twice: a world that sprays keeps its books in order,
/// and no more records have left circulation than were originated.
pub proof fn no_tick_counts_a_record_twice(
    w: World,
    after: World,
    readings: Seq<Reading>,
    rows: Seq<Vec<Candidate>>,
    events: Seq<CommsEvent>,
)
    requires
        w.wf(),
        w.tickable(readings, rows),
        w.ticked(after, readings, rows, events),
        w.protocol is Epidemic,
        spray_counts::by_place(w.visible()),
        spray_counts::books_in_order(w.protocol->Epidemic_0.state()),
    ensures
        after.protocol is Epidemic,
        spray_counts::by_place(after.visible()),
        spray_counts::books_in_order(after.protocol->Epidemic_0.state()),
        after.protocol->Epidemic_0.stats.delivered + after.protocol->Epidemic_0.stats.satellite
            <= after.protocol->Epidemic_0.stats.originated,
{
    let v = w.visible_count as int;
    let d = w.protocol->Epidemic_0;
    let s = w.scene(readings, rows);
    lemma_same_ids(w, after, readings, rows, events);
    assert forall|i: int| 0 <= i < v implies (#[trigger] s.balloons[i]).id == i by {
        assert(w.flown(readings, rows)[i].id == w.balloons@[i].id);
        assert(w.visible()[i].id == i);
    }
    assert forall|i: int| 0 <= i < v implies (#[trigger] after.visible()[i]).id == i by {
        assert(after.balloons@[i].id == w.balloons@[i].id);
        assert(w.visible()[i].id == i);
    }
    if sim::comms_on(w.tick_count + 1) {
        assert(w.protocol.stepped(after.protocol, s, events));
        let e = after.protocol->Epidemic_0;
        let (draws, picks) = choose|draws: Seq<u64>, picks: Seq<u64>|
            spray_round::chances_fit(d.state(), s.balloons, d.params, draws, picks)
                && e.outcome(events)
                == #[trigger] spray_round::spray_round(
                d.state(),
                s.balloons,
                s.topo,
                d.params,
                s.round,
                draws,
                picks,
            );
        assert(w.protocol.fits(s));
        spray_counts::no_more_leaves_than_was_made(
            d.state(),
            s.balloons,
            s.topo,
            d.params,
            s.round,
            draws,
            picks,
        );
        let o = e.outcome(events);
        assert(o.nodes == e.state().nodes && o.stats == e.state().stats);
    } else {
        spray_counts::books_bound_the_counters(d.state());
    }
}

/// A world that sprays begins with its books in order.
pub proof fn a_first_pool_has_its_books_in_order(w: World)
    requires
        w.protocol is Epidemic,
        w.protocol->Epidemic_0.stats.delivered + w.protocol->Epidemic_0.stats.satellite
            <= w.protocol->Epidemic_0.stats.originated,
        forall|i: int|
            0 <= i < w.protocol->Epidemic_0.state().nodes.len() ==> #[trigger] mesh::new_epi(
                w.protocol->Epidemic_0.state().nodes[i],
                w.protocol->Epidemic_0.params,
            ),
    ensures
        spray_counts::books_in_order(w.protocol->Epidemic_0.state()),
{
    let d = w.protocol->Epidemic_0;
    let nodes = d.state().nodes;
    assert forall|i: int| 0 <= i < nodes.len() implies (#[trigger] nodes[i]).held.len() == 0
        && nodes[i].settled.len() == 0 && nodes[i].bundle_seq == 0 by {
        assert(mesh::new_epi(nodes[i], d.params));
    }
    spray_counts::lemma_nothing_yet(nodes);
}

// ---------------------------------------------------------------------------
// What clients are told
// ---------------------------------------------------------------------------

/// How many ends of the first `k` links are balloons.
pub open spec fn balloon_ends(edges: Seq<Edge>, k: nat) -> nat
    decreases k,
{
    if k == 0 {
        0
    } else {
        balloon_ends(edges, (k - 1) as nat) + (if edges[k - 1].a is Balloon {
            1nat
        } else {
            0
        }) + (if edges[k - 1].b is Balloon {
            1nat
        } else {
            0
        })
    }
}

/// The ends of the first `k` links at the first `v` balloons.
spec fn ends_at_all(balloons: Seq<Balloon>, edges: Seq<Edge>, k: nat, v: nat) -> nat
    decreases v,
{
    if v == 0 {
        0
    } else {
        ends_at_all(balloons, edges, k, (v - 1) as nat) + sim::ends_at(
            edges,
            k,
            NodeKey::Balloon(balloons[v - 1].id),
        )
    }
}

proof fn lemma_one_more_link(balloons: Seq<Balloon>, edges: Seq<Edge>, k: nat, v: nat)
    requires
        0 < k <= edges.len(),
        v <= balloons.len(),
        forall|i: int| 0 <= i < balloons.len() ==> (#[trigger] balloons[i]).id == i,
    ensures
        ends_at_all(balloons, edges, k, v) == ends_at_all(balloons, edges, (k - 1) as nat, v) + (
        if edges[k - 1].a matches NodeKey::Balloon(x) && x < v {
            1nat
        } else {
            0
        }) + (if edges[k - 1].b matches NodeKey::Balloon(y) && y < v {
            1nat
        } else {
            0
        }),
    decreases v,
{
    if v > 0 {
        lemma_one_more_link(balloons, edges, k, (v - 1) as nat);
        assert(balloons[v - 1].id == v - 1);
    }
}

proof fn lemma_all_ends(balloons: Seq<Balloon>, edges: Seq<Edge>, k: nat, v: nat)
    requires
        k <= edges.len(),
        v <= balloons.len(),
        forall|i: int| 0 <= i < balloons.len() ==> (#[trigger] balloons[i]).id == i,
        forall|j: int| 0 <= j < edges.len() ==> mesh_adjacency::link_within(#[trigger] edges[j], v),
    ensures
        ends_at_all(balloons, edges, k, v) == balloon_ends(edges, k),
    decreases k,
{
    if k > 0 {
        lemma_all_ends(balloons, edges, (k - 1) as nat, v);
        lemma_one_more_link(balloons, edges, k, v);
        assert(mesh_adjacency::link_within(edges[k - 1], v));
    } else {
        lemma_no_links(balloons, edges, v);
    }
}

proof fn lemma_no_links(balloons: Seq<Balloon>, edges: Seq<Edge>, v: nat)
    ensures
        ends_at_all(balloons, edges, 0, v) == 0,
    decreases v,
{
    if v > 0 {
        lemma_no_links(balloons, edges, (v - 1) as nat);
    }
}

proof fn lemma_degrees(balloons: Seq<Balloon>, edges: Seq<Edge>, v: nat)
    ensures
        sim::degree_total(balloons, edges, v) == ends_at_all(balloons, edges, edges.len(), v),
    decreases v,
{
    if v > 0 {
        lemma_degrees(balloons, edges, (v - 1) as nat);
    }
}

/// The degrees of the visible balloons add up to the ends that links have at
/// balloons: a link between balloons counts twice, and one to a tower once.
pub proof fn degrees_add_up(balloons: Seq<Balloon>, edges: Seq<Edge>, v: nat)
    requires
        v <= balloons.len(),
        forall|i: int| 0 <= i < balloons.len() ==> (#[trigger] balloons[i]).id == i,
        forall|j: int| 0 <= j < edges.len() ==> mesh_adjacency::link_within(#[trigger] edges[j], v),
    ensures
        sim::degree_total(balloons, edges, v) == balloon_ends(edges, edges.len()),
{
    lemma_degrees(balloons, edges, v);
    lemma_all_ends(balloons, edges, edges.len(), v);
}

/// A comms round comes every so many ticks, and the links are looked at every so
/// many: on no tick in between.
pub proof fn rounds_come_at_intervals(t: int, d: int)
    requires
        0 <= t,
        0 < d,
    ensures
        sim::comms_on(t) ==> (sim::comms_on(t + d) <==> d % (config::COMMS_EVERY_N_TICKS as int)
            == 0),
        sim::links_on(t) ==> (sim::links_on(t + d) <==> d % (
        config::LINK_UPDATE_EVERY_N_TICKS as int) == 0),
        sim::comms_on(0) && sim::links_on(0),
{
}

/// Bundles among the first `k` nodes whose holder believes it has a route.
pub open spec fn held_with_a_route(nodes: Seq<NodeModel>, k: nat) -> nat
    decreases k,
{
    if k == 0 {
        0
    } else {
        held_with_a_route(nodes, (k - 1) as nat) + (if nodes[k - 1].belief is Some {
            nodes[k - 1].queue.len()
        } else {
            0
        })
    }
}

/// What is in flight is stranded or has a route, and not both.
pub proof fn the_stranded_have_no_route(nodes: Seq<NodeModel>, k: nat)
    ensures
        dv_dtn::held_back(nodes, k) + held_with_a_route(nodes, k) == bundle_round::queued(nodes, k),
    decreases k,
{
    if k > 0 {
        the_stranded_have_no_route(nodes, (k - 1) as nat);
    }
}

/// A tower that is taken down is gone, and no other is.
pub proof fn only_that_tower_goes(towers: Seq<Tower>, id: u32, t: Tower)
    ensures
        sim::without(towers, id).contains(t) <==> towers.contains(t) && t.id != id,
{
    broadcast use vstd::seq_lib::group_filter_ensures;

    let left = sim::without(towers, id);
    let stays = |t: Tower| t.id != id;
    assert(left == towers.filter(stays));
    if left.contains(t) {
        let x = left.index_of(t);
        assert(stays(left[x]));
        towers.lemma_filter_contains_rev(stays, t);
    }
    if towers.contains(t) && t.id != id {
        let x = towers.index_of(t);
        assert(stays(towers[x]));
        assert(towers.filter(stays).contains(towers[x]));
    }
}

} // verus!
