//! What a round of gossip gets done: who learns what, and what each balloon that
//! wakes comes to believe.
use vstd::prelude::*;

use crate::balloon::Balloon;
use crate::mesh_adjacency::Topology;

use super::beacon;
use super::beacon::RouteBelief;
use super::linkstate;
use super::linkstate::{Broadcast, Gossip, LsModel, LsaModel, Routed, StateModel};
use super::linkstate_laws;
use super::params::DvDtnParams;
use super::wake_laws;
use super::NodeModel;

verus! {

/// What a node has on its map, if it is not new.
pub open spec fn mapped_by(state: StateModel, i: int) -> LsModel {
    if i < state.nodes.len() {
        state.nodes[i]
    } else {
        LsModel { db: Map::empty(), seq: 0, to_relay: Seq::empty(), dirty: false }
    }
}

/// Whether a map has an observation of this balloon, this recent or more so.
pub open spec fn has_heard(n: LsModel, origin: u32, seq: u64) -> bool {
    n.db.contains_key(origin) && n.db[origin].seq >= seq
}

/// Whether no map lets go of what it has but for something newer, nor forgets
/// that it has changed.
spec fn wiser(a: Seq<LsModel>, b: Seq<LsModel>) -> bool {
    &&& a.len() == b.len()
    &&& forall|j: int, o: u32, q: u64|
        0 <= j < a.len() && has_heard(a[j], o, q) ==> #[trigger] has_heard(b[j], o, q)
    &&& forall|j: int| 0 <= j < a.len() && a[j].dirty ==> (#[trigger] b[j]).dirty
}

proof fn lemma_wiser_on(a: Seq<LsModel>, b: Seq<LsModel>, c: Seq<LsModel>)
    requires
        wiser(a, b),
        wiser(b, c),
    ensures
        wiser(a, c),
{
    assert forall|j: int, o: u32, q: u64|
        0 <= j < a.len() && has_heard(a[j], o, q) implies #[trigger] has_heard(c[j], o, q) by {
        assert(has_heard(b[j], o, q));
    }
    assert forall|j: int| 0 <= j < a.len() && a[j].dirty implies (#[trigger] c[j]).dirty by {
        assert(b[j].dirty);
    }
}

/// Whether balloon `j`'s own record is untouched.
spec fn own_kept(a: Seq<LsModel>, b: Seq<LsModel>) -> bool {
    forall|j: int|
        #![trigger b[j]]
        0 <= j < a.len() && j <= u32::MAX && a[j].db.contains_key(j as u32)
            ==> b[j].db.contains_key(j as u32) && b[j].db[j as u32] == a[j].db[j as u32]
}

proof fn lemma_record_heard(g: Gossip, nb: u32, rec: LsaModel)
    requires
        nb < g.state.nodes.len(),
    ensures
        ({
            let b = linkstate::record_heard(g, nb, rec).state.nodes;
            &&& wiser(g.state.nodes, b)
            &&& own_kept(g.state.nodes, b)
            &&& rec.origin != nb ==> has_heard(b[nb as int], rec.origin, rec.seq)
        }),
{
}

proof fn lemma_records_heard(g: Gossip, nb: u32, batch: Seq<LsaModel>, k: nat)
    requires
        nb < g.state.nodes.len(),
        k <= batch.len(),
    ensures
        ({
            let b = linkstate::records_heard(g, nb, batch, k).state.nodes;
            &&& wiser(g.state.nodes, b)
            &&& own_kept(g.state.nodes, b)
            &&& forall|x: int|
                0 <= x < k && (#[trigger] batch[x]).origin != nb ==> has_heard(
                    b[nb as int],
                    batch[x].origin,
                    batch[x].seq,
                )
        }),
    decreases k,
{
    if k > 0 {
        lemma_records_heard(g, nb, batch, (k - 1) as nat);
        let m = linkstate::records_heard(g, nb, batch, (k - 1) as nat);
        let b = linkstate::records_heard(g, nb, batch, k);
        lemma_record_heard(m, nb, batch[k - 1]);
        lemma_wiser_on(g.state.nodes, m.state.nodes, b.state.nodes);
        assert forall|x: int| 0 <= x < k && (#[trigger] batch[x]).origin != nb implies has_heard(
            b.state.nodes[nb as int],
            batch[x].origin,
            batch[x].seq,
        ) by {
            if x < k - 1 {
                assert(has_heard(m.state.nodes[nb as int], batch[x].origin, batch[x].seq));
            }
        }
        assert forall|j: int|
            #![trigger b.state.nodes[j]]
            0 <= j < g.state.nodes.len() && j <= u32::MAX && g.state.nodes[j].db.contains_key(
                j as u32,
            ) implies b.state.nodes[j].db.contains_key(j as u32) && b.state.nodes[j].db[j as u32]
            == g.state.nodes[j].db[j as u32] by {
            assert(m.state.nodes[j].db.contains_key(j as u32));
        }
    }
}

proof fn lemma_batch_heard(g: Gossip, fleet: Seq<Balloon>, b: Broadcast, nb: u32)
    ensures
        ({
            let after = linkstate::batch_heard(g, fleet, b, nb).state.nodes;
            &&& wiser(g.state.nodes, after)
            &&& own_kept(g.state.nodes, after)
            &&& nb < g.state.nodes.len() ==> forall|x: int|
                0 <= x < b.batch.len() && (#[trigger] b.batch[x]).origin != nb ==> has_heard(
                    after[nb as int],
                    b.batch[x].origin,
                    b.batch[x].seq,
                )
        }),
{
    if nb < g.state.nodes.len() {
        let told = Gossip {
            events: g.events.push(
                crate::protocol::CommsEvent {
                    kind: crate::protocol::EventKind::Gossip,
                    from: crate::link_detection::NodeKey::Balloon(fleet[b.from].id),
                    to: crate::link_detection::NodeKey::Balloon(nb),
                    payload: (b.batch.len() as usize) as u32,
                    tower_id: None,
                    hop_count: None,
                    epoch: Some(b.batch[0].seq),
                },
            ),
            ..g
        };
        lemma_records_heard(told, nb, b.batch, b.batch.len());
    }
}

proof fn lemma_batch_spread(
    g: Gossip,
    fleet: Seq<Balloon>,
    topo: Topology,
    b: Broadcast,
    s: nat,
    k: nat,
)
    requires
        s <= k <= topo.neighbors_of(b.from).len(),
    ensures
        ({
            let before = linkstate::batch_spread(g, fleet, topo, b, s).state.nodes;
            let after = linkstate::batch_spread(g, fleet, topo, b, k).state.nodes;
            wiser(before, after) && own_kept(before, after) && after.len() == g.state.nodes.len()
        }),
    decreases k,
{
    if k > 0 {
        let m = linkstate::batch_spread(g, fleet, topo, b, (k - 1) as nat);
        let after = linkstate::batch_spread(g, fleet, topo, b, k).state.nodes;
        lemma_batch_heard(m, fleet, b, topo.neighbors_of(b.from)[k - 1]);
        if s < k {
            lemma_batch_spread(g, fleet, topo, b, s, (k - 1) as nat);
            let before = linkstate::batch_spread(g, fleet, topo, b, s).state.nodes;
            lemma_wiser_on(before, m.state.nodes, after);
            lemma_own_kept_on(before, m.state.nodes, after);
        } else {
            lemma_batch_spread(g, fleet, topo, b, (k - 1) as nat, (k - 1) as nat);
        }
    }
}

proof fn lemma_own_kept_on(a: Seq<LsModel>, b: Seq<LsModel>, c: Seq<LsModel>)
    requires
        a.len() == b.len(),
        own_kept(a, b),
        own_kept(b, c),
    ensures
        own_kept(a, c),
{
    assert forall|j: int|
        #![trigger c[j]]
        0 <= j < a.len() && j <= u32::MAX && a[j].db.contains_key(
            j as u32,
        ) implies c[j].db.contains_key(j as u32) && c[j].db[j as u32] == a[j].db[j as u32] by {
        assert(b[j].db.contains_key(j as u32));
    }
}

proof fn lemma_all_spread(
    g: Gossip,
    fleet: Seq<Balloon>,
    topo: Topology,
    out: Seq<Broadcast>,
    s: nat,
    k: nat,
)
    requires
        s <= k <= out.len(),
    ensures
        ({
            let before = linkstate::all_spread(g, fleet, topo, out, s).state.nodes;
            let after = linkstate::all_spread(g, fleet, topo, out, k).state.nodes;
            wiser(before, after) && own_kept(before, after) && after.len() == g.state.nodes.len()
        }),
    decreases k,
{
    if k > 0 {
        let m = linkstate::all_spread(g, fleet, topo, out, (k - 1) as nat);
        let after = linkstate::all_spread(g, fleet, topo, out, k).state.nodes;
        let b = out[k - 1];
        lemma_batch_spread(m, fleet, topo, b, 0, topo.neighbors_of(b.from).len());
        if s < k {
            lemma_all_spread(g, fleet, topo, out, s, (k - 1) as nat);
            let before = linkstate::all_spread(g, fleet, topo, out, s).state.nodes;
            lemma_wiser_on(before, m.state.nodes, after);
            lemma_own_kept_on(before, m.state.nodes, after);
        } else {
            lemma_all_spread(g, fleet, topo, out, (k - 1) as nat, (k - 1) as nat);
        }
    }
}

/// Whoever hears a transmission has heard what is in it.
proof fn lemma_transmission_heard(
    g: Gossip,
    fleet: Seq<Balloon>,
    topo: Topology,
    out: Seq<Broadcast>,
    y: int,
    nb: u32,
    x: int,
)
    requires
        0 <= y < out.len(),
        topo.neighbors_of(out[y].from).contains(nb),
        nb < g.state.nodes.len(),
        0 <= x < out[y].batch.len(),
        out[y].batch[x].origin != nb,
    ensures
        has_heard(
            linkstate::all_spread(g, fleet, topo, out, out.len()).state.nodes[nb as int],
            out[y].batch[x].origin,
            out[y].batch[x].seq,
        ),
{
    let b = out[y];
    let rec = b.batch[x];
    let list = topo.neighbors_of(b.from);
    let z = list.index_of(nb);
    let m = linkstate::all_spread(g, fleet, topo, out, y as nat);
    lemma_all_spread(g, fleet, topo, out, 0, y as nat);
    let p = linkstate::batch_spread(m, fleet, topo, b, z as nat);
    let q = linkstate::batch_spread(m, fleet, topo, b, (z + 1) as nat);
    lemma_batch_spread(m, fleet, topo, b, 0, z as nat);
    lemma_batch_heard(p, fleet, b, nb);
    assert(has_heard(q.state.nodes[nb as int], b.batch[x].origin, rec.seq));
    lemma_batch_spread(m, fleet, topo, b, (z + 1) as nat, list.len());
    let n = linkstate::all_spread(g, fleet, topo, out, (y + 1) as nat);
    assert(has_heard(n.state.nodes[nb as int], rec.origin, rec.seq));
    lemma_all_spread(g, fleet, topo, out, (y + 1) as nat, out.len());
}

// ---------------------------------------------------------------------------
// What is sent
// ---------------------------------------------------------------------------

/// What is already in a batch stays; and of what waits, as much follows as there
/// is room for.
proof fn lemma_filled(
    db: Map<u32, LsaModel>,
    id: u32,
    batch: Seq<LsaModel>,
    waiting: Seq<u32>,
    limit: nat,
)
    ensures
        ({
            let full = linkstate::filled(db, id, batch, waiting, limit).0;
            &&& batch.is_prefix_of(full)
            &&& forall|x: int|
                0 <= x < waiting.len() && batch.len() + x < limit && #[trigger] waiting[x] != id
                    && db.contains_key(waiting[x]) ==> full.contains(db[waiting[x]])
        }),
    decreases waiting.len(),
{
    let full = linkstate::filled(db, id, batch, waiting, limit).0;
    if batch.len() < limit && waiting.len() > 0 {
        let rest = waiting.subrange(1, waiting.len() as int);
        let next = if waiting[0] != id && db.contains_key(waiting[0]) {
            batch.push(db[waiting[0]])
        } else {
            batch
        };
        lemma_filled(db, id, next, rest, limit);
        assert(next.is_prefix_of(full));
        assert(batch =~= full.subrange(0, batch.len() as int)) by {
            assert forall|y: int| 0 <= y < batch.len() implies batch[y] == full[y] by {
                assert(next[y] == full[y]);
            }
        }
        assert forall|x: int|
            0 <= x < waiting.len() && batch.len() + x < limit && #[trigger] waiting[x] != id
                && db.contains_key(waiting[x]) implies full.contains(db[waiting[x]]) by {
            if x == 0 {
                assert(full[batch.len() as int] == next[batch.len() as int]);
            } else {
                assert(rest[x - 1] == waiting[x]);
            }
        }
    }
}

proof fn lemma_sendings_keep(
    nodes: Seq<LsModel>,
    fleet: Seq<Balloon>,
    topo: Topology,
    params: DvDtnParams,
    round: u64,
    awake: Seq<usize>,
    s: nat,
    k: nat,
)
    requires
        s <= k <= awake.len(),
        forall|a: int| 0 <= a < awake.len() ==> (#[trigger] awake[a]) < nodes.len(),
    ensures
        ({
            let a = linkstate::sendings(nodes, fleet, topo, params, round, awake, s);
            let b = linkstate::sendings(nodes, fleet, topo, params, round, awake, k);
            &&& b.nodes.len() == nodes.len()
            &&& b.out.len() == k
            &&& a.out.is_prefix_of(b.out)
            &&& forall|i: int|
                0 <= i < nodes.len() && (forall|x: int| s <= x < k ==> #[trigger] awake[x] != i)
                    ==> #[trigger] b.nodes[i] == a.nodes[i]
        }),
    decreases k,
{
    if k > 0 {
        assert(awake[k - 1] < nodes.len());
        if s < k {
            lemma_sendings_keep(nodes, fleet, topo, params, round, awake, s, (k - 1) as nat);
            let a = linkstate::sendings(nodes, fleet, topo, params, round, awake, s);
            let c = linkstate::sendings(nodes, fleet, topo, params, round, awake, (k - 1) as nat);
            let b = linkstate::sendings(nodes, fleet, topo, params, round, awake, k);
            assert forall|i: int|
                0 <= i < nodes.len() && (forall|x: int|
                    s <= x < k ==> #[trigger] awake[x] != i) implies #[trigger] b.nodes[i]
                == a.nodes[i] by {
                assert(awake[k - 1] != i);
                assert(c.nodes[i] == a.nodes[i]);
            }
        } else {
            lemma_sendings_keep(
                nodes,
                fleet,
                topo,
                params,
                round,
                awake,
                (k - 1) as nat,
                (k - 1) as nat,
            );
        }
    }
}

/// Whether an observation is still current.
pub open spec fn current(rec: LsaModel, params: DvDtnParams, round: u64) -> bool {
    round <= rec.emitted_at_round + params.belief_max_age_rounds
}

/// What a map holds once what is too old is gone, and what its balloon sends.
proof fn lemma_sender(
    nodes: Seq<NodeModel>,
    state: StateModel,
    fleet: Seq<Balloon>,
    topo: Topology,
    params: DvDtnParams,
    round: u64,
    i: int,
) -> (y: int)
    requires
        0 <= i < nodes.len() <= usize::MAX,
        round >= nodes[i].next_beacon_round,
        mapped_by(state, i).seq < u64::MAX,
    ensures
        ({
            let kept = linkstate::fitted(state.nodes, nodes.len());
            let fresh = Seq::new(
                kept.len(),
                |i: int| linkstate::aged(kept[i], round, params.belief_max_age_rounds),
            );
            let awake = beacon::awake_of(nodes, nodes.len(), round);
            let s = linkstate::sendings(fresh, fleet, topo, params, round, awake, awake.len());
            let n = mapped_by(state, i);
            let own = LsaModel {
                origin: fleet[i].id,
                seq: (n.seq + 1) as u64,
                emitted_at_round: round,
                neighbors: topo.neighbors_of(i),
                tower: topo.tower_of(i),
            };
            &&& s.nodes.len() == nodes.len()
            &&& 0 <= y < s.out.len()
            &&& s.out[y].from == i
            &&& s.out[y].batch.len() > 0 && s.out[y].batch[0] == own
            &&& s.nodes[i].db.contains_key(fleet[i].id) && s.nodes[i].db[fleet[i].id] == own
            &&& s.nodes[i].dirty
            &&& forall|x: int|
                0 <= x < n.to_relay.len() && x + 1 < params.lsa_per_transmission
                    && #[trigger] n.to_relay[x] != fleet[i].id && n.db.contains_key(n.to_relay[x])
                    && current(n.db[n.to_relay[x]], params, round) ==> s.out[y].batch.contains(
                    n.db[n.to_relay[x]],
                )
        }),
{
    let kept = linkstate::fitted(state.nodes, nodes.len());
    let fresh = Seq::new(
        kept.len(),
        |i: int| linkstate::aged(kept[i], round, params.belief_max_age_rounds),
    );
    let awake = beacon::awake_of(nodes, nodes.len(), round);
    wake_laws::all_who_are_due_wake(nodes, nodes.len(), round);
    let y = awake.index_of(i as usize);
    assert(awake[y] == i);
    let before = linkstate::sendings(fresh, fleet, topo, params, round, awake, y as nat);
    let after = linkstate::sendings(fresh, fleet, topo, params, round, awake, (y + 1) as nat);
    let s = linkstate::sendings(fresh, fleet, topo, params, round, awake, awake.len());
    lemma_sendings_keep(fresh, fleet, topo, params, round, awake, 0, y as nat);
    lemma_sendings_keep(fresh, fleet, topo, params, round, awake, (y + 1) as nat, awake.len());
    assert forall|x: int| 0 <= x < y implies #[trigger] awake[x] != i by {
        assert(awake[x] < awake[y]);
    }
    assert forall|x: int| y + 1 <= x < awake.len() implies #[trigger] awake[x] != i by {
        assert(awake[y] < awake[x]);
    }
    assert(before.nodes[i] == fresh[i]);
    assert(s.nodes[i] == after.nodes[i]);
    assert(s.out[y] == after.out[y]);
    let n = mapped_by(state, i);
    assert(kept[i] == n);
    let id = fleet[i].id;
    let own = linkstate::own_record(fresh[i], id, i, topo, round);
    let db = fresh[i].db.insert(id, own);
    lemma_filled(db, id, seq![own], n.to_relay, linkstate::batch_limit(params));
    let full = linkstate::filled(db, id, seq![own], n.to_relay, linkstate::batch_limit(params)).0;
    assert(s.out[y].batch == full);
    assert(full[0] == seq![own][0]);
    assert forall|x: int|
        0 <= x < n.to_relay.len() && x + 1 < params.lsa_per_transmission
            && #[trigger] n.to_relay[x] != id && n.db.contains_key(n.to_relay[x]) && current(
            n.db[n.to_relay[x]],
            params,
            round,
        ) implies full.contains(n.db[n.to_relay[x]]) by {
        assert(db.contains_key(n.to_relay[x]) && db[n.to_relay[x]] == n.db[n.to_relay[x]]);
    }
    y
}

proof fn lemma_rerouted(
    r: Routed,
    fleet: Seq<Balloon>,
    params: DvDtnParams,
    awake: Seq<usize>,
    k: nat,
    i: int,
)
    requires
        k <= awake.len(),
        r.nodes.len() == r.maps.len(),
        0 <= i < r.maps.len(),
        forall|a: int| 0 <= a < awake.len() ==> (#[trigger] awake[a]) < r.maps.len(),
        forall|a: int, b: int|
            0 <= a < b < awake.len() ==> (#[trigger] awake[a]) < (#[trigger] awake[b]),
        forall|a: int| 0 <= a < awake.len() && #[trigger] awake[a] == i ==> r.maps[i].dirty,
    ensures
        ({
            let after = linkstate::rerouted(r, fleet, params, awake, k);
            &&& after.nodes.len() == r.nodes.len()
            &&& after.maps.len() == r.maps.len()
            &&& after.maps[i].db == r.maps[i].db
            &&& (exists|a: int| 0 <= a < k && #[trigger] awake[a] == i) ==> after.nodes[i].belief
                == linkstate::route(r.maps[i].db, fleet[i].id, params.beacon_max_hops)
            &&& !(exists|a: int| 0 <= a < k && #[trigger] awake[a] == i) ==> after.nodes[i].belief
                == r.nodes[i].belief && after.maps[i] == r.maps[i]
        }),
    decreases k,
{
    if k > 0 {
        lemma_rerouted(r, fleet, params, awake, (k - 1) as nat, i);
        assert(awake[k - 1] < r.maps.len());
        let before = linkstate::rerouted(r, fleet, params, awake, (k - 1) as nat);
        let after = linkstate::rerouted(r, fleet, params, awake, k);
        if awake[k - 1] == i {
            assert forall|a: int| 0 <= a < k - 1 implies #[trigger] awake[a] != i by {
                assert(awake[a] < awake[k - 1]);
            }
            assert(before.maps[i].dirty);
        } else {
            if exists|a: int| 0 <= a < k && #[trigger] awake[a] == i {
                let a = choose|a: int| 0 <= a < k && #[trigger] awake[a] == i;
                assert(a < k - 1);
            }
        }
    }
}

// ---------------------------------------------------------------------------
// The laws
// ---------------------------------------------------------------------------

/// Whether a trail leads from a balloon, over what each balloon along it was seen
/// to hear, to one that hears a tower.
pub open spec fn a_way(db: Map<u32, LsaModel>, me: u32, trail: Seq<u32>) -> bool {
    &&& trail.len() > 0
    &&& trail[0] == me
    &&& forall|i: int|
        0 <= i < trail.len() - 1 ==> db.contains_key(#[trigger] trail[i])
            && db[trail[i]].neighbors.contains(trail[i + 1])
    &&& db.contains_key(trail.last()) && db[trail.last()].tower is Some
}

/// Whether a belief is the shortest way that a map shows within so many hops to
/// the last balloon, and is none only if the map shows none: it takes as many
/// hops as the trail has balloons, begins with the first step, ends at the tower
/// that the last balloon hears, and is dated by the oldest observation on it.
pub open spec fn shortest_on_map(
    belief: Option<RouteBelief>,
    db: Map<u32, LsaModel>,
    me: u32,
    max_hops: u32,
) -> bool {
    let far = if max_hops < 1 {
        1int
    } else {
        max_hops as int
    };
    &&& belief matches Some(b) ==> exists|trail: Seq<u32>|
        {
            &&& #[trigger] a_way(db, me, trail)
            &&& trail.len() <= far + 1
            &&& b.hop_count == (if trail.len() > u32::MAX {
                u32::MAX as int
            } else {
                trail.len() as int
            })
            &&& b.next_hop == (if trail.len() > 1 {
                Some(trail[1])
            } else {
                None
            })
            &&& db[trail.last()].tower == Some(b.tower_id)
            &&& b.epoch == db[trail.last()].seq
            &&& forall|i: int|
                0 <= i < trail.len() ==> b.emitted_at_round <= db[
                #[trigger] trail[i]].emitted_at_round
            &&& exists|i: int|
                0 <= i < trail.len() && b.emitted_at_round == db[
                #[trigger] trail[i]].emitted_at_round
        }
    &&& forall|trail: Seq<u32>|
        #[trigger] a_way(db, me, trail) && trail.len() <= far + 1 ==> (belief matches Some(b)
            && b.hop_count <= trail.len())
}

proof fn lemma_stalest_is_one(db: Map<u32, LsaModel>, trail: Seq<u32>)
    requires
        trail.len() > 0,
    ensures
        exists|i: int|
            0 <= i < trail.len() && linkstate::stalest(db, trail) == db[
            #[trigger] trail[i]].emitted_at_round,
    decreases trail.len(),
{
    if trail.len() <= 1 {
        assert(db[trail[0]].emitted_at_round == linkstate::stalest(db, trail));
    } else {
        let rest = trail.drop_last();
        lemma_stalest_is_one(db, rest);
        let i = choose|i: int|
            0 <= i < rest.len() && linkstate::stalest(db, rest) == db[
            #[trigger] rest[i]].emitted_at_round;
        assert(trail[i] == rest[i]);
        assert(trail[trail.len() - 1] == trail.last());
    }
}

/// The route that a search finds is the shortest on the map, and it finds one
/// wherever there is one.
pub proof fn a_search_finds_the_shortest_way(db: Map<u32, LsaModel>, me: u32, max_hops: u32)
    ensures
        shortest_on_map(linkstate::route(db, me, max_hops), db, me, max_hops),
{
    let belief = linkstate::route(db, me, max_hops);
    if belief is Some {
        let trail = linkstate_laws::a_computed_route_rests_on_observations(db, me, max_hops);
        assert forall|i: int| 0 <= i < trail.len() - 1 implies db.contains_key(#[trigger] trail[i])
            && db[trail[i]].neighbors.contains(trail[i + 1]) by {}
        assert(a_way(db, me, trail));
        lemma_stalest_is_one(db, trail);
    }
    assert forall|trail: Seq<u32>|
        #[trigger] a_way(db, me, trail) && trail.len() <= linkstate::reach(max_hops) + 1 implies (
    belief matches Some(b) && b.hop_count <= trail.len()) by {
        assert(linkstate_laws::way_down(db, me, trail));
        linkstate_laws::no_nearer_way_is_overlooked(db, me, max_hops, trail);
    }
}

/// A balloon that wakes believes what its map shows at the end of the round, no
/// more and no less: the shortest way, or none if there is none. The map has what
/// it hears now, so the way begins with a balloon that it hears, and with a tower
/// in range it is one hop long. A balloon that sleeps on believes what it did.
pub proof fn belief_follows_the_map(
    nodes: Seq<NodeModel>,
    state: StateModel,
    fleet: Seq<Balloon>,
    topo: Topology,
    params: DvDtnParams,
    round: u64,
    draws: Seq<u64>,
    i: int,
)
    requires
        0 <= i < nodes.len() <= usize::MAX,
        mapped_by(state, i).seq < u64::MAX,
    ensures
        ({
            let after = linkstate::gossip_round(nodes, state, fleet, topo, params, round, draws);
            let map = after.state.nodes[i].db;
            let me = fleet[i].id;
            &&& round < nodes[i].next_beacon_round ==> after.nodes[i].belief == nodes[i].belief
            &&& round >= nodes[i].next_beacon_round ==> {
                &&& after.nodes[i].belief == linkstate::route(map, me, params.beacon_max_hops)
                &&& shortest_on_map(after.nodes[i].belief, map, me, params.beacon_max_hops)
                &&& map.contains_key(me)
                &&& me == i ==> {
                    &&& map[me] == (LsaModel {
                        origin: me,
                        seq: (mapped_by(state, i).seq + 1) as u64,
                        emitted_at_round: round,
                        neighbors: topo.neighbors_of(i),
                        tower: topo.tower_of(i),
                    })
                    &&& after.nodes[i].belief matches Some(b) ==> (match b.next_hop {
                        Some(next) => topo.neighbors_of(i).contains(next),
                        None => topo.tower_of(i) == Some(b.tower_id),
                    })
                    &&& topo.tower_of(i) is Some ==> (after.nodes[i].belief matches Some(b)
                        && b.hop_count <= 1)
                }
            }
        }),
{
    let kept = linkstate::fitted(state.nodes, nodes.len());
    let fresh = Seq::new(
        kept.len(),
        |i: int| linkstate::aged(kept[i], round, params.belief_max_age_rounds),
    );
    let awake = beacon::awake_of(nodes, nodes.len(), round);
    wake_laws::all_who_are_due_wake(nodes, nodes.len(), round);
    let s = linkstate::sendings(fresh, fleet, topo, params, round, awake, awake.len());
    lemma_sendings_keep(fresh, fleet, topo, params, round, awake, 0, awake.len());
    let g0 = Gossip { state: StateModel { nodes: s.nodes, ..state }, events: Seq::empty() };
    lemma_all_spread(g0, fleet, topo, s.out, 0, s.out.len());
    let g = linkstate::gossiped(nodes, state, fleet, topo, params, round);
    let woken = Seq::new(
        nodes.len(),
        |i: int| beacon::rescheduled(nodes[i], params, round, draws[i]),
    );
    let r = Routed { nodes: woken, maps: g.state.nodes };
    let me = fleet[i].id;
    if round >= nodes[i].next_beacon_round {
        let y = lemma_sender(nodes, state, fleet, topo, params, round, i);
        let own = s.nodes[i].db[me];
        assert(has_heard(s.nodes[i], me, own.seq));
        assert(has_heard(g.state.nodes[i], me, own.seq));
        assert(s.nodes[i].dirty);
        assert(g.state.nodes[i].dirty);
        let x = awake.index_of(i as usize);
        assert(awake[x] == i);
    } else {
        assert forall|a: int| 0 <= a < awake.len() implies #[trigger] awake[a] != i by {
            assert(round >= nodes[awake[a] as int].next_beacon_round);
        }
    }
    lemma_rerouted(r, fleet, params, awake, awake.len(), i);
    let after = linkstate::gossip_round(nodes, state, fleet, topo, params, round, draws);
    let map = after.state.nodes[i].db;
    a_search_finds_the_shortest_way(map, me, params.beacon_max_hops);
    if round >= nodes[i].next_beacon_round && me == i {
        assert(g.state.nodes[i].db[i as u32] == s.nodes[i].db[i as u32]);
        assert(map[me].neighbors == topo.neighbors_of(i));
        if let Some(b) = after.nodes[i].belief {
            let trail = choose|trail: Seq<u32>|
                {
                    &&& #[trigger] a_way(map, me, trail)
                    &&& b.next_hop == (if trail.len() > 1 {
                        Some(trail[1])
                    } else {
                        None
                    })
                    &&& map[trail.last()].tower == Some(b.tower_id)
                };
            if trail.len() > 1 {
                assert(map[trail[0]].neighbors.contains(trail[0int + 1]));
            }
        }
        if topo.tower_of(i) is Some {
            let trail = seq![me];
            assert(a_way(map, me, trail));
        }
    }
}

/// Gossip goes round: every balloon in earshot of one that wakes has heard, by
/// the end of the round, what that one hears now, and as much of what it had
/// waiting to be passed on as one transmission carries.
pub proof fn gossip_goes_round(
    nodes: Seq<NodeModel>,
    state: StateModel,
    fleet: Seq<Balloon>,
    topo: Topology,
    params: DvDtnParams,
    round: u64,
    draws: Seq<u64>,
    i: int,
    nb: u32,
)
    requires
        0 <= i < nodes.len() <= usize::MAX,
        mapped_by(state, i).seq < u64::MAX,
        round >= nodes[i].next_beacon_round,
        topo.neighbors_of(i).contains(nb),
        nb < nodes.len(),
    ensures
        ({
            let after = linkstate::gossip_round(
                nodes,
                state,
                fleet,
                topo,
                params,
                round,
                draws,
            ).state.nodes[nb as int];
            let n = mapped_by(state, i);
            &&& fleet[i].id != nb ==> has_heard(after, fleet[i].id, (n.seq + 1) as u64)
            &&& forall|x: int|
                0 <= x < n.to_relay.len() && x + 1 < params.lsa_per_transmission
                    && #[trigger] n.to_relay[x] != fleet[i].id && n.db.contains_key(n.to_relay[x])
                    && current(n.db[n.to_relay[x]], params, round)
                    && n.db[n.to_relay[x]].origin != nb ==> has_heard(
                    after,
                    n.db[n.to_relay[x]].origin,
                    n.db[n.to_relay[x]].seq,
                )
        }),
{
    let kept = linkstate::fitted(state.nodes, nodes.len());
    let fresh = Seq::new(
        kept.len(),
        |i: int| linkstate::aged(kept[i], round, params.belief_max_age_rounds),
    );
    let awake = beacon::awake_of(nodes, nodes.len(), round);
    wake_laws::all_who_are_due_wake(nodes, nodes.len(), round);
    let s = linkstate::sendings(fresh, fleet, topo, params, round, awake, awake.len());
    let y = lemma_sender(nodes, state, fleet, topo, params, round, i);
    let g0 = Gossip { state: StateModel { nodes: s.nodes, ..state }, events: Seq::empty() };
    lemma_all_spread(g0, fleet, topo, s.out, 0, s.out.len());
    let g = linkstate::gossiped(nodes, state, fleet, topo, params, round);
    let woken = Seq::new(
        nodes.len(),
        |i: int| beacon::rescheduled(nodes[i], params, round, draws[i]),
    );
    let at = nb as int;
    let n = mapped_by(state, i);
    lemma_kept_map(nodes, state, fleet, topo, params, round, draws, at);
    let after = linkstate::gossip_round(nodes, state, fleet, topo, params, round, draws);
    if fleet[i].id != nb {
        lemma_transmission_heard(g0, fleet, topo, s.out, y, nb, 0);
    }
    assert forall|x: int|
        0 <= x < n.to_relay.len() && x + 1 < params.lsa_per_transmission
            && #[trigger] n.to_relay[x] != fleet[i].id && n.db.contains_key(n.to_relay[x])
            && current(n.db[n.to_relay[x]], params, round) && n.db[n.to_relay[x]].origin
            != nb implies has_heard(
        after.state.nodes[at],
        n.db[n.to_relay[x]].origin,
        n.db[n.to_relay[x]].seq,
    ) by {
        let rec = n.db[n.to_relay[x]];
        let z = s.out[y].batch.index_of(rec);
        assert(s.out[y].batch[z] == rec);
        lemma_transmission_heard(g0, fleet, topo, s.out, y, nb, z);
    }
}

/// Working out routes leaves the maps alone.
proof fn lemma_kept_map(
    nodes: Seq<NodeModel>,
    state: StateModel,
    fleet: Seq<Balloon>,
    topo: Topology,
    params: DvDtnParams,
    round: u64,
    draws: Seq<u64>,
    j: int,
)
    requires
        0 <= j < nodes.len() <= usize::MAX,
    ensures
        linkstate::gossip_round(nodes, state, fleet, topo, params, round, draws).state.nodes.len()
            == nodes.len(),
        linkstate::gossip_round(nodes, state, fleet, topo, params, round, draws).state.nodes[j].db
            == linkstate::gossiped(nodes, state, fleet, topo, params, round).state.nodes[j].db,
{
    let kept = linkstate::fitted(state.nodes, nodes.len());
    let fresh = Seq::new(
        kept.len(),
        |i: int| linkstate::aged(kept[i], round, params.belief_max_age_rounds),
    );
    let awake = beacon::awake_of(nodes, nodes.len(), round);
    wake_laws::all_who_are_due_wake(nodes, nodes.len(), round);
    let s = linkstate::sendings(fresh, fleet, topo, params, round, awake, awake.len());
    lemma_sendings_keep(fresh, fleet, topo, params, round, awake, 0, awake.len());
    let g0 = Gossip { state: StateModel { nodes: s.nodes, ..state }, events: Seq::empty() };
    lemma_all_spread(g0, fleet, topo, s.out, 0, s.out.len());
    let g = linkstate::gossiped(nodes, state, fleet, topo, params, round);
    let woken = Seq::new(
        nodes.len(),
        |i: int| beacon::rescheduled(nodes[i], params, round, draws[i]),
    );
    lemma_maps_kept(Routed { nodes: woken, maps: g.state.nodes }, fleet, params, awake, awake.len());
}

proof fn lemma_maps_kept(
    r: Routed,
    fleet: Seq<Balloon>,
    params: DvDtnParams,
    awake: Seq<usize>,
    k: nat,
)
    requires
        k <= awake.len(),
        forall|a: int| 0 <= a < awake.len() ==> (#[trigger] awake[a]) < r.maps.len(),
    ensures
        linkstate::rerouted(r, fleet, params, awake, k).maps.len() == r.maps.len(),
        forall|j: int|
            0 <= j < r.maps.len() ==> (#[trigger] linkstate::rerouted(
                r,
                fleet,
                params,
                awake,
                k,
            ).maps[j]).db == r.maps[j].db,
    decreases k,
{
    if k > 0 {
        lemma_maps_kept(r, fleet, params, awake, (k - 1) as nat);
        assert(awake[k - 1] < r.maps.len());
    }
}

proof fn lemma_sendings_forget_nothing(
    nodes: Seq<LsModel>,
    fleet: Seq<Balloon>,
    topo: Topology,
    params: DvDtnParams,
    round: u64,
    awake: Seq<usize>,
    k: nat,
    j: int,
    o: u32,
    q: u64,
)
    requires
        k <= awake.len(),
        forall|a: int| 0 <= a < awake.len() ==> (#[trigger] awake[a]) < nodes.len(),
        0 <= j < nodes.len(),
        o != fleet[j].id,
        has_heard(nodes[j], o, q),
    ensures
        linkstate::sendings(nodes, fleet, topo, params, round, awake, k).nodes.len()
            == nodes.len(),
        has_heard(
            linkstate::sendings(nodes, fleet, topo, params, round, awake, k).nodes[j],
            o,
            q,
        ),
    decreases k,
{
    if k > 0 {
        lemma_sendings_forget_nothing(
            nodes,
            fleet,
            topo,
            params,
            round,
            awake,
            (k - 1) as nat,
            j,
            o,
            q,
        );
        assert(awake[k - 1] < nodes.len());
    }
}

/// Nothing current is forgotten: an observation of another balloon stays on the
/// map for as long as it is current, unless a newer one of the same balloon takes
/// its place.
pub proof fn nothing_current_is_forgotten(
    nodes: Seq<NodeModel>,
    state: StateModel,
    fleet: Seq<Balloon>,
    topo: Topology,
    params: DvDtnParams,
    round: u64,
    draws: Seq<u64>,
    j: int,
    o: u32,
)
    requires
        0 <= j < nodes.len() <= usize::MAX,
        o != fleet[j].id,
        mapped_by(state, j).db.contains_key(o),
        current(mapped_by(state, j).db[o], params, round),
    ensures
        has_heard(
            linkstate::gossip_round(
                nodes,
                state,
                fleet,
                topo,
                params,
                round,
                draws,
            ).state.nodes[j],
            o,
            mapped_by(state, j).db[o].seq,
        ),
{
    let kept = linkstate::fitted(state.nodes, nodes.len());
    let fresh = Seq::new(
        kept.len(),
        |i: int| linkstate::aged(kept[i], round, params.belief_max_age_rounds),
    );
    let awake = beacon::awake_of(nodes, nodes.len(), round);
    wake_laws::all_who_are_due_wake(nodes, nodes.len(), round);
    let q = mapped_by(state, j).db[o].seq;
    assert(kept[j] == mapped_by(state, j));
    assert(has_heard(fresh[j], o, q));
    lemma_sendings_forget_nothing(
        fresh,
        fleet,
        topo,
        params,
        round,
        awake,
        awake.len(),
        j,
        o,
        q,
    );
    let s = linkstate::sendings(fresh, fleet, topo, params, round, awake, awake.len());
    let g0 = Gossip { state: StateModel { nodes: s.nodes, ..state }, events: Seq::empty() };
    lemma_all_spread(g0, fleet, topo, s.out, 0, s.out.len());
    let g = linkstate::gossiped(nodes, state, fleet, topo, params, round);
    assert(has_heard(g.state.nodes[j], o, q));
    lemma_kept_map(nodes, state, fleet, topo, params, round, draws, j);
}

} // verus!
