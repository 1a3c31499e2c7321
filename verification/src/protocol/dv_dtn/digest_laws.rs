//! How news of deliveries rides on beacons: towers remember and tell what they took,
//! balloons pass it on with the route, and origins hear of it.
use vstd::prelude::*;

use crate::balloon::Balloon;
use crate::mesh_adjacency::Topology;
use crate::tower::Tower;

use super::adoption_laws;
use super::beacon;
use super::beacon::{DigestAck, OfferModel, Reception, TowerModel, Waves};
use super::bundle::{AckState, Delivery};
use super::dv_round;
use super::params::{AckPolicy, DvDtnParams};
use super::receipt_laws;
use super::{DvModel, NodeModel};

verus! {

// ---------------------------------------------------------------------------
// Telling
// ---------------------------------------------------------------------------

proof fn lemma_announced(
    recent: Seq<(u32, u64, u64)>,
    k: nat,
    round: u64,
    max_age: u64,
    limit: nat,
    x: int,
)
    requires
        0 <= x < k <= recent.len(),
        k - x <= limit,
        round <= recent[x].2 + max_age,
    ensures
        beacon::announced(recent, k, round, max_age, limit).contains((recent[x].0, recent[x].1)),
    decreases k,
{
    let e = recent[k - 1];
    let all = beacon::announced(recent, k, round, max_age, limit);
    if x == k - 1 {
        assert(all[0] == (e.0, e.1));
    } else if round <= e.2 + max_age {
        lemma_announced(recent, (k - 1) as nat, round, max_age, (limit - 1) as nat, x);
        let rest = beacon::announced(
            recent,
            (k - 1) as nat,
            round,
            max_age,
            (limit - 1) as nat,
        );
        let y = rest.index_of((recent[x].0, recent[x].1));
        assert(all[y + 1] == rest[y]);
    } else {
        lemma_announced(recent, (k - 1) as nat, round, max_age, limit, x);
    }
}

/// A tower announces no more than it may, and nothing that it has not taken or that
/// is too old.
pub proof fn a_tower_tells_no_tales(
    recent: Seq<(u32, u64, u64)>,
    k: nat,
    round: u64,
    max_age: u64,
    limit: nat,
)
    requires
        k <= recent.len(),
    ensures
        ({
            let all = beacon::announced(recent, k, round, max_age, limit);
            &&& all.len() <= limit
            &&& forall|y: int|
                0 <= y < all.len() ==> exists|x: int|
                    0 <= x < k && (#[trigger] recent[x]).0 == (#[trigger] all[y]).0 && recent[x].1
                        == all[y].1 && round <= recent[x].2 + max_age
        }),
    decreases k,
{
    if k > 0 && limit > 0 {
        let e = recent[k - 1];
        let all = beacon::announced(recent, k, round, max_age, limit);
        let fresh = round <= e.2 + max_age;
        let less = if fresh {
            (limit - 1) as nat
        } else {
            limit
        };
        a_tower_tells_no_tales(recent, (k - 1) as nat, round, max_age, less);
        let rest = beacon::announced(recent, (k - 1) as nat, round, max_age, less);
        assert forall|y: int| 0 <= y < all.len() implies exists|x: int|
            0 <= x < k && (#[trigger] recent[x]).0 == (#[trigger] all[y]).0 && recent[x].1
                == all[y].1 && round <= recent[x].2 + max_age by {
            if fresh && y == 0 {
                assert(recent[k - 1].0 == all[y].0);
            } else {
                let z = if fresh {
                    y - 1
                } else {
                    y
                };
                assert(all[y] == rest[z]);
                let x = choose|x: int|
                    0 <= x < k - 1 && (#[trigger] recent[x]).0 == rest[z].0 && recent[x].1
                        == rest[z].1 && round <= recent[x].2 + max_age;
                assert(recent[x].0 == all[y].0);
            }
        }
    }
}

// ---------------------------------------------------------------------------
// Hearing
// ---------------------------------------------------------------------------

/// Whether an offer to a balloon comes with news of a delivery.
spec fn tells_of(o: OfferModel, j: int, id: u32, seq: u64) -> bool {
    o.to == j && o.digest.contains((id, seq))
}

proof fn lemma_heard(
    r: Reception,
    fleet: Seq<Balloon>,
    params: DvDtnParams,
    round: u64,
    offers: Seq<OfferModel>,
    k: nat,
    j: int,
    seq: u64,
)
    requires
        k <= offers.len(),
        0 <= j < r.nodes.len(),
        j < fleet.len(),
        params.ack_policy == AckPolicy::Digest,
        receipt_laws::waits_for(r.nodes[j], seq),
    ensures
        ({
            let b = beacon::all_received(r, fleet, params, round, offers, k);
            &&& b.nodes.len() == r.nodes.len()
            &&& b.nodes[j].outstanding == r.nodes[j].outstanding
            &&& (exists|m: int|
                0 <= m < k && tells_of(#[trigger] offers[m], j, fleet[j].id, seq))
                ==> b.acks.contains(DigestAck { node: j as usize, seq })
        }),
    decreases k,
{
    if k > 0 {
        lemma_heard(r, fleet, params, round, offers, (k - 1) as nat, j, seq);
        let a = beacon::all_received(r, fleet, params, round, offers, (k - 1) as nat);
        let b = beacon::all_received(r, fleet, params, round, offers, k);
        let ack = DigestAck { node: j as usize, seq };
        if exists|m: int| 0 <= m < k && tells_of(#[trigger] offers[m], j, fleet[j].id, seq) {
            let m = choose|m: int|
                0 <= m < k && tells_of(#[trigger] offers[m], j, fleet[j].id, seq);
            if m < k - 1 {
                assert(tells_of(offers[m], j, fleet[j].id, seq));
                let y = a.acks.index_of(ack);
                assert(b.acks[y] == ack);
            } else {
                assert(b.acks[a.acks.len() as int] == ack);
            }
        }
    }
}

/// An origin hears of a delivery. Where receipts travel as digests, a balloon that
/// waits for a bundle is told that it arrived if a tower that took it emits within
/// earshot, while the delivery is recent and among the latest that a digest has room
/// for; and if a neighbour that is awake passes on a digest that lists it.
pub proof fn an_origin_hears_of_a_delivery(
    nodes: Seq<NodeModel>,
    fleet: Seq<Balloon>,
    tower_state: Map<u32, TowerModel>,
    towers: Seq<Tower>,
    topo: Topology,
    params: DvDtnParams,
    round: u64,
    tower_draws: Seq<u64>,
    node_draws: Seq<u64>,
    j: int,
    seq: u64,
)
    requires
        0 <= j < nodes.len(),
        j < fleet.len(),
        j <= u32::MAX,
        params.ack_policy == AckPolicy::Digest,
        nodes[j].outstanding matches Some(o) && o.seq == seq && o.state == AckState::Pending,
    ensures
        ({
            let acks = beacon::beacon_round(
                nodes,
                fleet,
                tower_state,
                towers,
                topo,
                params,
                round,
                tower_draws,
                node_draws,
            ).acks;
            let told = acks.contains(DigestAck { node: j as usize, seq });
            &&& forall|s: int, x: int|
                0 <= s < towers.len() && #[trigger] adoption_laws::hears_tower(
                    tower_state,
                    towers,
                    topo,
                    round,
                    s,
                    j,
                ) && tower_state.contains_key(towers[s].id) && #[trigger] recalls(
                    tower_state[towers[s].id].recent,
                    params,
                    round,
                    x,
                    fleet[j].id,
                    seq,
                ) ==> told
            &&& forall|i: int|
                0 <= i < nodes.len() && #[trigger] adoption_laws::hears_neighbour(
                    nodes,
                    fleet,
                    topo,
                    params,
                    round,
                    i,
                    j,
                ) && nodes[i].ack_digest.contains((fleet[j].id, seq)) ==> told
        }),
{
    let live = beacon::all_forgetful(nodes, round, params.belief_max_age_rounds);
    let w0 = Waves { towers: tower_state, offers: Seq::empty(), hops: Seq::empty() };
    let w1 = beacon::tower_waves(w0, towers, topo, params, round, tower_draws, towers.len());
    let w = beacon::waves_of(live, fleet, tower_state, towers, topo, params, round, tower_draws);
    let r = Reception {
        nodes: beacon::all_rescheduled(live, params, round, node_draws),
        acks: Seq::empty(),
    };
    let id = fleet[j].id;
    assert(r.nodes[j].outstanding == nodes[j].outstanding);
    lemma_heard(r, fleet, params, round, w.offers, w.offers.len(), j, seq);
    assert forall|s: int, x: int|
        0 <= s < towers.len() && #[trigger] adoption_laws::hears_tower(
            tower_state,
            towers,
            topo,
            round,
            s,
            j,
        ) && tower_state.contains_key(towers[s].id) && #[trigger] recalls(
            tower_state[towers[s].id].recent,
            params,
            round,
            x,
            id,
            seq,
        ) implies exists|m: int|
        0 <= m < w.offers.len() && tells_of(#[trigger] w.offers[m], j, id, seq) by {
        let before = beacon::tower_waves(w0, towers, topo, params, round, tower_draws, s as nat);
        let s1 = (s + 1) as nat;
        let after = beacon::tower_waves(w0, towers, topo, params, round, tower_draws, s1);
        let tid = towers[s].id;
        adoption_laws::lemma_untouched(
            w0,
            towers,
            topo,
            params,
            round,
            tower_draws,
            s as nat,
            tid,
        );
        let list = topo.tower_neighbors_of(s);
        let t = beacon::tower_state_of(before.towers, tid);
        assert(t == tower_state[tid]);
        lemma_announced(
            t.recent,
            t.recent.len(),
            round,
            params.belief_max_age_rounds,
            params.ack_digest_entries as nat,
            x,
        );
        let y = list.index_of(j as u32);
        let m = before.offers.len() + y;
        assert(tells_of(after.offers[m], j, id, seq));
        adoption_laws::lemma_waves_grow(
            w0,
            towers,
            topo,
            params,
            round,
            tower_draws,
            s1,
            towers.len(),
        );
        adoption_laws::lemma_relays_grow(w1, live, fleet, topo, params, round, 0, live.len());
        assert(w1.offers[m] == after.offers[m]);
        assert(w.offers[m] == w1.offers[m]);
    }
    assert forall|i: int|
        0 <= i < nodes.len() && #[trigger] adoption_laws::hears_neighbour(
            nodes,
            fleet,
            topo,
            params,
            round,
            i,
            j,
        ) && nodes[i].ack_digest.contains((id, seq)) implies exists|m: int|
        0 <= m < w.offers.len() && tells_of(#[trigger] w.offers[m], j, id, seq) by {
        assert(live[i] == nodes[i]);
        let before = beacon::relays(w1, live, fleet, topo, params, round, i as nat);
        let i1 = (i + 1) as nat;
        let after = beacon::relays(w1, live, fleet, topo, params, round, i1);
        let list = topo.neighbors_of(i);
        let y = list.index_of(j as u32);
        let m = before.offers.len() + y;
        assert(tells_of(after.offers[m], j, id, seq));
        adoption_laws::lemma_relays_grow(w1, live, fleet, topo, params, round, i1, live.len());
        assert(w.offers[m] == after.offers[m]);
    }
}

/// Beacons leave a balloon waiting for what it waited for, and every ack is for a
/// balloon that takes part.
pub(crate) proof fn lemma_round_waits(
    nodes: Seq<NodeModel>,
    fleet: Seq<Balloon>,
    tower_state: Map<u32, TowerModel>,
    towers: Seq<Tower>,
    topo: Topology,
    params: DvDtnParams,
    round: u64,
    tower_draws: Seq<u64>,
    node_draws: Seq<u64>,
    j: int,
    seq: u64,
)
    requires
        0 <= j < nodes.len() <= usize::MAX,
        j < fleet.len(),
        params.ack_policy == AckPolicy::Digest,
        receipt_laws::waits_for(nodes[j], seq),
    ensures
        ({
            let b = beacon::beacon_round(
                nodes,
                fleet,
                tower_state,
                towers,
                topo,
                params,
                round,
                tower_draws,
                node_draws,
            );
            &&& b.nodes.len() == nodes.len()
            &&& receipt_laws::waits_for(b.nodes[j], seq)
            &&& forall|x: int| 0 <= x < b.acks.len() ==> (#[trigger] b.acks[x]).node < nodes.len()
        }),
{
    let live = beacon::all_forgetful(nodes, round, params.belief_max_age_rounds);
    let w = beacon::waves_of(live, fleet, tower_state, towers, topo, params, round, tower_draws);
    let r = Reception {
        nodes: beacon::all_rescheduled(live, params, round, node_draws),
        acks: Seq::empty(),
    };
    lemma_heard(r, fleet, params, round, w.offers, w.offers.len(), j, seq);
    lemma_acks_within(r, fleet, params, round, w.offers, w.offers.len());
}

proof fn lemma_acks_within(
    r: Reception,
    fleet: Seq<Balloon>,
    params: DvDtnParams,
    round: u64,
    offers: Seq<OfferModel>,
    k: nat,
)
    requires
        k <= offers.len(),
        r.nodes.len() <= usize::MAX,
        r.acks.len() == 0,
    ensures
        ({
            let b = beacon::all_received(r, fleet, params, round, offers, k);
            &&& b.nodes.len() == r.nodes.len()
            &&& forall|x: int|
                0 <= x < b.acks.len() ==> (#[trigger] b.acks[x]).node < r.nodes.len()
        }),
    decreases k,
{
    if k > 0 {
        lemma_acks_within(r, fleet, params, round, offers, (k - 1) as nat);
        let a = beacon::all_received(r, fleet, params, round, offers, (k - 1) as nat);
        let b = beacon::all_received(r, fleet, params, round, offers, k);
        assert forall|x: int| 0 <= x < b.acks.len() implies (#[trigger] b.acks[x]).node
            < r.nodes.len() by {
            if x < a.acks.len() {
                assert(b.acks[x] == a.acks[x]);
            }
        }
    }
}

/// Whether a tower's memory holds a recent delivery of a balloon's bundle, among the
/// latest that a digest has room for.
pub open spec fn recalls(
    recent: Seq<(u32, u64, u64)>,
    params: DvDtnParams,
    round: u64,
    x: int,
    id: u32,
    seq: u64,
) -> bool {
    &&& 0 <= x < recent.len()
    &&& recent.len() - x <= params.ack_digest_entries
    &&& recent[x].0 == id
    &&& recent[x].1 == seq
    &&& round <= recent[x].2 + params.belief_max_age_rounds
}

/// Whoever is told, and still waits, knows from then on; every such one is counted.
pub proof fn the_told_know(m: DvModel, acks: Seq<DigestAck>, round: u64, k: nat, i: int, seq: u64)
    requires
        k <= acks.len(),
        0 <= i < m.nodes.len() <= usize::MAX,
        forall|x: int| 0 <= x < acks.len() ==> (#[trigger] acks[x]).node < m.nodes.len(),
        receipt_laws::waits_for(m.nodes[i], seq),
    ensures
        ({
            let b = dv_round::acknowledged(m, acks, round, k);
            let told = exists|x: int|
                0 <= x < k && #[trigger] acks[x] == (DigestAck { node: i as usize, seq });
            &&& b.nodes.len() == m.nodes.len()
            &&& told ==> receipt_laws::knows_it_arrived(b.nodes[i], seq) && b.tally.acked
                > m.tally.acked
            &&& !told ==> b.nodes[i] == m.nodes[i]
            &&& b.tally.acked >= m.tally.acked
        }),
    decreases k,
{
    if k > 0 {
        the_told_know(m, acks, round, (k - 1) as nat, i, seq);
        let a = dv_round::acknowledged(m, acks, round, (k - 1) as nat);
        let b = dv_round::acknowledged(m, acks, round, k);
        let it = DigestAck { node: i as usize, seq };
        assert(acks[k - 1].node < m.nodes.len());
        if acks[k - 1] != it {
            if exists|x: int| 0 <= x < k && #[trigger] acks[x] == it {
                let x = choose|x: int| 0 <= x < k && #[trigger] acks[x] == it;
                assert(0 <= x < k - 1 && acks[x] == it);
            }
        }
    }
}

// ---------------------------------------------------------------------------
// Remembering
// ---------------------------------------------------------------------------

/// What is recent stays news.
proof fn lemma_stays_news(
    recent: Seq<(u32, u64, u64)>,
    round: u64,
    max_age: u64,
    e: (u32, u64, u64),
)
    requires
        recent.contains(e),
        round <= e.2 + max_age,
    ensures
        dv_round::still_news(recent, round, max_age).contains(e),
    decreases recent.len(),
{
    if recent.len() > 0 && recent[0].2 + max_age < round {
        let rest = recent.subrange(1, recent.len() as int);
        let x = recent.index_of(e);
        assert(x > 0);
        assert(rest[x - 1] == e);
        lemma_stays_news(rest, round, max_age, e);
    }
}

/// A tower remembers what it takes, dated now, and forgets nothing recent.
pub proof fn a_tower_remembers(
    towers: Map<u32, TowerModel>,
    taken: Seq<Delivery>,
    round: u64,
    max_age: u64,
    k: nat,
    id: u32,
)
    requires
        k <= taken.len(),
        towers.contains_key(id),
    ensures
        ({
            let after = dv_round::noted(towers, taken, round, max_age, k);
            &&& after.contains_key(id)
            &&& forall|x: int|
                0 <= x < k && (#[trigger] taken[x]).tower_id == id ==> after[id].recent.contains(
                    (taken[x].origin_id, taken[x].seq, round),
                )
            &&& forall|e: (u32, u64, u64)|
                #[trigger] towers[id].recent.contains(e) && round <= e.2 + max_age
                    ==> after[id].recent.contains(e)
        }),
    decreases k,
{
    if k > 0 {
        a_tower_remembers(towers, taken, round, max_age, (k - 1) as nat, id);
        let a = dv_round::noted(towers, taken, round, max_age, (k - 1) as nat);
        let b = dv_round::noted(towers, taken, round, max_age, k);
        let d = taken[k - 1];
        if d.tower_id == id {
            let news = dv_round::still_news(a[id].recent, round, max_age);
            assert(b[id].recent == news.push((d.origin_id, d.seq, round)));
            assert forall|e: (u32, u64, u64)|
                #[trigger] a[id].recent.contains(e) && round <= e.2 + max_age
                implies b[id].recent.contains(e) by {
                lemma_stays_news(a[id].recent, round, max_age, e);
                let y = news.index_of(e);
                assert(b[id].recent[y] == e);
            }
            assert(b[id].recent[news.len() as int] == (d.origin_id, d.seq, round));
            assert forall|x: int| 0 <= x < k && (#[trigger] taken[x]).tower_id == id
                implies b[id].recent.contains((taken[x].origin_id, taken[x].seq, round)) by {
                if x < k - 1 {
                    assert(a[id].recent.contains((taken[x].origin_id, taken[x].seq, round)));
                }
            }
        } else {
            assert(b[id] == a[id]);
        }
    }
}

// ---------------------------------------------------------------------------
// Passing on
// ---------------------------------------------------------------------------

/// Whether an offer is a tower's own.
spec fn from_tower(o: OfferModel, towers: Seq<Tower>, topo: Topology) -> bool {
    exists|s: int|
        0 <= s < towers.len() && o.belief.next_hop is None && o.belief.tower_id == (
        #[trigger] towers[s]).id && topo.tower_neighbors_of(s).contains(o.to as u32)
}

/// Whether an offer is what balloon `i` believes, with the digest that it has.
pub open spec fn repeats(
    belief: super::beacon::RouteBelief,
    digest: Seq<(u32, u64)>,
    to: int,
    nodes: Seq<NodeModel>,
    fleet: Seq<Balloon>,
    topo: Topology,
    i: int,
) -> bool {
    &&& 0 <= i < nodes.len()
    &&& topo.neighbors_of(i).contains(to as u32)
    &&& belief.next_hop == Some(fleet[i].id)
    &&& nodes[i].belief matches Some(c) && c.tower_id == belief.tower_id && c.emitted_at_round
        == belief.emitted_at_round
    &&& digest == nodes[i].ack_digest
}

spec fn from_balloon(
    o: OfferModel,
    nodes: Seq<NodeModel>,
    fleet: Seq<Balloon>,
    topo: Topology,
) -> bool {
    exists|i: int| #[trigger] repeats(o.belief, o.digest, o.to, nodes, fleet, topo, i)
}

proof fn lemma_tower_offers(
    w: Waves,
    towers: Seq<Tower>,
    topo: Topology,
    params: DvDtnParams,
    round: u64,
    draws: Seq<u64>,
    k: nat,
)
    requires
        k <= towers.len(),
        w.offers.len() == 0,
    ensures
        ({
            let b = beacon::tower_waves(w, towers, topo, params, round, draws, k).offers;
            forall|m: int| 0 <= m < b.len() ==> from_tower(#[trigger] b[m], towers, topo)
        }),
    decreases k,
{
    if k > 0 {
        lemma_tower_offers(w, towers, topo, params, round, draws, (k - 1) as nat);
        let a = beacon::tower_waves(w, towers, topo, params, round, draws, (k - 1) as nat).offers;
        let b = beacon::tower_waves(w, towers, topo, params, round, draws, k).offers;
        let list = topo.tower_neighbors_of(k - 1);
        assert forall|m: int| 0 <= m < b.len() implies from_tower(
            #[trigger] b[m],
            towers,
            topo,
        ) by {
            if m < a.len() {
                assert(b[m] == a[m]);
            } else {
                assert(b[m].to == list[m - a.len()]);
                assert(list.contains(list[m - a.len()]));
                assert(b[m].belief.tower_id == towers[k - 1].id);
            }
        }
    }
}

proof fn lemma_all_offers(
    w: Waves,
    nodes: Seq<NodeModel>,
    fleet: Seq<Balloon>,
    towers: Seq<Tower>,
    topo: Topology,
    params: DvDtnParams,
    round: u64,
    k: nat,
)
    requires
        k <= nodes.len(),
        params.ack_policy == AckPolicy::Digest,
        forall|m: int| 0 <= m < w.offers.len() ==> from_tower(#[trigger] w.offers[m], towers, topo),
    ensures
        ({
            let b = beacon::relays(w, nodes, fleet, topo, params, round, k).offers;
            forall|m: int|
                0 <= m < b.len() ==> from_tower(#[trigger] b[m], towers, topo) || from_balloon(
                    b[m],
                    nodes,
                    fleet,
                    topo,
                )
        }),
    decreases k,
{
    if k > 0 {
        lemma_all_offers(w, nodes, fleet, towers, topo, params, round, (k - 1) as nat);
        let a = beacon::relays(w, nodes, fleet, topo, params, round, (k - 1) as nat).offers;
        let b = beacon::relays(w, nodes, fleet, topo, params, round, k).offers;
        let list = topo.neighbors_of(k - 1);
        assert forall|m: int| 0 <= m < b.len() implies from_tower(#[trigger] b[m], towers, topo)
            || from_balloon(b[m], nodes, fleet, topo) by {
            if m < a.len() {
                assert(b[m] == a[m]);
            } else {
                assert(b[m].to == list[m - a.len()]);
                assert(list.contains(list[m - a.len()]));
                assert(repeats(b[m].belief, b[m].digest, b[m].to, nodes, fleet, topo, k - 1));
            }
        }
    }
}

proof fn lemma_adopted(
    r: Reception,
    fleet: Seq<Balloon>,
    params: DvDtnParams,
    round: u64,
    offers: Seq<OfferModel>,
    k: nat,
    j: int,
)
    requires
        k <= offers.len(),
        0 <= j < r.nodes.len(),
        params.ack_policy == AckPolicy::Digest,
    ensures
        ({
            let b = beacon::all_received(r, fleet, params, round, offers, k).nodes;
            &&& b.len() == r.nodes.len()
            &&& {
                ||| b[j].belief == r.nodes[j].belief && b[j].ack_digest == r.nodes[j].ack_digest
                ||| exists|m: int|
                    0 <= m < k && (#[trigger] offers[m]).to == j && b[j].belief == Some(
                        offers[m].belief,
                    ) && b[j].ack_digest == offers[m].digest
            }
        }),
    decreases k,
{
    if k > 0 {
        lemma_adopted(r, fleet, params, round, offers, (k - 1) as nat, j);
        let a = beacon::all_received(r, fleet, params, round, offers, (k - 1) as nat).nodes;
        let b = beacon::all_received(r, fleet, params, round, offers, k).nodes;
        if b[j] == a[j] {
            if !(a[j].belief == r.nodes[j].belief && a[j].ack_digest == r.nodes[j].ack_digest) {
                let m = choose|m: int|
                    0 <= m < k - 1 && (#[trigger] offers[m]).to == j && a[j].belief == Some(
                        offers[m].belief,
                    ) && a[j].ack_digest == offers[m].digest;
                assert(offers[m].to == j);
            }
        } else {
            assert(offers[k - 1].to == j);
        }
    }
}

/// A digest travels with its route. Where receipts travel as digests, a balloon that
/// comes by another route through a neighbour has that neighbour's digest from then
/// on; and one that comes by none keeps the digest that it had.
pub proof fn a_digest_travels_with_its_route(
    nodes: Seq<NodeModel>,
    fleet: Seq<Balloon>,
    tower_state: Map<u32, TowerModel>,
    towers: Seq<Tower>,
    topo: Topology,
    params: DvDtnParams,
    round: u64,
    tower_draws: Seq<u64>,
    node_draws: Seq<u64>,
    j: int,
)
    requires
        0 <= j < nodes.len(),
        params.ack_policy == AckPolicy::Digest,
    ensures
        ({
            let after = beacon::beacon_round(
                nodes,
                fleet,
                tower_state,
                towers,
                topo,
                params,
                round,
                tower_draws,
                node_draws,
            ).nodes[j];
            ||| (after.belief is None || after.belief == nodes[j].belief) && after.ack_digest
                == nodes[j].ack_digest
            ||| after.belief matches Some(b) && b.next_hop is None
            ||| after.belief matches Some(b) && exists|i: int| #[trigger]
                repeats(b, after.ack_digest, j, nodes, fleet, topo, i)
        }),
{
    let live = beacon::all_forgetful(nodes, round, params.belief_max_age_rounds);
    let w0 = Waves { towers: tower_state, offers: Seq::empty(), hops: Seq::empty() };
    let w1 = beacon::tower_waves(w0, towers, topo, params, round, tower_draws, towers.len());
    let w = beacon::waves_of(live, fleet, tower_state, towers, topo, params, round, tower_draws);
    let r = Reception {
        nodes: beacon::all_rescheduled(live, params, round, node_draws),
        acks: Seq::empty(),
    };
    lemma_tower_offers(w0, towers, topo, params, round, tower_draws, towers.len());
    lemma_all_offers(w1, live, fleet, towers, topo, params, round, live.len());
    lemma_adopted(r, fleet, params, round, w.offers, w.offers.len(), j);
    let after = beacon::all_received(
        r,
        fleet,
        params,
        round,
        w.offers,
        w.offers.len(),
    ).nodes[j];
    if !(after.belief == r.nodes[j].belief && after.ack_digest == r.nodes[j].ack_digest) {
        let m = choose|m: int|
            0 <= m < w.offers.len() && (#[trigger] w.offers[m]).to == j && after.belief == Some(
                w.offers[m].belief,
            ) && after.ack_digest == w.offers[m].digest;
        let o = w.offers[m];
        if !from_tower(o, towers, topo) {
            assert(from_balloon(o, live, fleet, topo));
            let i = choose|i: int| #[trigger]
                repeats(o.belief, o.digest, o.to, live, fleet, topo, i);
            assert(live[i].belief is Some ==> live[i] == nodes[i]);
            assert(repeats(o.belief, after.ack_digest, j, nodes, fleet, topo, i));
        }
    }
}

} // verus!
