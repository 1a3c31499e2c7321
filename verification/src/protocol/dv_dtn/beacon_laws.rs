//! What discovery keeps true over a round.
use vstd::prelude::*;

use crate::balloon::Balloon;
use crate::mesh_adjacency::Topology;
use crate::tower::Tower;

use super::beacon;
use super::beacon::{OfferModel, Reception, RouteBelief, TowerModel, Waves};
use super::params::{DvDtnParams, Metric};
use super::NodeModel;

verus! {

/// Being better is a strict order: no belief is better than itself, and no two
/// are better than each other.
pub proof fn better_is_strict(a: RouteBelief, b: RouteBelief, metric: Metric)
    ensures
        !beacon::better(a, a, metric),
        beacon::better(a, b, metric) ==> !beacon::better(b, a, metric),
{
}

/// Being better carries over: what beats what beats a belief beats it.
pub proof fn better_is_transitive(a: RouteBelief, b: RouteBelief, c: RouteBelief, metric: Metric)
    requires
        beacon::better(a, b, metric),
        beacon::better(b, c, metric),
    ensures
        beacon::better(a, c, metric),
{
}

/// Hearing one's own news repeated never renews it: a belief relayed by
/// anybody is not better than the belief itself.
pub proof fn an_echo_is_never_adopted(b: RouteBelief, id: u32, metric: Metric)
    requires
        b.hop_count < u32::MAX,
    ensures
        !beacon::better(b, beacon::relayed(b, id), metric),
        beacon::relayed(b, id).emitted_at_round == b.emitted_at_round,
{
}

/// Whether an offer was made by a tower that reaches the balloon it is made to.
pub open spec fn from_tower(o: OfferModel, towers: Seq<Tower>, topo: Topology, round: u64) -> bool {
    exists|s: int|
        0 <= s < towers.len() && (#[trigger] topo.tower_neighbors_of(s)).contains(o.to as u32)
            && o.belief.tower_id == towers[s].id && o.belief.hop_count == 1 && o.belief.next_hop
            is None && o.belief.emitted_at_round == round
}

/// Whether an offer repeats the belief of a node that the balloon it is made to
/// is a neighbour of: one hop further, by way of that node, and otherwise as it
/// is believed there.
pub open spec fn from_neighbour(
    o: OfferModel,
    nodes: Seq<NodeModel>,
    fleet: Seq<Balloon>,
    topo: Topology,
) -> bool {
    exists|i: int|
        0 <= i < nodes.len() && (#[trigger] topo.neighbors_of(i)).contains(o.to as u32) && (
        nodes[i].belief matches Some(c) && o.belief == (RouteBelief {
            hop_count: (c.hop_count + 1) as u32,
            next_hop: Some(fleet[i].id),
            ..c
        }))
}

/// Whether every offer came over a link, from a tower or from a node that held
/// the news.
spec fn sourced(
    offers: Seq<OfferModel>,
    nodes: Seq<NodeModel>,
    fleet: Seq<Balloon>,
    towers: Seq<Tower>,
    topo: Topology,
    round: u64,
) -> bool {
    forall|k: int|
        0 <= k < offers.len() ==> 0 <= (#[trigger] offers[k]).to <= u32::MAX && (from_tower(
            offers[k],
            towers,
            topo,
            round,
        ) || from_neighbour(offers[k], nodes, fleet, topo))
}

proof fn lemma_tower_waves_sourced(
    w: Waves,
    nodes: Seq<NodeModel>,
    fleet: Seq<Balloon>,
    towers: Seq<Tower>,
    topo: Topology,
    params: DvDtnParams,
    round: u64,
    draws: Seq<u64>,
    k: nat,
)
    requires
        k <= towers.len(),
        sourced(w.offers, nodes, fleet, towers, topo, round),
    ensures
        sourced(
            beacon::tower_waves(w, towers, topo, params, round, draws, k).offers,
            nodes,
            fleet,
            towers,
            topo,
            round,
        ),
    decreases k,
{
    if k > 0 {
        lemma_tower_waves_sourced(
            w,
            nodes,
            fleet,
            towers,
            topo,
            params,
            round,
            draws,
            (k - 1) as nat,
        );
        let before = beacon::tower_waves(w, towers, topo, params, round, draws, (k - 1) as nat);
        let after = beacon::tower_waves(w, towers, topo, params, round, draws, k);
        let list = topo.tower_neighbors_of(k - 1);
        assert forall|j: int| 0 <= j < after.offers.len() implies 0 <= (
        #[trigger] after.offers[j]).to <= u32::MAX && (from_tower(
            after.offers[j],
            towers,
            topo,
            round,
        ) || from_neighbour(after.offers[j], nodes, fleet, topo)) by {
            if j < before.offers.len() {
                assert(after.offers[j] == before.offers[j]);
            } else {
                let m = j - before.offers.len();
                assert(after.offers[j].to == list[m]);
                assert(list.contains(after.offers[j].to as u32));
                assert(from_tower(after.offers[j], towers, topo, round));
            }
        }
    }
}

proof fn lemma_relays_sourced(
    w: Waves,
    nodes: Seq<NodeModel>,
    fleet: Seq<Balloon>,
    towers: Seq<Tower>,
    topo: Topology,
    params: DvDtnParams,
    round: u64,
    k: nat,
)
    requires
        k <= nodes.len(),
        sourced(w.offers, nodes, fleet, towers, topo, round),
    ensures
        sourced(
            beacon::relays(w, nodes, fleet, topo, params, round, k).offers,
            nodes,
            fleet,
            towers,
            topo,
            round,
        ),
    decreases k,
{
    if k > 0 {
        lemma_relays_sourced(w, nodes, fleet, towers, topo, params, round, (k - 1) as nat);
        let before = beacon::relays(w, nodes, fleet, topo, params, round, (k - 1) as nat);
        let after = beacon::relays(w, nodes, fleet, topo, params, round, k);
        let list = topo.neighbors_of(k - 1);
        assert forall|j: int| 0 <= j < after.offers.len() implies 0 <= (
        #[trigger] after.offers[j]).to <= u32::MAX && (from_tower(
            after.offers[j],
            towers,
            topo,
            round,
        ) || from_neighbour(after.offers[j], nodes, fleet, topo)) by {
            if j < before.offers.len() {
                assert(after.offers[j] == before.offers[j]);
            } else {
                let m = j - before.offers.len();
                assert(after.offers[j].to == list[m]);
                assert(list.contains(after.offers[j].to as u32));
                assert(from_neighbour(after.offers[j], nodes, fleet, topo));
            }
        }
    }
}

/// Whether node `j`'s belief is what it was, or came with one of the first `k`
/// offers and is not too old.
spec fn belief_explained(
    held: Option<RouteBelief>,
    now: Option<RouteBelief>,
    offers: Seq<OfferModel>,
    k: nat,
    j: int,
    round: u64,
    max_age: u64,
) -> bool {
    now == held || (now is Some && !beacon::expired(now->Some_0, round, max_age) && exists|m: int|
        0 <= m < k && (#[trigger] offers[m]).to == j && offers[m].belief == now->Some_0)
}

proof fn lemma_reception_explained(
    r: Reception,
    fleet: Seq<Balloon>,
    params: DvDtnParams,
    round: u64,
    offers: Seq<OfferModel>,
    k: nat,
    j: int,
)
    requires
        k <= offers.len(),
        0 <= j < r.nodes.len(),
        forall|m: int| 0 <= m < offers.len() ==> 0 <= (#[trigger] offers[m]).to,
    ensures
        beacon::all_received(r, fleet, params, round, offers, k).nodes.len() == r.nodes.len(),
        belief_explained(
            r.nodes[j].belief,
            beacon::all_received(r, fleet, params, round, offers, k).nodes[j].belief,
            offers,
            k,
            j,
            round,
            params.belief_max_age_rounds,
        ),
    decreases k,
{
    if k > 0 {
        lemma_reception_explained(r, fleet, params, round, offers, (k - 1) as nat, j);
        let before = beacon::all_received(r, fleet, params, round, offers, (k - 1) as nat);
        let after = beacon::all_received(r, fleet, params, round, offers, k);
        assert(0 <= offers[k - 1].to);
        if after.nodes[j].belief != before.nodes[j].belief {
            assert(offers[k - 1].to == j);
            assert(offers[k - 1].belief == after.nodes[j].belief->Some_0);
        }
    }
}

/// Where the belief of balloon `j` after a round comes from: it is the one held
/// before, or it came over a link this round, from a tower that reaches `j` or
/// from a neighbour that held the news at the start of the round. Either way
/// the news is not too old.
pub proof fn beliefs_arrive_over_links(
    nodes: Seq<NodeModel>,
    fleet: Seq<Balloon>,
    tower_state: Map<u32, TowerModel>,
    towers: Seq<Tower>,
    topo: Topology,
    params: DvDtnParams,
    round: u64,
    tower_draws: Seq<u64>,
    node_draws: Seq<u64>,
    j: int,
)
    requires
        0 <= j < nodes.len(),
    ensures
        ({
            let after = beacon::beacon_round(
                nodes,
                fleet,
                tower_state,
                towers,
                topo,
                params,
                round,
                tower_draws,
                node_draws,
            ).nodes;
            &&& after.len() == nodes.len()
            &&& after[j].belief matches Some(b) ==> {
                &&& !beacon::expired(b, round, params.belief_max_age_rounds)
                &&& round <= b.emitted_at_round + params.belief_max_age_rounds
                &&& nodes[j].belief == Some(b) || (exists|o: OfferModel|
                    o.to == j && o.belief == b && (#[trigger] from_tower(o, towers, topo, round)
                        || from_neighbour(o, nodes, fleet, topo)))
            }
        }),
{
    let max_age = params.belief_max_age_rounds;
    let live = beacon::all_forgetful(nodes, round, max_age);
    let w0 = Waves { towers: tower_state, offers: Seq::empty(), hops: Seq::empty() };
    lemma_tower_waves_sourced(
        w0,
        live,
        fleet,
        towers,
        topo,
        params,
        round,
        tower_draws,
        towers.len(),
    );
    let w1 = beacon::tower_waves(w0, towers, topo, params, round, tower_draws, towers.len());
    lemma_relays_sourced(w1, live, fleet, towers, topo, params, round, live.len());
    let w = beacon::waves_of(live, fleet, tower_state, towers, topo, params, round, tower_draws);
    let r = Reception {
        nodes: beacon::all_rescheduled(live, params, round, node_draws),
        acks: Seq::empty(),
    };
    lemma_reception_explained(r, fleet, params, round, w.offers, w.offers.len(), j);
    let after = beacon::all_received(r, fleet, params, round, w.offers, w.offers.len()).nodes;
    assert(r.nodes[j].belief == live[j].belief);
    if let Some(b) = after[j].belief {
        if after[j].belief != r.nodes[j].belief {
            let m = choose|m: int|
                0 <= m < w.offers.len() && (#[trigger] w.offers[m]).to == j && w.offers[m].belief
                    == b;
            let o = w.offers[m];
            if !from_tower(o, towers, topo, round) {
                assert(from_neighbour(o, live, fleet, topo));
                let i = choose|i: int|
                    0 <= i < live.len() && (#[trigger] topo.neighbors_of(i)).contains(o.to as u32)
                        && live[i].belief is Some && o.belief == beacon::relayed(
                        live[i].belief->Some_0,
                        fleet[i].id,
                    );
                assert(nodes[i].belief == live[i].belief);
                assert(topo.neighbors_of(i).contains(o.to as u32));
                assert(from_neighbour(o, nodes, fleet, topo));
            }
            assert(from_tower(o, towers, topo, round) || from_neighbour(o, nodes, fleet, topo));
        }
    }
}

/// Whether no tower reaches any balloon.
pub open spec fn out_of_earshot(towers: Seq<Tower>, topo: Topology) -> bool {
    forall|s: int| 0 <= s < towers.len() ==> (#[trigger] topo.tower_neighbors_of(s)).len() == 0
}

/// Whether no belief rests on news emitted after a round.
pub open spec fn no_news_after(nodes: Seq<NodeModel>, t: u64) -> bool {
    forall|i: int|
        0 <= i < nodes.len() ==> ((#[trigger] nodes[i]).belief matches Some(b)
            ==> b.emitted_at_round <= t)
}

/// News is never made newer by being repeated: with every tower out of earshot,
/// no balloon comes to hold news emitted later than all that was held before.
pub proof fn repeating_makes_no_news(
    nodes: Seq<NodeModel>,
    fleet: Seq<Balloon>,
    tower_state: Map<u32, TowerModel>,
    towers: Seq<Tower>,
    topo: Topology,
    params: DvDtnParams,
    round: u64,
    tower_draws: Seq<u64>,
    node_draws: Seq<u64>,
    t: u64,
)
    requires
        out_of_earshot(towers, topo),
        no_news_after(nodes, t),
    ensures
        no_news_after(
            beacon::beacon_round(
                nodes,
                fleet,
                tower_state,
                towers,
                topo,
                params,
                round,
                tower_draws,
                node_draws,
            ).nodes,
            t,
        ),
{
    let after = beacon::beacon_round(
        nodes,
        fleet,
        tower_state,
        towers,
        topo,
        params,
        round,
        tower_draws,
        node_draws,
    ).nodes;
    assert forall|j: int| 0 <= j < after.len() implies ((#[trigger] after[j]).belief matches Some(b)
        ==> b.emitted_at_round <= t) by {
        lemma_round_keeps_count(
            nodes,
            fleet,
            tower_state,
            towers,
            topo,
            params,
            round,
            tower_draws,
            node_draws,
        );
        beliefs_arrive_over_links(
            nodes,
            fleet,
            tower_state,
            towers,
            topo,
            params,
            round,
            tower_draws,
            node_draws,
            j,
        );
        if let Some(b) = after[j].belief {
            if nodes[j].belief != Some(b) {
                let o = choose|o: OfferModel|
                    o.to == j && o.belief == b && (#[trigger] from_tower(o, towers, topo, round)
                        || from_neighbour(o, nodes, fleet, topo));
                assert(!from_tower(o, towers, topo, round));
                assert(from_neighbour(o, nodes, fleet, topo));
                let i = choose|i: int|
                    0 <= i < nodes.len() && (#[trigger] topo.neighbors_of(i)).contains(o.to as u32)
                        && nodes[i].belief is Some && o.belief == beacon::relayed(
                        nodes[i].belief->Some_0,
                        fleet[i].id,
                    );
                assert(nodes[i].belief->Some_0.emitted_at_round <= t);
            }
        }
    }
}

proof fn lemma_reception_keeps_count(
    r: Reception,
    fleet: Seq<Balloon>,
    params: DvDtnParams,
    round: u64,
    offers: Seq<OfferModel>,
    k: nat,
)
    requires
        k <= offers.len(),
    ensures
        beacon::all_received(r, fleet, params, round, offers, k).nodes.len() == r.nodes.len(),
    decreases k,
{
    if k > 0 {
        lemma_reception_keeps_count(r, fleet, params, round, offers, (k - 1) as nat);
    }
}

proof fn lemma_round_keeps_count(
    nodes: Seq<NodeModel>,
    fleet: Seq<Balloon>,
    tower_state: Map<u32, TowerModel>,
    towers: Seq<Tower>,
    topo: Topology,
    params: DvDtnParams,
    round: u64,
    tower_draws: Seq<u64>,
    node_draws: Seq<u64>,
)
    ensures
        beacon::beacon_round(
            nodes,
            fleet,
            tower_state,
            towers,
            topo,
            params,
            round,
            tower_draws,
            node_draws,
        ).nodes.len() == nodes.len(),
{
    let live = beacon::all_forgetful(nodes, round, params.belief_max_age_rounds);
    let w = beacon::waves_of(live, fleet, tower_state, towers, topo, params, round, tower_draws);
    lemma_reception_keeps_count(
        Reception {
            nodes: beacon::all_rescheduled(live, params, round, node_draws),
            acks: Seq::empty(),
        },
        fleet,
        params,
        round,
        w.offers,
        w.offers.len(),
    );
}

/// The field forgets: with every tower out of earshot, once the newest news is
/// too old no balloon believes anything any more.
pub proof fn beliefs_drain(
    nodes: Seq<NodeModel>,
    fleet: Seq<Balloon>,
    tower_state: Map<u32, TowerModel>,
    towers: Seq<Tower>,
    topo: Topology,
    params: DvDtnParams,
    round: u64,
    tower_draws: Seq<u64>,
    node_draws: Seq<u64>,
    t: u64,
)
    requires
        out_of_earshot(towers, topo),
        no_news_after(nodes, t),
        t + params.belief_max_age_rounds < round,
    ensures
        forall|j: int|
            0 <= j < nodes.len() ==> (#[trigger] beacon::beacon_round(
                nodes,
                fleet,
                tower_state,
                towers,
                topo,
                params,
                round,
                tower_draws,
                node_draws,
            ).nodes[j]).belief is None,
{
    let after = beacon::beacon_round(
        nodes,
        fleet,
        tower_state,
        towers,
        topo,
        params,
        round,
        tower_draws,
        node_draws,
    ).nodes;
    repeating_makes_no_news(
        nodes,
        fleet,
        tower_state,
        towers,
        topo,
        params,
        round,
        tower_draws,
        node_draws,
        t,
    );
    assert forall|j: int| 0 <= j < nodes.len() implies (#[trigger] after[j]).belief is None by {
        beliefs_arrive_over_links(
            nodes,
            fleet,
            tower_state,
            towers,
            topo,
            params,
            round,
            tower_draws,
            node_draws,
            j,
        );
    }
}

/// A field that has never heard a tower never invents a route.
pub proof fn no_route_is_invented(
    nodes: Seq<NodeModel>,
    fleet: Seq<Balloon>,
    tower_state: Map<u32, TowerModel>,
    towers: Seq<Tower>,
    topo: Topology,
    params: DvDtnParams,
    round: u64,
    tower_draws: Seq<u64>,
    node_draws: Seq<u64>,
)
    requires
        out_of_earshot(towers, topo),
        forall|i: int| 0 <= i < nodes.len() ==> (#[trigger] nodes[i]).belief is None,
    ensures
        forall|j: int|
            0 <= j < nodes.len() ==> (#[trigger] beacon::beacon_round(
                nodes,
                fleet,
                tower_state,
                towers,
                topo,
                params,
                round,
                tower_draws,
                node_draws,
            ).nodes[j]).belief is None,
{
    let after = beacon::beacon_round(
        nodes,
        fleet,
        tower_state,
        towers,
        topo,
        params,
        round,
        tower_draws,
        node_draws,
    ).nodes;
    assert forall|j: int| 0 <= j < nodes.len() implies (#[trigger] after[j]).belief is None by {
        beliefs_arrive_over_links(
            nodes,
            fleet,
            tower_state,
            towers,
            topo,
            params,
            round,
            tower_draws,
            node_draws,
            j,
        );
        if let Some(b) = after[j].belief {
            let o = choose|o: OfferModel|
                o.to == j && o.belief == b && (#[trigger] from_tower(o, towers, topo, round)
                    || from_neighbour(o, nodes, fleet, topo));
            assert(!from_tower(o, towers, topo, round));
        }
    }
}

} // verus!
