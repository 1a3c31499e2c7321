//! What a balloon comes to believe out of all that it hears.
use vstd::prelude::*;

use crate::balloon::Balloon;
use crate::mesh_adjacency::Topology;
use crate::tower::Tower;

use super::beacon;
use super::beacon::{OfferModel, Reception, RouteBelief, TowerModel, Waves};
use super::params::{DvDtnParams, Metric};
use super::NodeModel;

verus! {

/// Any news beats none, and news is compared by its date and its distance alone,
/// whatever towers it is of and whoever told it. Going by freshness, the later
/// wins and of two of one date the nearer; going by distance, the nearer wins
/// and of two at one distance the later. So of two pieces of news that differ in
/// date or distance, one and only one is to be taken over the other.
pub proof fn news_is_compared_by_date_and_distance(
    cur: RouteBelief,
    new: RouteBelief,
    metric: Metric,
)
    ensures
        beacon::adoptable(None, new, metric),
        metric == Metric::FreshestFirst && new.emitted_at_round > cur.emitted_at_round
            ==> beacon::adoptable(Some(cur), new, metric),
        metric == Metric::FreshestFirst && new.emitted_at_round == cur.emitted_at_round
            && new.hop_count < cur.hop_count ==> beacon::adoptable(Some(cur), new, metric),
        metric == Metric::NearestFirst && new.hop_count < cur.hop_count ==> beacon::adoptable(
            Some(cur),
            new,
            metric,
        ),
        metric == Metric::NearestFirst && new.hop_count == cur.hop_count && new.emitted_at_round
            > cur.emitted_at_round ==> beacon::adoptable(Some(cur), new, metric),
        new.emitted_at_round != cur.emitted_at_round || new.hop_count != cur.hop_count ==> (
        beacon::adoptable(Some(cur), new, metric) <==> !beacon::adoptable(Some(new), cur, metric)),
        new.emitted_at_round == cur.emitted_at_round && new.hop_count == cur.hop_count
            ==> !beacon::adoptable(Some(cur), new, metric),
{
}

/// Whether a belief is as good as news of this date at this distance.
pub open spec fn as_good_as(b: RouteBelief, date: u64, hops: int, metric: Metric) -> bool {
    match metric {
        Metric::FreshestFirst => b.emitted_at_round > date || (b.emitted_at_round == date
            && b.hop_count <= hops),
        Metric::NearestFirst => b.hop_count < hops || (b.hop_count == hops && b.emitted_at_round
            >= date),
    }
}

/// Whether a balloon holds something as good as news of this date at this
/// distance.
pub open spec fn holds_as_good(
    held: Option<RouteBelief>,
    date: u64,
    hops: int,
    metric: Metric,
) -> bool {
    held matches Some(b) && as_good_as(b, date, hops, metric)
}

/// What was held, and whatever has come that was neither too old nor a
/// balloon's own, is matched by what is held.
proof fn lemma_received(
    r: Reception,
    fleet: Seq<Balloon>,
    params: DvDtnParams,
    round: u64,
    offers: Seq<OfferModel>,
    k: nat,
    j: int,
)
    requires
        k <= offers.len(),
        0 <= j < r.nodes.len(),
        j < fleet.len(),
    ensures
        ({
            let after = beacon::all_received(r, fleet, params, round, offers, k).nodes;
            &&& after.len() == r.nodes.len()
            &&& r.nodes[j].belief matches Some(c) ==> holds_as_good(
                after[j].belief,
                c.emitted_at_round,
                c.hop_count as int,
                params.metric,
            )
            &&& forall|m: int|
                0 <= m < k && (#[trigger] offers[m]).to == j && offers[m].belief.next_hop != Some(
                    fleet[j].id,
                ) && round <= offers[m].belief.emitted_at_round + params.belief_max_age_rounds
                    ==> holds_as_good(
                    after[j].belief,
                    offers[m].belief.emitted_at_round,
                    offers[m].belief.hop_count as int,
                    params.metric,
                )
        }),
    decreases k,
{
    if k > 0 {
        lemma_received(r, fleet, params, round, offers, (k - 1) as nat, j);
        let before = beacon::all_received(r, fleet, params, round, offers, (k - 1) as nat).nodes;
        let after = beacon::all_received(r, fleet, params, round, offers, k).nodes;
        assert forall|m: int|
            0 <= m < k && (#[trigger] offers[m]).to == j && offers[m].belief.next_hop != Some(
                fleet[j].id,
            ) && round <= offers[m].belief.emitted_at_round
                + params.belief_max_age_rounds implies holds_as_good(
            after[j].belief,
            offers[m].belief.emitted_at_round,
            offers[m].belief.hop_count as int,
            params.metric,
        ) by {
            if m < k - 1 {
                assert(holds_as_good(
                    before[j].belief,
                    offers[m].belief.emitted_at_round,
                    offers[m].belief.hop_count as int,
                    params.metric,
                ));
            }
        }
    }
}

/// Whether an offer to a balloon is among these: news of this date at this
/// distance, from this neighbour or from a tower itself.
spec fn offers_it(
    offers: Seq<OfferModel>,
    j: int,
    date: u64,
    hops: int,
    from: Option<u32>,
) -> bool {
    exists|m: int|
        0 <= m < offers.len() && (#[trigger] offers[m]).to == j
            && offers[m].belief.emitted_at_round == date && offers[m].belief.hop_count == hops
            && offers[m].belief.next_hop == from
}

proof fn lemma_still_offers(
    a: Seq<OfferModel>,
    b: Seq<OfferModel>,
    j: int,
    date: u64,
    hops: int,
    from: Option<u32>,
)
    requires
        offers_it(a, j, date, hops, from),
        a.is_prefix_of(b),
    ensures
        offers_it(b, j, date, hops, from),
{
    let m = choose|m: int|
        0 <= m < a.len() && (#[trigger] a[m]).to == j && a[m].belief.emitted_at_round == date
            && a[m].belief.hop_count == hops && a[m].belief.next_hop == from;
    assert(b[m] == a[m]);
}

pub(crate) proof fn lemma_waves_grow(
    w: Waves,
    towers: Seq<Tower>,
    topo: Topology,
    params: DvDtnParams,
    round: u64,
    draws: Seq<u64>,
    s: nat,
    k: nat,
)
    requires
        s <= k <= towers.len(),
    ensures
        beacon::tower_waves(w, towers, topo, params, round, draws, s).offers.is_prefix_of(
            beacon::tower_waves(w, towers, topo, params, round, draws, k).offers,
        ),
    decreases k - s,
{
    if s < k {
        lemma_waves_grow(w, towers, topo, params, round, draws, s, (k - 1) as nat);
    }
}

pub(crate) proof fn lemma_relays_grow(
    w: Waves,
    nodes: Seq<NodeModel>,
    fleet: Seq<Balloon>,
    topo: Topology,
    params: DvDtnParams,
    round: u64,
    s: nat,
    k: nat,
)
    requires
        s <= k <= nodes.len(),
    ensures
        beacon::relays(w, nodes, fleet, topo, params, round, s).offers.is_prefix_of(
            beacon::relays(w, nodes, fleet, topo, params, round, k).offers,
        ),
    decreases k - s,
{
    if s < k {
        lemma_relays_grow(w, nodes, fleet, topo, params, round, s, (k - 1) as nat);
    }
}

/// A tower that the slots before have not touched is as it was.
pub(crate) proof fn lemma_untouched(
    w: Waves,
    towers: Seq<Tower>,
    topo: Topology,
    params: DvDtnParams,
    round: u64,
    draws: Seq<u64>,
    k: nat,
    id: u32,
)
    requires
        k <= towers.len(),
        forall|r: int| 0 <= r < k ==> (#[trigger] towers[r]).id != id,
    ensures
        ({
            let after = beacon::tower_waves(w, towers, topo, params, round, draws, k).towers;
            &&& after.contains_key(id) == w.towers.contains_key(id)
            &&& w.towers.contains_key(id) ==> after[id] == w.towers[id]
        }),
    decreases k,
{
    if k > 0 {
        lemma_untouched(w, towers, topo, params, round, draws, (k - 1) as nat, id);
        assert(towers[k - 1].id != id);
    }
}

/// Whether it is time for a tower to emit.
pub open spec fn tower_due(tower_state: Map<u32, TowerModel>, id: u32, round: u64) -> bool {
    !tower_state.contains_key(id) || round >= tower_state[id].next_round
}

/// Whether the tower at a slot emits this round, and balloon `j` hears it.
pub open spec fn hears_tower(
    tower_state: Map<u32, TowerModel>,
    towers: Seq<Tower>,
    topo: Topology,
    round: u64,
    s: int,
    j: int,
) -> bool {
    &&& tower_due(tower_state, towers[s].id, round)
    &&& forall|r: int| 0 <= r < s ==> (#[trigger] towers[r]).id != towers[s].id
    &&& topo.tower_neighbors_of(s).contains(j as u32)
}

/// Whether balloon `i` is awake to repeat what it believes, may repeat it, and
/// balloon `j` hears it.
pub open spec fn hears_neighbour(
    nodes: Seq<NodeModel>,
    fleet: Seq<Balloon>,
    topo: Topology,
    params: DvDtnParams,
    round: u64,
    i: int,
    j: int,
) -> bool {
    &&& round >= nodes[i].next_beacon_round
    &&& nodes[i].belief matches Some(c) && round <= c.emitted_at_round
        + params.belief_max_age_rounds && c.hop_count < params.beacon_max_hops
    &&& topo.neighbors_of(i).contains(j as u32)
    &&& fleet[i].id != fleet[j].id
}

/// A balloon ends a round with the best of all it knew and heard. What it holds
/// is as good as what it held, unless that has grown too old; as good as the
/// beacon of every tower that emits within earshot, one hop off and dated now;
/// and as good as what every neighbour that is awake believes, one hop further
/// off and dated as that is.
pub proof fn the_best_that_is_heard_is_believed(
    nodes: Seq<NodeModel>,
    fleet: Seq<Balloon>,
    tower_state: Map<u32, TowerModel>,
    towers: Seq<Tower>,
    topo: Topology,
    params: DvDtnParams,
    round: u64,
    tower_draws: Seq<u64>,
    node_draws: Seq<u64>,
    j: int,
)
    requires
        0 <= j < nodes.len(),
        j < fleet.len(),
        j <= u32::MAX,
    ensures
        ({
            let held = beacon::beacon_round(
                nodes,
                fleet,
                tower_state,
                towers,
                topo,
                params,
                round,
                tower_draws,
                node_draws,
            ).nodes[j].belief;
            &&& (nodes[j].belief matches Some(c) && round <= c.emitted_at_round
                + params.belief_max_age_rounds) ==> holds_as_good(
                held,
                nodes[j].belief->Some_0.emitted_at_round,
                nodes[j].belief->Some_0.hop_count as int,
                params.metric,
            )
            &&& forall|s: int|
                0 <= s < towers.len() && #[trigger] hears_tower(
                    tower_state,
                    towers,
                    topo,
                    round,
                    s,
                    j,
                ) ==> holds_as_good(held, round, 1, params.metric)
            &&& forall|i: int|
                0 <= i < nodes.len() && #[trigger] hears_neighbour(
                    nodes,
                    fleet,
                    topo,
                    params,
                    round,
                    i,
                    j,
                ) ==> holds_as_good(
                    held,
                    nodes[i].belief->Some_0.emitted_at_round,
                    nodes[i].belief->Some_0.hop_count + 1,
                    params.metric,
                )
        }),
{
    let live = beacon::all_forgetful(nodes, round, params.belief_max_age_rounds);
    let w0 = Waves { towers: tower_state, offers: Seq::empty(), hops: Seq::empty() };
    let w1 = beacon::tower_waves(w0, towers, topo, params, round, tower_draws, towers.len());
    let w = beacon::waves_of(live, fleet, tower_state, towers, topo, params, round, tower_draws);
    let r = Reception {
        nodes: beacon::all_rescheduled(live, params, round, node_draws),
        acks: Seq::empty(),
    };
    lemma_received(r, fleet, params, round, w.offers, w.offers.len(), j);
    let held = beacon::all_received(
        r,
        fleet,
        params,
        round,
        w.offers,
        w.offers.len(),
    ).nodes[j].belief;
    assert(r.nodes[j].belief == live[j].belief);
    assert forall|s: int|
        0 <= s < towers.len() && #[trigger] hears_tower(
            tower_state,
            towers,
            topo,
            round,
            s,
            j,
        ) implies holds_as_good(held, round, 1, params.metric) by {
        let before = beacon::tower_waves(w0, towers, topo, params, round, tower_draws, s as nat);
        let after = beacon::tower_waves(
            w0,
            towers,
            topo,
            params,
            round,
            tower_draws,
            (s + 1) as nat,
        );
        let id = towers[s].id;
        lemma_untouched(w0, towers, topo, params, round, tower_draws, s as nat, id);
        let list = topo.tower_neighbors_of(s);
        let t = beacon::tower_state_of(before.towers, id);
        assert(round >= t.next_round);
        let x = list.index_of(j as u32);
        assert(after.offers[before.offers.len() + x].to == j);
        assert(offers_it(after.offers, j, round, 1, None));
        lemma_waves_grow(
            w0,
            towers,
            topo,
            params,
            round,
            tower_draws,
            (s + 1) as nat,
            towers.len(),
        );
        lemma_still_offers(after.offers, w1.offers, j, round, 1, None);
        lemma_relays_grow(w1, live, fleet, topo, params, round, 0, live.len());
        lemma_still_offers(w1.offers, w.offers, j, round, 1, None);
    }
    assert forall|i: int|
        0 <= i < nodes.len() && #[trigger] hears_neighbour(
            nodes,
            fleet,
            topo,
            params,
            round,
            i,
            j,
        ) implies holds_as_good(
        held,
        nodes[i].belief->Some_0.emitted_at_round,
        nodes[i].belief->Some_0.hop_count + 1,
        params.metric,
    ) by {
        let c = nodes[i].belief->Some_0;
        assert(live[i] == nodes[i]);
        let before = beacon::relays(w1, live, fleet, topo, params, round, i as nat);
        let after = beacon::relays(w1, live, fleet, topo, params, round, (i + 1) as nat);
        let list = topo.neighbors_of(i);
        let x = list.index_of(j as u32);
        assert(after.offers[before.offers.len() + x].to == j);
        assert(offers_it(after.offers, j, c.emitted_at_round, c.hop_count + 1, Some(fleet[i].id)));
        lemma_relays_grow(w1, live, fleet, topo, params, round, (i + 1) as nat, live.len());
        lemma_still_offers(
            after.offers,
            w.offers,
            j,
            c.emitted_at_round,
            c.hop_count + 1,
            Some(fleet[i].id),
        );
    }
}

/// A tower emits when it is due, and only then: a wave of its own, one hop off, dated
/// now and numbered after the last, to everybody it reaches and to nobody else. It is
/// due again an interval later, give or take the jitter.
pub proof fn a_tower_emits_when_it_is_due(
    w: Waves,
    towers: Seq<Tower>,
    topo: Topology,
    params: DvDtnParams,
    round: u64,
    slot: int,
    draw: u64,
)
    requires
        draw <= 2 * params.beacon_jitter_rounds,
        round + params.beacon_interval_rounds + params.beacon_jitter_rounds + 1 <= u64::MAX,
        w.towers.contains_key(towers[slot].id) ==> w.towers[towers[slot].id].epoch < u64::MAX,
    ensures
        ({
            let id = towers[slot].id;
            let list = topo.tower_neighbors_of(slot);
            let r = beacon::tower_wave(w, towers, topo, params, round, slot, draw);
            let n = w.offers.len();
            &&& r.towers.contains_key(id)
            &&& !tower_due(w.towers, id, round) ==> r.offers == w.offers && r.hops == w.hops
                && r.towers[id] == w.towers[id]
            &&& tower_due(w.towers, id, round) ==> {
                let next = r.towers[id].next_round;
                &&& r.offers.len() == n + list.len()
                &&& r.hops.len() == w.hops.len() + list.len()
                &&& forall|x: int|
                    0 <= x < list.len() ==> {
                        let o = #[trigger] r.offers[n + x];
                        &&& o.to == list[x]
                        &&& o.belief.tower_id == id
                        &&& o.belief.hop_count == 1
                        &&& o.belief.next_hop is None
                        &&& o.belief.emitted_at_round == round
                        &&& o.belief.epoch == r.towers[id].epoch
                    }
                &&& w.towers.contains_key(id) ==> r.towers[id].epoch == w.towers[id].epoch + 1
                &&& next >= round + 1
                &&& next + params.beacon_jitter_rounds >= round + params.beacon_interval_rounds
                &&& next == round + 1 || next <= round + params.beacon_interval_rounds
                    + params.beacon_jitter_rounds
            }
        }),
{
}

/// A balloon repeats what it believes when it is awake, and only as far as news may
/// travel: to everybody it hears and to nobody else, one hop further off, through
/// itself, and dated as it was.
pub proof fn a_balloon_repeats_when_awake(
    w: Waves,
    nodes: Seq<NodeModel>,
    fleet: Seq<Balloon>,
    topo: Topology,
    params: DvDtnParams,
    round: u64,
    i: int,
)
    ensures
        ({
            let list = topo.neighbors_of(i);
            let r = beacon::relay(w, nodes, fleet, topo, params, round, i);
            let n = w.offers.len();
            let speaks = round >= nodes[i].next_beacon_round && (nodes[i].belief matches Some(c)
                && c.hop_count < params.beacon_max_hops);
            &&& r.towers == w.towers
            &&& !speaks ==> r == w
            &&& speaks ==> {
                let c = nodes[i].belief->Some_0;
                &&& r.offers.len() == n + list.len()
                &&& r.hops.len() == w.hops.len() + list.len()
                &&& forall|x: int|
                    0 <= x < list.len() ==> {
                        let o = #[trigger] r.offers[n + x];
                        &&& o.to == list[x]
                        &&& o.belief.tower_id == c.tower_id
                        &&& o.belief.hop_count == c.hop_count + 1
                        &&& o.belief.next_hop == Some(fleet[i].id)
                        &&& o.belief.emitted_at_round == c.emitted_at_round
                        &&& o.belief.epoch == c.epoch
                    }
            }
        }),
{
}

} // verus!
