//! What a whole round keeps true, discovery and delivery together.
use vstd::prelude::*;

use crate::balloon::Balloon;
use crate::mesh_adjacency::Topology;
use crate::tower::Tower;

use super::beacon;
use super::beacon::Reception;
use super::beacon_laws;
use super::belief_laws;
use super::bundle_laws;
use super::bundle_order;
use super::bundle_paths;
use super::bundle_round;
use super::dv_round;
use super::dv_round::{Draws, DvModel};
use super::linkstate;
use super::params::{AckPolicy, Discovery, DvDtnParams};
use super::NodeModel;

verus! {

/// Delivery as a round finds it once discovery is done.
spec fn at_delivery(
    m: DvModel,
    fleet: Seq<Balloon>,
    towers: Seq<Tower>,
    topo: Topology,
    params: DvDtnParams,
    round: u64,
    draws: Draws,
) -> DvModel {
    let seen = DvModel { nodes: m.nodes.take(fleet.len() as int), ..m };
    let f = dv_round::found(seen, fleet, towers, topo, params, round, draws);
    dv_round::acknowledged(f.m, f.acks, round, f.acks.len())
}

proof fn lemma_cargo_tame(a: Seq<NodeModel>, b: Seq<NodeModel>, params: DvDtnParams)
    requires
        dv_round::same_cargo(a, b),
    ensures
        bundle_order::all_tame(a, b, params),
{
    assert forall|i: int| 0 <= i < a.len() implies bundle_order::tame(
        #[trigger] a[i],
        b[i],
        params,
    ) by {
        bundle_order::lemma_tame_same(a[i], b[i], params);
    }
}

proof fn lemma_cargo_on(a: Seq<NodeModel>, b: Seq<NodeModel>, c: Seq<NodeModel>)
    requires
        dv_round::same_cargo(a, b),
        dv_round::same_cargo(b, c),
    ensures
        dv_round::same_cargo(a, c),
{
    assert forall|i: int| 0 <= i < a.len() implies {
        &&& (#[trigger] c[i]).queue == a[i].queue
        &&& c[i].ack_queue == a[i].ack_queue
        &&& c[i].bundle_seq == a[i].bundle_seq
        &&& c[i].next_bundle_round == a[i].next_bundle_round
        &&& bundle_order::same_records(a[i].log, c[i].log)
    } by {
        assert(b[i].queue == a[i].queue);
        assert forall|k: int| 0 <= k < a[i].log.len() implies (#[trigger] c[i].log[k]).origin_id
            == a[i].log[k].origin_id && c[i].log[k].seq == a[i].log[k].seq by {
            assert(b[i].log[k].seq == a[i].log[k].seq);
        }
    }
}

proof fn lemma_heard_of(
    m: DvModel,
    fleet: Seq<Balloon>,
    towers: Seq<Tower>,
    topo: Topology,
    params: DvDtnParams,
    round: u64,
    draws: Draws,
)
    requires
        m.nodes.len() <= usize::MAX,
    ensures
        ({
            let f = dv_round::found(m, fleet, towers, topo, params, round, draws);
            &&& forall|j: int|
                0 <= j < f.acks.len() ==> (#[trigger] f.acks[j]).node < m.nodes.len()
            &&& params.ack_policy != AckPolicy::Digest ==> f.acks.len() == 0
        }),
{
    if params.discovery == Discovery::Proactive {
        let live = beacon::all_forgetful(m.nodes, round, params.belief_max_age_rounds);
        let woken = beacon::all_rescheduled(live, params, round, draws.nodes);
        let w = beacon::waves_of(
            live,
            fleet,
            m.towers,
            towers,
            topo,
            params,
            round,
            draws.towers,
        );
        let r = Reception { nodes: woken, acks: Seq::empty() };
        dv_round::lemma_ack_nodes(r, fleet, params, round, w.offers, w.offers.len());
        lemma_no_digest_no_acks(r, fleet, params, round, w.offers, w.offers.len());
    }
}

proof fn lemma_no_digest_no_acks(
    r: Reception,
    fleet: Seq<Balloon>,
    params: DvDtnParams,
    round: u64,
    offers: Seq<beacon::OfferModel>,
    k: nat,
)
    ensures
        params.ack_policy != AckPolicy::Digest ==> beacon::all_received(
            r,
            fleet,
            params,
            round,
            offers,
            k,
        ).acks == r.acks,
    decreases k,
{
    if k > 0 {
        lemma_no_digest_no_acks(r, fleet, params, round, offers, (k - 1) as nat);
    }
}

/// Discovery leaves delivery what it found, and a round that fits.
proof fn lemma_ready(
    m: DvModel,
    fleet: Seq<Balloon>,
    towers: Seq<Tower>,
    topo: Topology,
    params: DvDtnParams,
    round: u64,
    draws: Draws,
)
    requires
        m.nodes.len() <= usize::MAX,
        dv_round::dv_fits(m, fleet, towers, params, round),
    ensures
        ({
            let seen = m.nodes.take(fleet.len() as int);
            let a = at_delivery(m, fleet, towers, topo, params, round, draws);
            let f = dv_round::found(
                DvModel { nodes: seen, ..m },
                fleet,
                towers,
                topo,
                params,
                round,
                draws,
            );
            &&& dv_round::same_cargo(seen, a.nodes)
            &&& linkstate::rising(f.awake, seen.len())
            &&& bundle_round::round_fits(dv_round::to_deliver(a), params, f.awake, round)
            &&& a.tally.originated == m.tally.originated
            &&& a.tally.resolved() == m.tally.resolved()
            &&& a.tally.delivered == m.tally.delivered
            &&& a.tally.ack_lost == m.tally.ack_lost
            &&& params.ack_policy != AckPolicy::Digest ==> a.tally.acked == m.tally.acked
        }),
{
    let n = fleet.len() as int;
    let seen = DvModel { nodes: m.nodes.take(n), ..m };
    let f = dv_round::found(seen, fleet, towers, topo, params, round, draws);
    dv_round::discovery_moves_no_cargo(seen, fleet, towers, topo, params, round, draws);
    linkstate::lemma_awake_rises(seen.nodes, seen.nodes.len(), round);
    lemma_heard_of(seen, fleet, towers, topo, params, round, draws);
    dv_round::lemma_acknowledged(f.m, f.acks, round, f.acks.len());
    lemma_told_counts(f.m, f.acks, round, f.acks.len());
    let a = dv_round::acknowledged(f.m, f.acks, round, f.acks.len());
    lemma_cargo_on(seen.nodes, f.m.nodes, a.nodes);
    assert forall|i: int| 0 <= i < seen.nodes.len() implies (
    #[trigger] seen.nodes[i]).bundle_seq + seen.nodes.len() <= u64::MAX by {
        assert(m.nodes[i].bundle_seq + fleet.len() <= u64::MAX);
    }
    dv_round::lemma_delivery_fits(seen.nodes, m.tally, a, params, f.awake, round);
}

proof fn lemma_told_counts(m: DvModel, acks: Seq<beacon::DigestAck>, round: u64, k: nat)
    ensures
        ({
            let a = dv_round::acknowledged(m, acks, round, k);
            &&& a.tally.originated == m.tally.originated
            &&& a.tally.resolved() == m.tally.resolved()
            &&& a.tally.delivered == m.tally.delivered
            &&& a.tally.ack_lost == m.tally.ack_lost
        }),
    decreases k,
{
    if k > 0 {
        lemma_told_counts(m, acks, round, (k - 1) as nat);
    }
}

/// A round leaves as many nodes as it found.
pub(crate) proof fn lemma_sizes(
    m: DvModel,
    fleet: Seq<Balloon>,
    towers: Seq<Tower>,
    topo: Topology,
    params: DvDtnParams,
    round: u64,
    draws: Draws,
)
    requires
        m.nodes.len() <= usize::MAX,
        dv_round::dv_fits(m, fleet, towers, params, round),
    ensures
        dv_round::dv_round(m, fleet, towers, topo, params, round, draws).m.nodes.len()
            == m.nodes.len(),
{
    let n = fleet.len() as int;
    let seen = DvModel { nodes: m.nodes.take(n), ..m };
    let f = dv_round::found(seen, fleet, towers, topo, params, round, draws);
    let a = at_delivery(m, fleet, towers, topo, params, round, draws);
    lemma_ready(m, fleet, towers, topo, params, round, draws);
    bundle_laws::nothing_vanishes(
        dv_round::to_deliver(a),
        fleet,
        topo,
        params,
        f.awake,
        round,
    );
}

/// Every round keeps every visible node in order, and its bundles things in
/// places, whichever way routes are found.
pub proof fn every_round_keeps_order(
    m: DvModel,
    fleet: Seq<Balloon>,
    towers: Seq<Tower>,
    topo: Topology,
    params: DvDtnParams,
    round: u64,
    draws: Draws,
)
    requires
        m.nodes.len() <= usize::MAX,
        dv_round::dv_fits(m, fleet, towers, params, round),
        bundle_order::all_orderly(m.nodes.take(fleet.len() as int), fleet, params),
        bundle_paths::well_kept(m.nodes.take(fleet.len() as int), params),
    ensures
        ({
            let after = dv_round::dv_round(m, fleet, towers, topo, params, round, draws).m;
            let seen = after.nodes.take(fleet.len() as int);
            &&& bundle_order::all_orderly(seen, fleet, params)
            &&& bundle_paths::well_kept(seen, params)
            &&& bundle_order::all_in_time(seen, round, params.bundle_max_age_rounds)
            &&& bundle_order::all_acks_in_time(seen, round, params.bundle_max_age_rounds)
        }),
{
    let n = fleet.len() as int;
    let seen = DvModel { nodes: m.nodes.take(n), ..m };
    let f = dv_round::found(seen, fleet, towers, topo, params, round, draws);
    let a = at_delivery(m, fleet, towers, topo, params, round, draws);
    lemma_ready(m, fleet, towers, topo, params, round, draws);
    lemma_cargo_tame(seen.nodes, a.nodes, params);
    bundle_order::lemma_tame_orderly(seen.nodes, a.nodes, fleet, params);
    bundle_paths::lemma_tame_kept(seen.nodes, a.nodes, params);
    let s = dv_round::to_deliver(a);
    bundle_order::every_node_stays_in_order(s, fleet, topo, params, f.awake, round);
    bundle_paths::bundles_never_loop_or_double(s, fleet, topo, params, f.awake, round);
    bundle_order::nothing_outstays_its_time(s, fleet, topo, params, f.awake, round);
    let b = bundle_round::bundle_round(s, fleet, topo, params, f.awake, round);
    let after = dv_round::dv_round(m, fleet, towers, topo, params, round, draws).m;
    assert(after.nodes.take(n) =~= b.nodes);
}

/// Nothing vanishes over a whole round among the visible nodes: bundles
/// originated are settled or held, and under source-routed receipts every
/// delivery's receipt is home, lost or under way.
pub proof fn every_round_balances(
    m: DvModel,
    fleet: Seq<Balloon>,
    towers: Seq<Tower>,
    topo: Topology,
    params: DvDtnParams,
    round: u64,
    draws: Draws,
)
    requires
        m.nodes.len() <= usize::MAX,
        dv_round::dv_fits(m, fleet, towers, params, round),
    ensures
        ({
            let n = fleet.len() as int;
            let after = dv_round::dv_round(m, fleet, towers, topo, params, round, draws).m;
            let old_state = dv_round::to_deliver(DvModel { nodes: m.nodes.take(n), ..m });
            let new_state = dv_round::to_deliver(DvModel { nodes: after.nodes.take(n), ..after });
            &&& bundle_laws::bundles_missing(new_state) == bundle_laws::bundles_missing(old_state)
            &&& params.ack_policy == AckPolicy::SourceRouted ==> bundle_laws::receipts_missing(
                new_state,
            ) == bundle_laws::receipts_missing(old_state)
        }),
{
    let n = fleet.len() as int;
    let seen = DvModel { nodes: m.nodes.take(n), ..m };
    let f = dv_round::found(seen, fleet, towers, topo, params, round, draws);
    let a = at_delivery(m, fleet, towers, topo, params, round, draws);
    lemma_ready(m, fleet, towers, topo, params, round, draws);
    let s = dv_round::to_deliver(a);
    dv_round::lemma_cargo_sums(seen.nodes, a.nodes, seen.nodes.len());
    bundle_laws::nothing_vanishes(s, fleet, topo, params, f.awake, round);
    let b = bundle_round::bundle_round(s, fleet, topo, params, f.awake, round);
    let after = dv_round::dv_round(m, fleet, towers, topo, params, round, draws).m;
    assert(after.nodes.take(n) =~= b.nodes);
}


/// Once nothing more is originated every round leaves things as old as they
/// were, and after the age limit nothing is held and nothing is under way among
/// the visible nodes.
pub proof fn a_quiet_fleet_drains(
    m: DvModel,
    fleet: Seq<Balloon>,
    towers: Seq<Tower>,
    topo: Topology,
    params: DvDtnParams,
    round: u64,
    draws: Draws,
    last: u64,
)
    requires
        m.nodes.len() <= usize::MAX,
        dv_round::dv_fits(m, fleet, towers, params, round),
        bundle_order::dated_by(m.nodes.take(fleet.len() as int), last),
        bundle_order::none_due(m.nodes.take(fleet.len() as int), round),
    ensures
        ({
            let seen = m.nodes.take(fleet.len() as int);
            let after = dv_round::dv_round(
                m,
                fleet,
                towers,
                topo,
                params,
                round,
                draws,
            ).m.nodes.take(fleet.len() as int);
            &&& bundle_order::dated_by(after, last)
            &&& bundle_order::same_plans(seen, after)
            &&& round > last + params.bundle_max_age_rounds ==> bundle_order::all_empty(after)
        }),
{
    let n = fleet.len() as int;
    let seen = DvModel { nodes: m.nodes.take(n), ..m };
    let f = dv_round::found(seen, fleet, towers, topo, params, round, draws);
    let a = at_delivery(m, fleet, towers, topo, params, round, draws);
    lemma_ready(m, fleet, towers, topo, params, round, draws);
    let s = dv_round::to_deliver(a);
    assert forall|i: int, j: int|
        0 <= i < a.nodes.len() && 0 <= j < a.nodes[i].queue.len() implies (
    #[trigger] a.nodes[i].queue[j]).created_at_round <= last by {
        assert(seen.nodes[i].queue[j].created_at_round <= last);
    }
    assert forall|i: int, j: int|
        0 <= i < a.nodes.len() && 0 <= j < a.nodes[i].ack_queue.len() implies (
    #[trigger] a.nodes[i].ack_queue[j]).created_at_round <= last by {
        assert(seen.nodes[i].ack_queue[j].created_at_round <= last);
    }
    assert forall|i: int| 0 <= i < a.nodes.len() implies (
    #[trigger] a.nodes[i]).next_bundle_round > round by {
        assert(seen.nodes[i].next_bundle_round > round);
    }
    bundle_order::everything_drains(s, fleet, topo, params, f.awake, round, last);
    let b = bundle_round::bundle_round(s, fleet, topo, params, f.awake, round);
    let after = dv_round::dv_round(m, fleet, towers, topo, params, round, draws).m;
    assert(after.nodes.take(n) =~= b.nodes);
    assert forall|i: int| 0 <= i < b.nodes.len() implies (
    #[trigger] b.nodes[i]).next_bundle_round == seen.nodes[i].next_bundle_round by {
        assert(a.nodes[i].next_bundle_round == seen.nodes[i].next_bundle_round);
    }
}

/// A fleet that hears no tower forgets: no round makes news newer than what
/// was held, and once the newest is too old no visible node believes in a
/// route any more.
pub proof fn a_fleet_out_of_earshot_forgets(
    m: DvModel,
    fleet: Seq<Balloon>,
    towers: Seq<Tower>,
    topo: Topology,
    params: DvDtnParams,
    round: u64,
    draws: Draws,
    t: u64,
)
    requires
        m.nodes.len() <= usize::MAX,
        dv_round::dv_fits(m, fleet, towers, params, round),
        params.discovery == Discovery::Proactive,
        beacon_laws::out_of_earshot(towers, topo),
        beacon_laws::no_news_after(m.nodes.take(fleet.len() as int), t),
    ensures
        ({
            let after = dv_round::dv_round(
                m,
                fleet,
                towers,
                topo,
                params,
                round,
                draws,
            ).m.nodes.take(fleet.len() as int);
            &&& beacon_laws::no_news_after(after, t)
            &&& t + params.belief_max_age_rounds < round ==> forall|i: int|
                0 <= i < after.len() ==> (#[trigger] after[i]).belief is None
        }),
{
    let n = fleet.len() as int;
    let seen = DvModel { nodes: m.nodes.take(n), ..m };
    let f = dv_round::found(seen, fleet, towers, topo, params, round, draws);
    let a = at_delivery(m, fleet, towers, topo, params, round, draws);
    lemma_ready(m, fleet, towers, topo, params, round, draws);
    lemma_heard_of(seen, fleet, towers, topo, params, round, draws);
    dv_round::discovery_moves_no_cargo(seen, fleet, towers, topo, params, round, draws);
    beacon_laws::repeating_makes_no_news(
        seen.nodes,
        fleet,
        m.towers,
        towers,
        topo,
        params,
        round,
        draws.towers,
        draws.nodes,
        t,
    );
    belief_laws::lemma_told(f.m, f.acks, round, f.acks.len());
    let s = dv_round::to_deliver(a);
    belief_laws::delivery_moves_no_beliefs(s, fleet, topo, params, f.awake, round);
    let b = bundle_round::bundle_round(s, fleet, topo, params, f.awake, round);
    let after = dv_round::dv_round(m, fleet, towers, topo, params, round, draws).m;
    assert(after.nodes.take(n) =~= b.nodes);
    assert forall|i: int| 0 <= i < b.nodes.len() implies (#[trigger] b.nodes[i]).belief
        == f.m.nodes[i].belief by {
        assert(a.nodes[i].belief == f.m.nodes[i].belief);
    }
    if t + params.belief_max_age_rounds < round {
        beacon_laws::beliefs_drain(
            seen.nodes,
            fleet,
            m.towers,
            towers,
            topo,
            params,
            round,
            draws.towers,
            draws.nodes,
            t,
        );
    }
}

/// A fleet begins in order: nodes as they are spawned hold nothing and have
/// nothing on record.
pub proof fn a_fresh_fleet_is_in_order(
    nodes: Seq<NodeModel>,
    fleet: Seq<Balloon>,
    params: DvDtnParams,
)
    requires
        fleet.len() == nodes.len(),
        forall|i: int| 0 <= i < fleet.len() ==> (#[trigger] fleet[i]).id == i,
        forall|i: int|
            0 <= i < nodes.len() ==> exists|wake: u64, first: u64| #[trigger]
                super::spawned(wake, first) == #[trigger] nodes[i],
    ensures
        bundle_order::all_orderly(nodes, fleet, params),
        bundle_paths::well_kept(nodes, params),
{
    assert forall|i: int| 0 <= i < nodes.len() implies (#[trigger] nodes[i]).queue.len() == 0
        && nodes[i].ack_queue.len() == 0 && nodes[i].log.len() == 0 by {
        let (wake, first) = choose|wake: u64, first: u64| #[trigger]
            super::spawned(wake, first) == #[trigger] nodes[i];
        assert(super::spawned(wake, first) == nodes[i]);
    }
    assert forall|o: u32, n: u64| #[trigger] bundle_paths::occurrences(
        nodes,
        o,
        n,
        nodes.len(),
    ) <= 1 by {
        lemma_nothing_occurs(nodes, o, n, nodes.len());
    }
}

proof fn lemma_nothing_occurs(nodes: Seq<NodeModel>, o: u32, n: u64, k: nat)
    requires
        k <= nodes.len(),
        forall|i: int| 0 <= i < nodes.len() ==> (#[trigger] nodes[i]).queue.len() == 0,
    ensures
        bundle_paths::occurrences(nodes, o, n, k) == 0,
    decreases k,
{
    if k > 0 {
        lemma_nothing_occurs(nodes, o, n, (k - 1) as nat);
        assert(nodes[k - 1].queue.len() == 0);
    }
}
} // verus!
