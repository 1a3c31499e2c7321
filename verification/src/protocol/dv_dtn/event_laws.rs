//! What goes over the air: a protocol makes the transmissions it says it makes,
//! and no others.
use vstd::prelude::*;

use crate::balloon::Balloon;
use crate::mesh_adjacency::Topology;
use crate::protocol::{CommsEvent, EventKind};
use crate::tower::Tower;

use super::aodv_round;
use super::aodv_round::{Answer, Call, Hunt};
use super::bundle;
use super::bundle_round;
use super::bundle_round::{AckMove, Gather, Handoff, RoundState};
use super::dv_round;
use super::dv_round::{Draws, DvModel};
use super::linkstate_laws;
use super::params::{Discovery, DvDtnParams};

verus! {

/// Whether every transmission is of one of these kinds.
pub open spec fn only_of(events: Seq<CommsEvent>, kinds: Seq<EventKind>) -> bool {
    forall|j: int| 0 <= j < events.len() ==> kinds.contains((#[trigger] events[j]).kind)
}

spec fn asking() -> Seq<EventKind> {
    seq![EventKind::RouteRequest, EventKind::RouteReply]
}

spec fn carrying() -> Seq<EventKind> {
    seq![EventKind::Bundle, EventKind::Ack]
}


proof fn lemma_known_kinds()
    ensures
        asking().contains(EventKind::RouteRequest),
        asking().contains(EventKind::RouteReply),
        carrying().contains(EventKind::Bundle),
        carrying().contains(EventKind::Ack),
{
    assert(asking()[0] == EventKind::RouteRequest && asking()[1] == EventKind::RouteReply);
    assert(carrying()[0] == EventKind::Bundle && carrying()[1] == EventKind::Ack);
}

proof fn lemma_call(
    h: Hunt,
    fleet: Seq<Balloon>,
    topo: Topology,
    params: DvDtnParams,
    round: u64,
    c: Call,
    k: nat,
)
    requires
        only_of(h.events, asking()),
    ensures
        only_of(
            aodv_round::call_spread(h, fleet, topo, params, round, c, k).events,
            asking(),
        ),
    decreases k,
{
    if k > 0 {
        lemma_known_kinds();
        lemma_call(h, fleet, topo, params, round, c, (k - 1) as nat);
    }
}

proof fn lemma_calls(
    h: Hunt,
    fleet: Seq<Balloon>,
    topo: Topology,
    params: DvDtnParams,
    round: u64,
    calls: Seq<Call>,
    k: nat,
)
    requires
        only_of(h.events, asking()),
    ensures
        only_of(
            aodv_round::all_calls(h, fleet, topo, params, round, calls, k).events,
            asking(),
        ),
    decreases k,
{
    if k > 0 {
        lemma_calls(h, fleet, topo, params, round, calls, (k - 1) as nat);
        let before = aodv_round::all_calls(h, fleet, topo, params, round, calls, (k - 1) as nat);
        let c = calls[k - 1];
        lemma_call(before, fleet, topo, params, round, c, topo.neighbors_of(c.from).len());
    }
}

proof fn lemma_overheard(
    h: Hunt,
    fleet: Seq<Balloon>,
    topo: Topology,
    params: DvDtnParams,
    round: u64,
    w: Answer,
    k: nat,
)
    ensures
        aodv_round::all_overheard(h, fleet, topo, params, round, w, k).events == h.events,
    decreases k,
{
    if k > 0 {
        lemma_overheard(h, fleet, topo, params, round, w, (k - 1) as nat);
    }
}

proof fn lemma_replies(
    h: Hunt,
    fleet: Seq<Balloon>,
    topo: Topology,
    params: DvDtnParams,
    round: u64,
    answers: Seq<Answer>,
    k: nat,
)
    requires
        only_of(h.events, asking()),
    ensures
        only_of(
            aodv_round::all_replies(h, fleet, topo, params, round, answers, k).events,
            asking(),
        ),
    decreases k,
{
    if k > 0 {
        lemma_known_kinds();
        lemma_replies(h, fleet, topo, params, round, answers, (k - 1) as nat);
        let before = aodv_round::all_replies(
            h,
            fleet,
            topo,
            params,
            round,
            answers,
            (k - 1) as nat,
        );
        let w = answers[k - 1];
        let taken = aodv_round::reply_taken(before, fleet, params, w);
        lemma_overheard(taken, fleet, topo, params, round, w, topo.neighbors_of(w.from).len());
    }
}

proof fn lemma_acks(
    s: RoundState,
    fleet: Seq<Balloon>,
    params: DvDtnParams,
    moves: Seq<AckMove>,
    k: nat,
)
    requires
        only_of(s.events, carrying()),
    ensures
        only_of(bundle_round::acks_handed(s, fleet, params, moves, k).events, carrying()),
    decreases k,
{
    if k > 0 {
        lemma_known_kinds();
        lemma_acks(s, fleet, params, moves, (k - 1) as nat);
    }
}

proof fn lemma_received(s: RoundState, resolved: Seq<(u32, u64)>, round: u64, k: nat)
    ensures
        bundle_round::acks_received(s, resolved, round, k).events == s.events,
    decreases k,
{
    if k > 0 {
        lemma_received(s, resolved, round, (k - 1) as nat);
    }
}

proof fn lemma_delivered(
    s: RoundState,
    i: int,
    tower_id: u32,
    params: DvDtnParams,
    round: u64,
    k: nat,
)
    ensures
        bundle_round::bundles_delivered(s, i, tower_id, params, round, k).events == s.events,
    decreases k,
{
    if k > 0 {
        lemma_delivered(s, i, tower_id, params, round, (k - 1) as nat);
    }
}

proof fn lemma_contact(
    s: RoundState,
    fleet: Seq<Balloon>,
    i: int,
    tower_id: u32,
    params: DvDtnParams,
    round: u64,
)
    requires
        only_of(s.events, carrying()),
    ensures
        only_of(
            bundle_round::tower_contact(s, fleet, i, tower_id, params, round).events,
            carrying(),
        ),
{
    lemma_known_kinds();
    let n = bundle_round::contact_size(s.nodes[i], params);
    assert forall|a: RoundState|
        (#[trigger] bundle_round::bundles_delivered(a, i, tower_id, params, round, n)).events
            == a.events by {
        lemma_delivered(a, i, tower_id, params, round, n);
    }
}

proof fn lemma_batch(
    s: RoundState,
    i: int,
    next: u32,
    params: DvDtnParams,
    ids: Seq<(u32, u64)>,
)
    ensures
        bundle_round::batch_filled(s, i, next, params, ids).0.events == s.events,
    decreases params.batch.mesh_hop - ids.len(),
{
    let q = s.nodes[i].queue;
    let k = ids.len();
    let place = bundle::nth_place(q.len() as int, params.queue_discipline, k as int);
    if k >= params.batch.mesh_hop || k >= q.len() {
    } else if q[place].path.contains(next) {
    } else if q[place].path.len() >= params.bundle_max_hops {
    } else {
        lemma_batch(s, i, next, params, ids.push((q[place].origin_id, q[place].seq)));
    }
}

proof fn lemma_slots(
    g: Gather,
    fleet: Seq<Balloon>,
    topo: Topology,
    params: DvDtnParams,
    used: Seq<bool>,
    round: u64,
    awake: Seq<usize>,
    k: nat,
)
    requires
        only_of(g.s.events, carrying()),
    ensures
        only_of(
            bundle_round::slots_taken(g, fleet, topo, params, used, round, awake, k).s.events,
            carrying(),
        ),
    decreases k,
{
    if k > 0 {
        lemma_slots(g, fleet, topo, params, used, round, awake, (k - 1) as nat);
        let a = bundle_round::slots_taken(
            g,
            fleet,
            topo,
            params,
            used,
            round,
            awake,
            (k - 1) as nat,
        );
        let i = awake[k - 1] as int;
        assert forall|s: RoundState, tower_id: u32|
            s.events == a.s.events implies only_of(
            (#[trigger] bundle_round::tower_contact(s, fleet, i, tower_id, params, round)).events,
            carrying(),
        ) by {
            lemma_contact(s, fleet, i, tower_id, params, round);
        }
        assert forall|s: RoundState, next: u32|
            (#[trigger] bundle_round::batch_filled(s, i, next, params, Seq::empty())).0.events
                == s.events by {
            lemma_batch(s, i, next, params, Seq::empty());
        }
    }
}

proof fn lemma_handed(s: RoundState, mv: Handoff, params: DvDtnParams, round: u64, k: nat)
    ensures
        bundle_round::bundles_handed(s, mv, params, round, k).0.events == s.events,
    decreases k,
{
    if k > 0 {
        lemma_handed(s, mv, params, round, (k - 1) as nat);
    }
}

proof fn lemma_all_handed(
    s: RoundState,
    fleet: Seq<Balloon>,
    moves: Seq<Handoff>,
    params: DvDtnParams,
    round: u64,
    k: nat,
)
    requires
        only_of(s.events, carrying()),
    ensures
        only_of(
            bundle_round::all_handed(s, fleet, moves, params, round, k).events,
            carrying(),
        ),
    decreases k,
{
    if k > 0 {
        lemma_known_kinds();
        lemma_all_handed(s, fleet, moves, params, round, (k - 1) as nat);
        let a = bundle_round::all_handed(s, fleet, moves, params, round, (k - 1) as nat);
        lemma_handed(a, moves[k - 1], params, round, moves[k - 1].ids.len());
    }
}

proof fn lemma_originated(
    s: RoundState,
    fleet: Seq<Balloon>,
    params: DvDtnParams,
    round: u64,
    awake: Seq<usize>,
    k: nat,
)
    ensures
        bundle_round::originations(s, fleet, params, round, awake, k).events == s.events,
    decreases k,
{
    if k > 0 {
        lemma_originated(s, fleet, params, round, awake, (k - 1) as nat);
    }
}

proof fn lemma_delivery(
    s: RoundState,
    fleet: Seq<Balloon>,
    topo: Topology,
    params: DvDtnParams,
    awake: Seq<usize>,
    round: u64,
)
    requires
        s.events.len() == 0,
    ensures
        only_of(
            bundle_round::bundle_round(s, fleet, topo, params, awake, round).events,
            carrying(),
        ),
{
    let opened = bundle_round::round_opened(s, topo, params, round);
    let ag = bundle_round::acks_taken(
        bundle_round::ack_gather_start(opened.nodes),
        topo,
        awake,
        awake.len(),
    );
    let a = RoundState { nodes: ag.nodes, ..opened };
    lemma_acks(a, fleet, params, ag.moves, ag.moves.len());
    let b = bundle_round::acks_handed(a, fleet, params, ag.moves, ag.moves.len());
    lemma_received(b, ag.resolved, round, ag.resolved.len());
    let acked = bundle_round::acks_forwarded(opened, fleet, topo, params, awake, round);
    let used = bundle_round::slots_spent(opened, topo, awake);
    let g0 = Gather { s: acked, moves: Seq::empty() };
    lemma_slots(g0, fleet, topo, params, used, round, awake, awake.len());
    let g = bundle_round::slots_taken(g0, fleet, topo, params, used, round, awake, awake.len());
    lemma_all_handed(g.s, fleet, g.moves, params, round, g.moves.len());
    let moved = bundle_round::bundles_forwarded(acked, fleet, topo, params, used, awake, round);
    lemma_originated(moved, fleet, params, round, awake, awake.len());
}

/// A protocol makes the transmissions it says it makes: every event of a round
/// is of a kind that its capabilities name.
pub proof fn only_named_kinds_are_sent(
    m: DvModel,
    fleet: Seq<Balloon>,
    towers: Seq<Tower>,
    topo: Topology,
    params: DvDtnParams,
    round: u64,
    draws: Draws,
)
    requires
        m.nodes.len() <= usize::MAX,
        fleet.len() <= m.nodes.len(),
    ensures
        only_of(
            dv_round::dv_round(m, fleet, towers, topo, params, round, draws).events,
            super::capabilities_of(params).event_kinds,
        ),
{
    let kinds = super::kinds_of(params.discovery);
    let seen = DvModel { nodes: m.nodes.take(fleet.len() as int), ..m };
    let f = dv_round::found(seen, fleet, towers, topo, params, round, draws);
    match params.discovery {
        Discovery::Proactive => {
            assert(kinds[0] == EventKind::RouteAd);
        },
        Discovery::Reactive => {
            assert(kinds[0] == EventKind::RouteRequest && kinds[1] == EventKind::RouteReply);
            let live = super::beacon::all_forgetful(
                seen.nodes,
                round,
                params.belief_max_age_rounds,
            );
            let g = aodv_round::on_air(
                seen.nodes,
                seen.aodv,
                fleet,
                topo,
                params,
                round,
                draws.nodes,
            );
            let h0 = Hunt {
                nodes: super::beacon::all_rescheduled(live, params, round, draws.nodes),
                state: g.state,
                events: Seq::empty(),
            };
            lemma_calls(h0, fleet, topo, params, round, g.calls, g.calls.len());
            let h1 = aodv_round::all_calls(
                h0,
                fleet,
                topo,
                params,
                round,
                g.calls,
                g.calls.len(),
            );
            lemma_replies(h1, fleet, topo, params, round, g.answers, g.answers.len());
            assert forall|j: int| 0 <= j < f.events.len() implies kinds.contains(
                (#[trigger] f.events[j]).kind,
            ) by {
                assert(asking().contains(f.events[j].kind));
            }
        },
        Discovery::LinkState => {
            assert(kinds[0] == EventKind::Gossip);
            linkstate_laws::gossip_is_the_only_kind(
                seen.nodes,
                seen.linkstate,
                fleet,
                topo,
                params,
                round,
                draws.nodes,
            );
        },
    }
    assert(only_of(f.events, kinds));
    let a = dv_round::acknowledged(f.m, f.acks, round, f.acks.len());
    let b = bundle_round::bundle_round(
        dv_round::to_deliver(a),
        fleet,
        topo,
        params,
        f.awake,
        round,
    );
    lemma_delivery(dv_round::to_deliver(a), fleet, topo, params, f.awake, round);
    let n = kinds.len();
    assert(kinds[n - 2] == EventKind::Bundle && kinds[n - 1] == EventKind::Ack);
    assert forall|j: int| 0 <= j < b.events.len() implies kinds.contains(
        (#[trigger] b.events[j]).kind,
    ) by {
        assert(carrying().contains(b.events[j].kind));
    }
    let all = dv_round::dv_round(m, fleet, towers, topo, params, round, draws).events;
    assert(all == b.events + f.events);
    assert forall|j: int| 0 <= j < all.len() implies kinds.contains((#[trigger] all[j]).kind) by {
        if j < b.events.len() {
            assert(all[j] == b.events[j]);
        } else {
            assert(all[j] == f.events[j - b.events.len()]);
        }
    }
}

} // verus!
