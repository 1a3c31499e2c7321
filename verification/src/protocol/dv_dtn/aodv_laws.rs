//! What holds of reactive discovery over a whole round.
use vstd::prelude::*;

use crate::balloon::Balloon;
use crate::mesh_adjacency::Topology;
use crate::protocol::{CommsEvent, EventKind};

use super::aodv::Rreq;
use super::aodv_round;
use super::aodv_round::{Answer, AodvModel, Asking, Call, Hunt};
use super::beacon;
use super::linkstate;
use super::params::{DvDtnParams, RingSearch};
use super::NodeModel;

verus! {

/// No two requests share a number: a flood is told apart by who asks and by
/// which of its requests it is.
pub proof fn floods_are_told_apart(a: u32, i: u64, b: u32, j: u64)
    ensures
        aodv_round::flood_key(a, i) == aodv_round::flood_key(b, j) <==> a == b && i == j,
{
}

// ---------------------------------------------------------------------------
// The age of news
// ---------------------------------------------------------------------------

/// Whether every route held has a property of the tower and the date it goes
/// back to.
pub open spec fn routes_hold(nodes: Seq<NodeModel>, p: spec_fn(u32, u64) -> bool) -> bool {
    forall|i: int|
        0 <= i < nodes.len() ==> ((#[trigger] nodes[i]).belief matches Some(b) ==> p(
            b.tower_id,
            b.emitted_at_round,
        ))
}

/// The same of every reply waiting to be passed on.
pub open spec fn replies_hold(state: Seq<AodvModel>, p: spec_fn(u32, u64) -> bool) -> bool {
    forall|i: int, j: int|
        0 <= i < state.len() && 0 <= j < state[i].replies.len() ==> p(
            (#[trigger] state[i].replies[j]).tower_id,
            state[i].replies[j].emitted_at_round,
        )
}

/// The same of every tower in sight, now.
pub open spec fn sights_hold(
    topo: Topology,
    round: u64,
    n: int,
    p: spec_fn(u32, u64) -> bool,
) -> bool {
    forall|i: int| 0 <= i < n ==> (#[trigger] topo.tower_of(i) matches Some(t) ==> p(t, round))
}

spec fn answers_hold(answers: Seq<Answer>, p: spec_fn(u32, u64) -> bool) -> bool {
    forall|j: int|
        0 <= j < answers.len() ==> p(
            (#[trigger] answers[j]).reply.tower_id,
            answers[j].reply.emitted_at_round,
        )
}

proof fn lemma_asked(
    g: Asking,
    nodes: Seq<NodeModel>,
    fleet: Seq<Balloon>,
    topo: Topology,
    params: DvDtnParams,
    round: u64,
    awake: Seq<usize>,
    k: nat,
    p: spec_fn(u32, u64) -> bool,
)
    requires
        k <= awake.len(),
        forall|a: int| 0 <= a < awake.len() ==> (#[trigger] awake[a]) < g.state.len(),
        replies_hold(g.state, p),
        answers_hold(g.answers, p),
    ensures
        ({
            let after = aodv_round::all_asked(g, nodes, fleet, topo, params, round, awake, k);
            &&& after.state.len() == g.state.len()
            &&& replies_hold(after.state, p)
            &&& answers_hold(after.answers, p)
        }),
    decreases k,
{
    if k > 0 {
        lemma_asked(g, nodes, fleet, topo, params, round, awake, (k - 1) as nat, p);
        let before = aodv_round::all_asked(
            g,
            nodes,
            fleet,
            topo,
            params,
            round,
            awake,
            (k - 1) as nat,
        );
        let after = aodv_round::all_asked(g, nodes, fleet, topo, params, round, awake, k);
        let x = awake[k - 1] as int;
        assert(awake[k - 1] < g.state.len());
        if before.state[x].replies.len() > 0 {
            let last = before.state[x].replies.len() - 1;
            let held = before.state[x].replies[last];
            assert(p(held.tower_id, held.emitted_at_round));
            assert(before.state[x].replies.last() == held);
        }
        assert forall|i: int, j: int|
            0 <= i < after.state.len() && 0 <= j < after.state[i].replies.len() implies p(
            (#[trigger] after.state[i].replies[j]).tower_id,
            after.state[i].replies[j].emitted_at_round,
        ) by {
            assert(after.state[i].replies[j] == before.state[i].replies[j]);
        }
    }
}

/// What must hold while transmissions arrive.
spec fn hunt_holds(h: Hunt, n: int, p: spec_fn(u32, u64) -> bool) -> bool {
    &&& h.nodes.len() == n
    &&& h.state.len() == n
    &&& routes_hold(h.nodes, p)
    &&& replies_hold(h.state, p)
}

proof fn lemma_call_spread(
    h: Hunt,
    fleet: Seq<Balloon>,
    topo: Topology,
    params: DvDtnParams,
    round: u64,
    c: Call,
    k: nat,
    n: int,
    p: spec_fn(u32, u64) -> bool,
)
    requires
        hunt_holds(h, n, p),
        sights_hold(topo, round, n, p),
    ensures
        hunt_holds(aodv_round::call_spread(h, fleet, topo, params, round, c, k), n, p),
        aodv_round::call_spread(h, fleet, topo, params, round, c, k).nodes == h.nodes,
    decreases k,
{
    if k > 0 {
        lemma_call_spread(h, fleet, topo, params, round, c, (k - 1) as nat, n, p);
        let before = aodv_round::call_spread(h, fleet, topo, params, round, c, (k - 1) as nat);
        let after = aodv_round::call_spread(h, fleet, topo, params, round, c, k);
        let nb = topo.neighbors_of(c.from)[k - 1];
        if nb < n {
            let seen = topo.tower_of(nb as int);
            let held = before.nodes[nb as int].belief;
            assert forall|i: int, j: int|
                0 <= i < after.state.len() && 0 <= j < after.state[i].replies.len() implies p(
                (#[trigger] after.state[i].replies[j]).tower_id,
                after.state[i].replies[j].emitted_at_round,
            ) by {
                if j < before.state[i].replies.len() {
                    assert(after.state[i].replies[j] == before.state[i].replies[j]);
                }
            }
        }
    }
}

proof fn lemma_calls(
    h: Hunt,
    fleet: Seq<Balloon>,
    topo: Topology,
    params: DvDtnParams,
    round: u64,
    calls: Seq<Call>,
    k: nat,
    n: int,
    p: spec_fn(u32, u64) -> bool,
)
    requires
        k <= calls.len(),
        hunt_holds(h, n, p),
        sights_hold(topo, round, n, p),
    ensures
        hunt_holds(aodv_round::all_calls(h, fleet, topo, params, round, calls, k), n, p),
    decreases k,
{
    if k > 0 {
        lemma_calls(h, fleet, topo, params, round, calls, (k - 1) as nat, n, p);
        lemma_call_spread(
            aodv_round::all_calls(h, fleet, topo, params, round, calls, (k - 1) as nat),
            fleet,
            topo,
            params,
            round,
            calls[k - 1],
            topo.neighbors_of(calls[k - 1].from).len(),
            n,
            p,
        );
    }
}

proof fn lemma_overheard(
    h: Hunt,
    fleet: Seq<Balloon>,
    topo: Topology,
    params: DvDtnParams,
    round: u64,
    w: Answer,
    k: nat,
    n: int,
    p: spec_fn(u32, u64) -> bool,
)
    requires
        hunt_holds(h, n, p),
        p(w.reply.tower_id, w.reply.emitted_at_round),
    ensures
        hunt_holds(aodv_round::all_overheard(h, fleet, topo, params, round, w, k), n, p),
    decreases k,
{
    if k > 0 {
        lemma_overheard(h, fleet, topo, params, round, w, (k - 1) as nat, n, p);
        let before = aodv_round::all_overheard(h, fleet, topo, params, round, w, (k - 1) as nat);
        let after = aodv_round::all_overheard(h, fleet, topo, params, round, w, k);
        assert forall|i: int, j: int|
            0 <= i < after.state.len() && 0 <= j < after.state[i].replies.len() implies p(
            (#[trigger] after.state[i].replies[j]).tower_id,
            after.state[i].replies[j].emitted_at_round,
        ) by {
            assert(after.state[i].replies[j] == before.state[i].replies[j]);
        }
    }
}

proof fn lemma_replies(
    h: Hunt,
    fleet: Seq<Balloon>,
    topo: Topology,
    params: DvDtnParams,
    round: u64,
    answers: Seq<Answer>,
    k: nat,
    n: int,
    p: spec_fn(u32, u64) -> bool,
)
    requires
        k <= answers.len(),
        hunt_holds(h, n, p),
        answers_hold(answers, p),
    ensures
        hunt_holds(aodv_round::all_replies(h, fleet, topo, params, round, answers, k), n, p),
    decreases k,
{
    if k > 0 {
        lemma_replies(h, fleet, topo, params, round, answers, (k - 1) as nat, n, p);
        let before = aodv_round::all_replies(h, fleet, topo, params, round, answers, (k - 1) as nat);
        let w = answers[k - 1];
        assert(p(w.reply.tower_id, w.reply.emitted_at_round));
        if w.to < n {
            let taken = aodv_round::reply_taken(before, fleet, params, w);
            assert forall|i: int, j: int|
                0 <= i < taken.state.len() && 0 <= j < taken.state[i].replies.len() implies p(
                (#[trigger] taken.state[i].replies[j]).tower_id,
                taken.state[i].replies[j].emitted_at_round,
            ) by {
                if j < before.state[i].replies.len() {
                    assert(taken.state[i].replies[j] == before.state[i].replies[j]);
                }
            }
            assert(hunt_holds(taken, n, p));
            lemma_overheard(
                taken,
                fleet,
                topo,
                params,
                round,
                w,
                topo.neighbors_of(w.from).len(),
                n,
                p,
            );
        }
    }
}

/// Whatever holds of the tower and the date behind every route and reply, and
/// of every tower in sight now, holds of every route and reply after a round.
proof fn lemma_hunt_keeps(
    nodes: Seq<NodeModel>,
    state: Seq<AodvModel>,
    fleet: Seq<Balloon>,
    topo: Topology,
    params: DvDtnParams,
    round: u64,
    draws: Seq<u64>,
    p: spec_fn(u32, u64) -> bool,
)
    requires
        nodes.len() <= usize::MAX,
        routes_hold(nodes, p),
        replies_hold(state, p),
        sights_hold(topo, round, nodes.len() as int, p),
    ensures
        ({
            let after = aodv_round::hunt_round(nodes, state, fleet, topo, params, round, draws);
            routes_hold(after.nodes, p) && replies_hold(after.state, p)
        }),
{
    let n = nodes.len();
    let kept = aodv_round::fitted(state, n);
    let settled = Seq::new(kept.len(), |i: int| aodv_round::resigned(kept[i], params, round));
    let live = beacon::all_forgetful(nodes, round, params.belief_max_age_rounds);
    let awake = beacon::awake_of(live, live.len(), round);
    let woken = beacon::all_rescheduled(live, params, round, draws);
    linkstate::lemma_awake_rises(live, n, round);
    assert forall|i: int, j: int|
        0 <= i < settled.len() && 0 <= j < settled[i].replies.len() implies p(
        (#[trigger] settled[i].replies[j]).tower_id,
        settled[i].replies[j].emitted_at_round,
    ) by {
        assert(settled[i].replies[j] == kept[i].replies[j]);
        if i < state.len() {
            assert(state[i].replies[j] == kept[i].replies[j]);
        }
    }
    let g0 = Asking { state: settled, calls: Seq::empty(), answers: Seq::empty() };
    lemma_asked(g0, woken, fleet, topo, params, round, awake, awake.len(), p);
    let g = aodv_round::on_air(nodes, state, fleet, topo, params, round, draws);
    assert forall|i: int| 0 <= i < woken.len() implies ((#[trigger] woken[i]).belief matches Some(
        b,
    ) ==> p(b.tower_id, b.emitted_at_round)) by {
        assert(nodes[i].belief matches Some(b) ==> p(b.tower_id, b.emitted_at_round));
    }
    let h0 = Hunt { nodes: woken, state: g.state, events: Seq::empty() };
    lemma_calls(h0, fleet, topo, params, round, g.calls, g.calls.len(), n as int, p);
    let h1 = aodv_round::all_calls(h0, fleet, topo, params, round, g.calls, g.calls.len());
    lemma_replies(h1, fleet, topo, params, round, g.answers, g.answers.len(), n as int, p);
    let h2 = aodv_round::all_replies(h1, fleet, topo, params, round, g.answers, g.answers.len());
    let after = aodv_round::hunt_round(nodes, state, fleet, topo, params, round, draws);
    assert forall|i: int| 0 <= i < after.nodes.len() implies ((
    #[trigger] after.nodes[i]).belief matches Some(b) ==> p(b.tower_id, b.emitted_at_round)) by {
        assert(h2.nodes[i].belief matches Some(b) ==> p(b.tower_id, b.emitted_at_round));
        assert(topo.tower_of(i) matches Some(t) ==> p(t, round));
    }
}

/// Whether someone knew of a tower as of a date: by a route held, or by a
/// reply under way.
pub open spec fn was_news(
    nodes: Seq<NodeModel>,
    state: Seq<AodvModel>,
    tower_id: u32,
    emitted_at_round: u64,
) -> bool {
    ||| exists|i: int|
        0 <= i < nodes.len() && ((#[trigger] nodes[i]).belief matches Some(b) && b.tower_id
            == tower_id && b.emitted_at_round == emitted_at_round)
    ||| exists|i: int, j: int|
        0 <= i < state.len() && 0 <= j < state[i].replies.len() && (
        #[trigger] state[i].replies[j]).tower_id == tower_id
            && state[i].replies[j].emitted_at_round == emitted_at_round
}

/// Whether a tower is in sight of one of the first `n` balloons.
pub open spec fn in_view(topo: Topology, n: nat, tower_id: u32) -> bool {
    exists|i: int| 0 <= i < n && #[trigger] topo.tower_of(i) == Some(tower_id)
}

/// An answer is as old as the news it rests on: no route, and no reply under
/// way, goes back to a later date than what someone knew before the round,
/// unless a balloon has the tower in sight now.
pub proof fn stale_news_is_not_passed_off_as_current(
    nodes: Seq<NodeModel>,
    state: Seq<AodvModel>,
    fleet: Seq<Balloon>,
    topo: Topology,
    params: DvDtnParams,
    round: u64,
    draws: Seq<u64>,
)
    requires
        nodes.len() <= usize::MAX,
    ensures
        ({
            let after = aodv_round::hunt_round(nodes, state, fleet, topo, params, round, draws);
            let p = |t: u32, e: u64|
                was_news(nodes, state, t, e) || (e == round && in_view(topo, nodes.len(), t));
            routes_hold(after.nodes, p) && replies_hold(after.state, p)
        }),
{
    let p = |t: u32, e: u64|
        was_news(nodes, state, t, e) || (e == round && in_view(topo, nodes.len(), t));
    assert forall|i: int| 0 <= i < nodes.len() implies ((#[trigger] nodes[i]).belief matches Some(
        b,
    ) ==> p(b.tower_id, b.emitted_at_round)) by {
        if let Some(b) = nodes[i].belief {
            assert(was_news(nodes, state, b.tower_id, b.emitted_at_round));
        }
    }
    lemma_hunt_keeps(nodes, state, fleet, topo, params, round, draws, p);
}

// ---------------------------------------------------------------------------
// The ring, and silence
// ---------------------------------------------------------------------------

/// Whether a request on the air is within the ring it was given.
pub open spec fn within_ring(req: Rreq, params: DvDtnParams) -> bool {
    req.hops == 0 || req.hops < aodv_round::nearer(req.ttl, params.beacon_max_hops)
}

proof fn lemma_ring(
    g: Asking,
    nodes: Seq<NodeModel>,
    fleet: Seq<Balloon>,
    topo: Topology,
    params: DvDtnParams,
    round: u64,
    awake: Seq<usize>,
    k: nat,
)
    requires
        forall|j: int| 0 <= j < g.calls.len() ==> within_ring((#[trigger] g.calls[j]).req, params),
    ensures
        ({
            let after = aodv_round::all_asked(g, nodes, fleet, topo, params, round, awake, k);
            forall|j: int|
                0 <= j < after.calls.len() ==> within_ring((#[trigger] after.calls[j]).req, params)
        }),
    decreases k,
{
    if k > 0 {
        lemma_ring(g, nodes, fleet, topo, params, round, awake, (k - 1) as nat);
        let before = aodv_round::all_asked(
            g,
            nodes,
            fleet,
            topo,
            params,
            round,
            awake,
            (k - 1) as nat,
        );
        let after = aodv_round::all_asked(g, nodes, fleet, topo, params, round, awake, k);
        assert forall|j: int| 0 <= j < after.calls.len() implies within_ring(
            (#[trigger] after.calls[j]).req,
            params,
        ) by {
            if j < before.calls.len() {
                assert(after.calls[j] == before.calls[j]);
            }
        }
    }
}

/// A request stays in its ring: one that has been passed on has made fewer
/// hops than its requester allowed, and than the hop limit. With a ring of one
/// hop it reaches direct neighbours and is never passed on.
pub proof fn a_request_stays_in_its_ring(
    nodes: Seq<NodeModel>,
    state: Seq<AodvModel>,
    fleet: Seq<Balloon>,
    topo: Topology,
    params: DvDtnParams,
    round: u64,
    draws: Seq<u64>,
)
    ensures
        ({
            let calls = aodv_round::on_air(
                nodes,
                state,
                fleet,
                topo,
                params,
                round,
                draws,
            ).calls;
            forall|j: int|
                0 <= j < calls.len() ==> within_ring((#[trigger] calls[j]).req, params)
        }),
{
    let kept = aodv_round::fitted(state, nodes.len());
    let settled = Seq::new(kept.len(), |i: int| aodv_round::resigned(kept[i], params, round));
    let live = beacon::all_forgetful(nodes, round, params.belief_max_age_rounds);
    let awake = beacon::awake_of(live, live.len(), round);
    let woken = beacon::all_rescheduled(live, params, round, draws);
    lemma_ring(
        Asking { state: settled, calls: Seq::empty(), answers: Seq::empty() },
        woken,
        fleet,
        topo,
        params,
        round,
        awake,
        awake.len(),
    );
}

/// The ring widens: an attempt that goes unanswered for too long makes the next
/// one reach twice as far, up to the hop limit, and a node may then ask again.
pub proof fn an_unanswered_ring_widens(a: AodvModel, params: DvDtnParams, round: u64)
    requires
        params.ring_search == RingSearch::Expanding,
        a.pending matches Some(p) && super::bundle::rounds_since(p.issued_at, round)
            > aodv_round::patience(params, p.ttl) && 1 <= p.ttl <= params.beacon_max_hops,
    ensures
        ({
            let after = aodv_round::resigned(a, params, round);
            let ttl = a.pending->Some_0.ttl;
            &&& after.pending is None
            &&& aodv_round::ring(after, params) == (if 2 * ttl < params.beacon_max_hops {
                2 * ttl
            } else {
                params.beacon_max_hops as int
            })
            &&& ttl < params.beacon_max_hops ==> aodv_round::ring(after, params) > ttl
        }),
{
}

proof fn lemma_no_calls(
    g: Asking,
    nodes: Seq<NodeModel>,
    fleet: Seq<Balloon>,
    topo: Topology,
    params: DvDtnParams,
    round: u64,
    awake: Seq<usize>,
    k: nat,
)
    requires
        k <= awake.len(),
        g.calls.len() == 0,
        g.state.len() == nodes.len(),
        forall|a: int| 0 <= a < awake.len() ==> (#[trigger] awake[a]) < nodes.len(),
        forall|i: int| 0 <= i < nodes.len() ==> (#[trigger] nodes[i]).queue.len() == 0,
        forall|i: int| 0 <= i < g.state.len() ==> (#[trigger] g.state[i]).to_forward.len() == 0,
    ensures
        ({
            let after = aodv_round::all_asked(g, nodes, fleet, topo, params, round, awake, k);
            &&& after.calls.len() == 0
            &&& after.state.len() == nodes.len()
            &&& forall|i: int|
                0 <= i < after.state.len() ==> (#[trigger] after.state[i]).to_forward.len() == 0
        }),
    decreases k,
{
    if k > 0 {
        lemma_no_calls(g, nodes, fleet, topo, params, round, awake, (k - 1) as nat);
        assert(awake[k - 1] < nodes.len());
        assert(nodes[awake[k - 1] as int].queue.len() == 0);
    }
}

/// Whether only replies were sent.
pub open spec fn only_replies(events: Seq<CommsEvent>) -> bool {
    forall|j: int| 0 <= j < events.len() ==> (#[trigger] events[j]).kind == EventKind::RouteReply
}

proof fn lemma_overhearing_is_silent(
    h: Hunt,
    fleet: Seq<Balloon>,
    topo: Topology,
    params: DvDtnParams,
    round: u64,
    w: Answer,
    k: nat,
)
    ensures
        aodv_round::all_overheard(h, fleet, topo, params, round, w, k).events == h.events,
    decreases k,
{
    if k > 0 {
        lemma_overhearing_is_silent(h, fleet, topo, params, round, w, (k - 1) as nat);
    }
}

proof fn lemma_replies_only(
    h: Hunt,
    fleet: Seq<Balloon>,
    topo: Topology,
    params: DvDtnParams,
    round: u64,
    answers: Seq<Answer>,
    k: nat,
)
    requires
        only_replies(h.events),
    ensures
        only_replies(
            aodv_round::all_replies(h, fleet, topo, params, round, answers, k).events,
        ),
    decreases k,
{
    if k > 0 {
        lemma_replies_only(h, fleet, topo, params, round, answers, (k - 1) as nat);
        let before = aodv_round::all_replies(h, fleet, topo, params, round, answers, (k - 1) as nat);
        let w = answers[k - 1];
        if w.to < before.nodes.len() {
            lemma_overhearing_is_silent(
                aodv_round::reply_taken(before, fleet, params, w),
                fleet,
                topo,
                params,
                round,
                w,
                topo.neighbors_of(w.from).len(),
            );
        }
    }
}

/// No bundle means no questions: with nothing to send and no request waiting
/// to be passed on, no request is sent.
pub proof fn no_bundle_means_no_requests(
    nodes: Seq<NodeModel>,
    state: Seq<AodvModel>,
    fleet: Seq<Balloon>,
    topo: Topology,
    params: DvDtnParams,
    round: u64,
    draws: Seq<u64>,
)
    requires
        nodes.len() <= usize::MAX,
        forall|i: int| 0 <= i < nodes.len() ==> (#[trigger] nodes[i]).queue.len() == 0,
        forall|i: int| 0 <= i < state.len() ==> (#[trigger] state[i]).to_forward.len() == 0,
    ensures
        only_replies(
            aodv_round::hunt_round(nodes, state, fleet, topo, params, round, draws).events,
        ),
{
    let n = nodes.len();
    let kept = aodv_round::fitted(state, n);
    let settled = Seq::new(kept.len(), |i: int| aodv_round::resigned(kept[i], params, round));
    let live = beacon::all_forgetful(nodes, round, params.belief_max_age_rounds);
    let awake = beacon::awake_of(live, live.len(), round);
    let woken = beacon::all_rescheduled(live, params, round, draws);
    linkstate::lemma_awake_rises(live, n, round);
    assert forall|i: int| 0 <= i < n implies (#[trigger] woken[i]).queue.len() == 0 by {
        assert(nodes[i].queue.len() == 0);
    }
    assert forall|i: int| 0 <= i < n implies (#[trigger] settled[i]).to_forward.len() == 0 by {
        if i < state.len() {
            assert(state[i].to_forward.len() == 0);
        }
    }
    let g0 = Asking { state: settled, calls: Seq::empty(), answers: Seq::empty() };
    lemma_no_calls(g0, woken, fleet, topo, params, round, awake, awake.len());
    let g = aodv_round::on_air(nodes, state, fleet, topo, params, round, draws);
    let h0 = Hunt { nodes: woken, state: g.state, events: Seq::empty() };
    let h1 = aodv_round::all_calls(h0, fleet, topo, params, round, g.calls, g.calls.len());
    lemma_replies_only(h1, fleet, topo, params, round, g.answers, g.answers.len());
}

} // verus!
