//! What reactive discovery gets done: who asks, who hears, who answers, and what
//! an answer is worth to whoever it reaches.
use vstd::prelude::*;

use crate::balloon::Balloon;
use crate::link_detection::NodeKey;
use crate::mesh_adjacency::Topology;
use crate::protocol::{CommsEvent, EventKind};

use super::adoption_laws;
use super::aodv::{Pending, Rrep, Rreq};
use super::aodv_round;
use super::aodv_round::{Answer, AodvModel, Asking, Call, Hunt};
use super::beacon;
use super::beacon::RouteBelief;
use super::params::{DvDtnParams, ReplyOverhearing, ReplyPolicy, RingSearch};
use super::wake_laws;
use super::NodeModel;

verus! {

// ---------------------------------------------------------------------------
// Giving up
// ---------------------------------------------------------------------------

/// How many rounds an attempt may go unanswered: as long as a belief lasts, or
/// under an expanding ring as long as a request takes to the edge of the ring
/// and an answer takes back, at one hop for each wake slot.
pub open spec fn rounds_to_wait(params: DvDtnParams, ttl: u32) -> int {
    match params.ring_search {
        RingSearch::Max => params.belief_max_age_rounds as int,
        RingSearch::Expanding => (2 * ttl + 1) * params.beacon_interval_rounds,
    }
}

/// Whether an attempt has gone unanswered for too long.
pub open spec fn overdue(p: Pending, params: DvDtnParams, round: u64) -> bool {
    round - p.issued_at > rounds_to_wait(params, p.ttl)
}

/// An unanswered attempt is given up in time, and no sooner: once it has been out
/// for longer than it may, nothing is pending any more and the next attempt may
/// go twice as far; until then nothing changes. Nothing else is given up.
pub proof fn an_attempt_is_given_up_in_time(a: AodvModel, params: DvDtnParams, round: u64)
    ensures
        ({
            let after = aodv_round::resigned(a, params, round);
            &&& (a.pending matches Some(p) && overdue(p, params, round)) ==> {
                let ttl = a.pending->Some_0.ttl;
                &&& after.pending is None
                &&& 2 * ttl <= params.beacon_max_hops ==> after.next_ttl == 2 * ttl
                &&& 2 * ttl > params.beacon_max_hops ==> after.next_ttl == params.beacon_max_hops
            }
            &&& !(a.pending matches Some(p) && overdue(p, params, round)) ==> after.pending
                == a.pending && after.next_ttl == a.next_ttl
            &&& after.reverse == a.reverse
            &&& after.to_forward == a.to_forward
            &&& after.replies == a.replies
            &&& after.next_rreq_id == a.next_rreq_id
        }),
{
    if let Some(p) = a.pending {
        assert((2 * p.ttl + 1) * params.beacon_interval_rounds >= 0) by (nonlinear_arith);
    }
}

// ---------------------------------------------------------------------------
// What is on the air
// ---------------------------------------------------------------------------

/// What a node knows, if it is not new.
pub open spec fn known_of(state: Seq<AodvModel>, i: int) -> AodvModel {
    if i < state.len() {
        state[i]
    } else {
        AodvModel {
            reverse: Map::empty(),
            to_forward: Seq::empty(),
            replies: Seq::empty(),
            next_ttl: 0,
            pending: None,
            next_rreq_id: 0,
        }
    }
}

/// Whether a node believes something that is not too old.
pub open spec fn knows_a_way(n: NodeModel, params: DvDtnParams, round: u64) -> bool {
    n.belief matches Some(b) && round <= b.emitted_at_round + params.belief_max_age_rounds
}

proof fn lemma_asking_keeps(
    g: Asking,
    nodes: Seq<NodeModel>,
    fleet: Seq<Balloon>,
    topo: Topology,
    params: DvDtnParams,
    round: u64,
    awake: Seq<usize>,
    s: nat,
    k: nat,
)
    requires
        s <= k <= awake.len(),
        forall|a: int| 0 <= a < awake.len() ==> (#[trigger] awake[a]) < g.state.len(),
    ensures
        ({
            let a = aodv_round::all_asked(g, nodes, fleet, topo, params, round, awake, s);
            let b = aodv_round::all_asked(g, nodes, fleet, topo, params, round, awake, k);
            &&& a.calls.is_prefix_of(b.calls)
            &&& a.answers.is_prefix_of(b.answers)
            &&& b.state.len() == g.state.len()
            &&& forall|i: int|
                0 <= i < g.state.len() && (forall|x: int|
                    s <= x < k ==> #[trigger] awake[x] != i) ==> #[trigger] b.state[i]
                    == a.state[i]
            &&& forall|i: int|
                0 <= i < g.state.len() ==> (#[trigger] b.state[i]).reverse == g.state[i].reverse
        }),
    decreases k,
{
    if s < k {
        lemma_asking_keeps(g, nodes, fleet, topo, params, round, awake, s, (k - 1) as nat);
        let a = aodv_round::all_asked(g, nodes, fleet, topo, params, round, awake, s);
        let c = aodv_round::all_asked(g, nodes, fleet, topo, params, round, awake, (k - 1) as nat);
        let b = aodv_round::all_asked(g, nodes, fleet, topo, params, round, awake, k);
        assert(awake[k - 1] < g.state.len());
        assert forall|i: int|
            0 <= i < g.state.len() && (forall|x: int|
                s <= x < k ==> #[trigger] awake[x] != i) implies #[trigger] b.state[i]
            == a.state[i] by {
            assert(awake[k - 1] != i);
            assert(c.state[i] == a.state[i]);
        }
    } else if k > 0 {
        lemma_asking_keeps(
            g,
            nodes,
            fleet,
            topo,
            params,
            round,
            awake,
            (k - 1) as nat,
            (k - 1) as nat,
        );
        assert(awake[k - 1] < g.state.len());
    }
}

/// What a waking balloon does with its slot, as it shows on the air: it passes a
/// reply back if it has one and the way back is in range; else it passes a
/// request on if it has one that may go further; else, with something to send,
/// no way to send it and no attempt out, it asks.
pub open spec fn slot_used(
    calls: Seq<Call>,
    answers: Seq<Answer>,
    n: NodeModel,
    a: AodvModel,
    id: u32,
    near: Seq<u32>,
    params: DvDtnParams,
    round: u64,
    i: int,
) -> bool {
    let free = match a.pending {
        Some(p) => overdue(p, params, round),
        None => true,
    };
    if a.replies.len() > 0 {
        let reply = a.replies.last();
        let key = aodv_round::flood_key(reply.requester, reply.id);
        reply.requester != id && a.reverse.contains_key(key) && near.contains(a.reverse[key])
            ==> answers.contains(Answer { from: i, to: a.reverse[key], reply })
    } else if a.to_forward.len() > 0 {
        let req = a.to_forward.last();
        req.hops + 1 < req.ttl && req.hops + 1 < params.beacon_max_hops ==> calls.contains(
            Call { from: i, req: Rreq { hops: (req.hops + 1) as u32, ..req } },
        )
    } else {
        n.queue.len() > 0 && !knows_a_way(n, params, round) && free ==> exists|ttl: u32|
            {
                &&& #[trigger] calls.contains(
                    Call { from: i, req: Rreq { requester: id, id: a.next_rreq_id, hops: 0, ttl } },
                )
                &&& params.ring_search == RingSearch::Max ==> ttl == params.beacon_max_hops
                &&& params.ring_search == RingSearch::Expanding && params.beacon_max_hops >= 1
                    ==> 1 <= ttl <= params.beacon_max_hops
                &&& params.ring_search == RingSearch::Expanding && params.beacon_max_hops >= 1
                    && a.pending is None && a.next_ttl <= 1 ==> ttl == 1
            }
    }
}

/// Nobody awake lets a slot go to waste: every balloon that wakes passes a reply
/// back, or passes a request on, or asks for the route that it needs and lacks.
pub proof fn a_waking_balloon_uses_its_slot(
    nodes: Seq<NodeModel>,
    state: Seq<AodvModel>,
    fleet: Seq<Balloon>,
    topo: Topology,
    params: DvDtnParams,
    round: u64,
    draws: Seq<u64>,
    i: int,
)
    requires
        0 <= i < nodes.len() <= usize::MAX,
        round >= nodes[i].next_beacon_round,
    ensures
        ({
            let g = aodv_round::on_air(nodes, state, fleet, topo, params, round, draws);
            slot_used(
                g.calls,
                g.answers,
                nodes[i],
                known_of(state, i),
                fleet[i].id,
                topo.neighbors_of(i),
                params,
                round,
                i,
            )
        }),
{
    let kept = aodv_round::fitted(state, nodes.len());
    let settled = Seq::new(kept.len(), |i: int| aodv_round::resigned(kept[i], params, round));
    let live = beacon::all_forgetful(nodes, round, params.belief_max_age_rounds);
    let awake = beacon::awake_of(live, live.len(), round);
    let woken = beacon::all_rescheduled(live, params, round, draws);
    let g0 = Asking { state: settled, calls: Seq::empty(), answers: Seq::empty() };
    assert(live[i].next_beacon_round == nodes[i].next_beacon_round);
    wake_laws::all_who_are_due_wake(live, live.len(), round);
    let x = awake.index_of(i as usize);
    assert(awake[x] == i);
    let before = aodv_round::all_asked(
        g0,
        woken,
        fleet,
        topo,
        params,
        round,
        awake,
        x as nat,
    );
    let after = aodv_round::all_asked(
        g0,
        woken,
        fleet,
        topo,
        params,
        round,
        awake,
        (x + 1) as nat,
    );
    let g = aodv_round::on_air(nodes, state, fleet, topo, params, round, draws);
    lemma_asking_keeps(g0, woken, fleet, topo, params, round, awake, 0, x as nat);
    lemma_asking_keeps(
        g0,
        woken,
        fleet,
        topo,
        params,
        round,
        awake,
        (x + 1) as nat,
        awake.len(),
    );
    assert forall|y: int| 0 <= y < x implies #[trigger] awake[y] != i by {
        assert(awake[y] < awake[x]);
    }
    assert(before.state[i] == settled[i]);
    let a = known_of(state, i);
    assert(kept[i] == a);
    an_attempt_is_given_up_in_time(a, params, round);
    let b = before.state[i];
    assert(b.replies == a.replies && b.to_forward == a.to_forward && b.reverse == a.reverse);
    assert(woken[i].queue == nodes[i].queue);
    assert(woken[i].belief is None <==> !knows_a_way(nodes[i], params, round));
    if after.calls.len() > before.calls.len() {
        let last = after.calls.len() - 1;
        assert(g.calls[last] == after.calls[last]);
        assert(g.calls.contains(after.calls[last]));
    }
    if after.answers.len() > before.answers.len() {
        let last = after.answers.len() - 1;
        assert(g.answers[last] == after.answers[last]);
        assert(g.answers.contains(after.answers[last]));
    }
}

// ---------------------------------------------------------------------------
// What a request gets done
// ---------------------------------------------------------------------------

/// Whether a later state of affairs has all of the ways back, replies and
/// requests of an earlier one.
spec fn more_known(a: Hunt, b: Hunt) -> bool {
    &&& a.state.len() == b.state.len()
    &&& a.nodes.len() == b.nodes.len()
    &&& a.events.is_prefix_of(b.events)
    &&& forall|i: int|
        0 <= i < a.state.len() ==> {
            &&& a.state[i].reverse.submap_of((#[trigger] b.state[i]).reverse)
            &&& a.state[i].replies.is_prefix_of(b.state[i].replies)
            &&& a.state[i].to_forward.is_prefix_of(b.state[i].to_forward)
        }
}

proof fn lemma_more_known_on(a: Hunt, b: Hunt, c: Hunt)
    requires
        more_known(a, b),
        more_known(b, c),
    ensures
        more_known(a, c),
{
    assert forall|i: int| 0 <= i < a.state.len() implies {
        &&& a.state[i].reverse.submap_of((#[trigger] c.state[i]).reverse)
        &&& a.state[i].replies.is_prefix_of(c.state[i].replies)
        &&& a.state[i].to_forward.is_prefix_of(c.state[i].to_forward)
    } by {
        let (x, y, z) = (a.state[i], b.state[i], c.state[i]);
        assert(x.replies.is_prefix_of(y.replies) && y.replies.is_prefix_of(z.replies));
        assert(x.to_forward.is_prefix_of(y.to_forward) && y.to_forward.is_prefix_of(
            z.to_forward,
        ));
        assert(x.reverse.submap_of(y.reverse) && y.reverse.submap_of(z.reverse));
        assert(x.replies =~= z.replies.subrange(0, x.replies.len() as int));
        assert(x.to_forward =~= z.to_forward.subrange(0, x.to_forward.len() as int));
        assert forall|k: u128| #[trigger] x.reverse.contains_key(k) implies z.reverse.contains_key(
            k,
        ) && z.reverse[k] == x.reverse[k] by {
            assert(y.reverse.contains_key(k) && y.reverse[k] == x.reverse[k]);
        }
    }
}

proof fn lemma_call_heard_adds(
    h: Hunt,
    fleet: Seq<Balloon>,
    topo: Topology,
    params: DvDtnParams,
    round: u64,
    c: Call,
    nb: u32,
)
    requires
        h.nodes.len() == h.state.len(),
    ensures
        more_known(h, aodv_round::call_heard(h, fleet, topo, params, round, c, nb)),
        aodv_round::call_heard(h, fleet, topo, params, round, c, nb).nodes == h.nodes,
{
}

proof fn lemma_spread_adds(
    h: Hunt,
    fleet: Seq<Balloon>,
    topo: Topology,
    params: DvDtnParams,
    round: u64,
    c: Call,
    s: nat,
    k: nat,
)
    requires
        h.nodes.len() == h.state.len(),
        s <= k <= topo.neighbors_of(c.from).len(),
    ensures
        more_known(
            aodv_round::call_spread(h, fleet, topo, params, round, c, s),
            aodv_round::call_spread(h, fleet, topo, params, round, c, k),
        ),
        aodv_round::call_spread(h, fleet, topo, params, round, c, k).state.len() == h.state.len(),
        aodv_round::call_spread(h, fleet, topo, params, round, c, k).nodes == h.nodes,
    decreases k,
{
    let b = aodv_round::call_spread(h, fleet, topo, params, round, c, k);
    if s < k {
        lemma_spread_adds(h, fleet, topo, params, round, c, s, (k - 1) as nat);
        let a = aodv_round::call_spread(h, fleet, topo, params, round, c, s);
        let m = aodv_round::call_spread(h, fleet, topo, params, round, c, (k - 1) as nat);
        let nb = topo.neighbors_of(c.from)[k - 1];
        lemma_call_heard_adds(m, fleet, topo, params, round, c, nb);
        lemma_more_known_on(a, m, b);
    } else if k > 0 {
        lemma_spread_adds(h, fleet, topo, params, round, c, (k - 1) as nat, (k - 1) as nat);
    }
}

proof fn lemma_calls_add(
    h: Hunt,
    fleet: Seq<Balloon>,
    topo: Topology,
    params: DvDtnParams,
    round: u64,
    calls: Seq<Call>,
    s: nat,
    k: nat,
)
    requires
        h.nodes.len() == h.state.len(),
        s <= k <= calls.len(),
    ensures
        more_known(
            aodv_round::all_calls(h, fleet, topo, params, round, calls, s),
            aodv_round::all_calls(h, fleet, topo, params, round, calls, k),
        ),
        aodv_round::all_calls(h, fleet, topo, params, round, calls, k).state.len()
            == h.state.len(),
        aodv_round::all_calls(h, fleet, topo, params, round, calls, k).nodes == h.nodes,
    decreases k,
{
    if k > 0 {
        let m = aodv_round::all_calls(h, fleet, topo, params, round, calls, (k - 1) as nat);
        let b = aodv_round::all_calls(h, fleet, topo, params, round, calls, k);
        let c = calls[k - 1];
        let len = topo.neighbors_of(c.from).len();
        if s < k {
            lemma_calls_add(h, fleet, topo, params, round, calls, s, (k - 1) as nat);
            let a = aodv_round::all_calls(h, fleet, topo, params, round, calls, s);
            lemma_spread_adds(m, fleet, topo, params, round, c, 0, len);
            lemma_more_known_on(a, m, b);
        } else {
            lemma_calls_add(h, fleet, topo, params, round, calls, (k - 1) as nat, (k - 1) as nat);
            lemma_spread_adds(m, fleet, topo, params, round, c, 0, len);
        }
    }
}

/// Whether a balloon that heard a request for the first time is about to do
/// something for it: answer from a tower in range, now; answer from a way that
/// it knows, dated as that is; or pass the request on.
pub open spec fn takes_up(
    after: AodvModel,
    n: NodeModel,
    seen: Option<u32>,
    params: DvDtnParams,
    round: u64,
    requester: u32,
    id: u64,
) -> bool {
    match seen {
        Some(tower_id) => after.replies.contains(
            Rrep { requester, id, tower_id, hops: 1, emitted_at_round: round },
        ),
        None => if knows_a_way(n, params, round) && params.reply_policy
            == ReplyPolicy::Intermediate {
            let b = n.belief->Some_0;
            after.replies.contains(
                Rrep {
                    requester,
                    id,
                    tower_id: b.tower_id,
                    hops: b.hop_count,
                    emitted_at_round: b.emitted_at_round,
                },
            )
        } else {
            exists|r: Rreq|
                #[trigger] after.to_forward.contains(r) && r.requester == requester && r.id == id
        },
    }
}

/// Whether something has been taken up by node `nb` for every request whose way
/// back it has come to know.
spec fn all_taken_up(
    h: Hunt,
    first: Seq<AodvModel>,
    topo: Topology,
    params: DvDtnParams,
    round: u64,
    nb: int,
    requester: u32,
    id: u64,
) -> bool {
    let key = aodv_round::flood_key(requester, id);
    h.state[nb].reverse.contains_key(key) && !first[nb].reverse.contains_key(key) ==> takes_up(
        h.state[nb],
        h.nodes[nb],
        topo.tower_of(nb),
        params,
        round,
        requester,
        id,
    )
}

proof fn lemma_more_taken_up(
    a: Hunt,
    b: Hunt,
    n: NodeModel,
    topo: Topology,
    params: DvDtnParams,
    round: u64,
    nb: int,
    requester: u32,
    id: u64,
)
    requires
        more_known(a, b),
        0 <= nb < a.state.len(),
        takes_up(a.state[nb], n, topo.tower_of(nb), params, round, requester, id),
    ensures
        takes_up(b.state[nb], n, topo.tower_of(nb), params, round, requester, id),
{
    let (x, y) = (a.state[nb], b.state[nb]);
    assert(x.replies.is_prefix_of(y.replies) && x.to_forward.is_prefix_of(y.to_forward));
    assert forall|r: Rrep| x.replies.contains(r) implies y.replies.contains(r) by {
        let j = x.replies.index_of(r);
        assert(y.replies[j] == r);
    }
    assert forall|r: Rreq| x.to_forward.contains(r) implies y.to_forward.contains(r) by {
        let j = x.to_forward.index_of(r);
        assert(y.to_forward[j] == r);
    }
    if topo.tower_of(nb) is None && !(knows_a_way(n, params, round) && params.reply_policy
        == ReplyPolicy::Intermediate) {
        let r = choose|r: Rreq|
            #[trigger] x.to_forward.contains(r) && r.requester == requester && r.id == id;
        assert(y.to_forward.contains(r));
    }
}

proof fn lemma_heard_taken_up(
    h: Hunt,
    first: Seq<AodvModel>,
    fleet: Seq<Balloon>,
    topo: Topology,
    params: DvDtnParams,
    round: u64,
    c: Call,
    x: u32,
    nb: int,
    requester: u32,
    id: u64,
)
    requires
        h.nodes.len() == h.state.len(),
        0 <= nb < h.state.len(),
        h.nodes[nb].belief is Some ==> knows_a_way(h.nodes[nb], params, round),
        all_taken_up(h, first, topo, params, round, nb, requester, id),
    ensures
        all_taken_up(
            aodv_round::call_heard(h, fleet, topo, params, round, c, x),
            first,
            topo,
            params,
            round,
            nb,
            requester,
            id,
        ),
{
    let b = aodv_round::call_heard(h, fleet, topo, params, round, c, x);
    let key = aodv_round::flood_key(requester, id);
    lemma_call_heard_adds(h, fleet, topo, params, round, c, x);
    if h.state[nb].reverse.contains_key(key) {
        if !first[nb].reverse.contains_key(key) {
            lemma_more_taken_up(h, b, h.nodes[nb], topo, params, round, nb, requester, id);
        }
    } else if b.state[nb].reverse.contains_key(key) {
        super::aodv_laws::floods_are_told_apart(requester, id, c.req.requester, c.req.id);
        assert(c.req.requester == requester && c.req.id == id);
        let (was, now) = (h.state[nb], b.state[nb]);
        if now.replies.len() > was.replies.len() {
            assert(now.replies[now.replies.len() - 1] == now.replies.last());
            assert(now.replies.contains(now.replies.last()));
        }
        if now.to_forward.len() > was.to_forward.len() {
            assert(now.to_forward[now.to_forward.len() - 1] == c.req);
            assert(now.to_forward.contains(c.req));
        }
    }
}

proof fn lemma_spread_taken_up(
    h: Hunt,
    first: Seq<AodvModel>,
    fleet: Seq<Balloon>,
    topo: Topology,
    params: DvDtnParams,
    round: u64,
    c: Call,
    k: nat,
    nb: int,
    requester: u32,
    id: u64,
)
    requires
        h.nodes.len() == h.state.len(),
        0 <= nb < h.state.len(),
        k <= topo.neighbors_of(c.from).len(),
        h.nodes[nb].belief is Some ==> knows_a_way(h.nodes[nb], params, round),
        all_taken_up(h, first, topo, params, round, nb, requester, id),
    ensures
        all_taken_up(
            aodv_round::call_spread(h, fleet, topo, params, round, c, k),
            first,
            topo,
            params,
            round,
            nb,
            requester,
            id,
        ),
    decreases k,
{
    if k > 0 {
        lemma_spread_taken_up(
            h,
            first,
            fleet,
            topo,
            params,
            round,
            c,
            (k - 1) as nat,
            nb,
            requester,
            id,
        );
        lemma_spread_adds(h, fleet, topo, params, round, c, 0, (k - 1) as nat);
        let m = aodv_round::call_spread(h, fleet, topo, params, round, c, (k - 1) as nat);
        lemma_heard_taken_up(
            m,
            first,
            fleet,
            topo,
            params,
            round,
            c,
            topo.neighbors_of(c.from)[k - 1],
            nb,
            requester,
            id,
        );
    }
}

proof fn lemma_calls_taken_up(
    h: Hunt,
    fleet: Seq<Balloon>,
    topo: Topology,
    params: DvDtnParams,
    round: u64,
    calls: Seq<Call>,
    k: nat,
    nb: int,
    requester: u32,
    id: u64,
)
    requires
        h.nodes.len() == h.state.len(),
        0 <= nb < h.state.len(),
        k <= calls.len(),
        h.nodes[nb].belief is Some ==> knows_a_way(h.nodes[nb], params, round),
    ensures
        all_taken_up(
            aodv_round::all_calls(h, fleet, topo, params, round, calls, k),
            h.state,
            topo,
            params,
            round,
            nb,
            requester,
            id,
        ),
    decreases k,
{
    if k > 0 {
        lemma_calls_taken_up(
            h,
            fleet,
            topo,
            params,
            round,
            calls,
            (k - 1) as nat,
            nb,
            requester,
            id,
        );
        lemma_calls_add(h, fleet, topo, params, round, calls, 0, (k - 1) as nat);
        let m = aodv_round::all_calls(h, fleet, topo, params, round, calls, (k - 1) as nat);
        let c = calls[k - 1];
        lemma_spread_taken_up(
            m,
            h.state,
            fleet,
            topo,
            params,
            round,
            c,
            topo.neighbors_of(c.from).len(),
            nb,
            requester,
            id,
        );
    }
}

proof fn lemma_overheard_adds(
    h: Hunt,
    fleet: Seq<Balloon>,
    topo: Topology,
    params: DvDtnParams,
    round: u64,
    w: Answer,
    k: nat,
)
    requires
        h.nodes.len() == h.state.len(),
        k <= topo.neighbors_of(w.from).len(),
    ensures
        more_known(h, aodv_round::all_overheard(h, fleet, topo, params, round, w, k)),
    decreases k,
{
    if k > 0 {
        lemma_overheard_adds(h, fleet, topo, params, round, w, (k - 1) as nat);
        let m = aodv_round::all_overheard(h, fleet, topo, params, round, w, (k - 1) as nat);
        let b = aodv_round::all_overheard(h, fleet, topo, params, round, w, k);
        assert(more_known(m, b));
        lemma_more_known_on(h, m, b);
    }
}

proof fn lemma_reply_adds(
    h: Hunt,
    fleet: Seq<Balloon>,
    topo: Topology,
    params: DvDtnParams,
    round: u64,
    w: Answer,
)
    requires
        h.nodes.len() == h.state.len(),
    ensures
        more_known(h, aodv_round::reply_arrived(h, fleet, topo, params, round, w)),
{
    if w.to < h.nodes.len() {
        let taken = aodv_round::reply_taken(h, fleet, params, w);
        assert(more_known(h, taken));
        let len = topo.neighbors_of(w.from).len();
        lemma_overheard_adds(taken, fleet, topo, params, round, w, len);
        lemma_more_known_on(
            h,
            taken,
            aodv_round::all_overheard(taken, fleet, topo, params, round, w, len),
        );
    }
}

proof fn lemma_replies_add(
    h: Hunt,
    fleet: Seq<Balloon>,
    topo: Topology,
    params: DvDtnParams,
    round: u64,
    answers: Seq<Answer>,
    s: nat,
    k: nat,
)
    requires
        h.nodes.len() == h.state.len(),
        s <= k <= answers.len(),
    ensures
        more_known(
            aodv_round::all_replies(h, fleet, topo, params, round, answers, s),
            aodv_round::all_replies(h, fleet, topo, params, round, answers, k),
        ),
        aodv_round::all_replies(h, fleet, topo, params, round, answers, k).state.len()
            == h.state.len(),
        aodv_round::all_replies(h, fleet, topo, params, round, answers, k).nodes.len()
            == h.nodes.len(),
    decreases k,
{
    if k > 0 {
        let m = aodv_round::all_replies(h, fleet, topo, params, round, answers, (k - 1) as nat);
        let b = aodv_round::all_replies(h, fleet, topo, params, round, answers, k);
        if s < k {
            lemma_replies_add(h, fleet, topo, params, round, answers, s, (k - 1) as nat);
            lemma_reply_adds(m, fleet, topo, params, round, answers[k - 1]);
            let a = aodv_round::all_replies(h, fleet, topo, params, round, answers, s);
            lemma_more_known_on(a, m, b);
        } else {
            lemma_replies_add(
                h,
                fleet,
                topo,
                params,
                round,
                answers,
                (k - 1) as nat,
                (k - 1) as nat,
            );
            lemma_reply_adds(m, fleet, topo, params, round, answers[k - 1]);
        }
    }
}

/// Whether these events show a request passing from one balloon to another.
pub open spec fn shows_request(events: Seq<CommsEvent>, from: u32, to: u32, req: Rreq) -> bool {
    events.contains(
        CommsEvent {
            kind: EventKind::RouteRequest,
            from: NodeKey::Balloon(from),
            to: NodeKey::Balloon(to),
            payload: 1,
            tower_id: None,
            hop_count: Some(req.hops),
            epoch: Some(req.id),
        },
    )
}

/// A request is heard all round, and does not go unheeded: every balloon in
/// earshot but the one that asks hears it and knows the way back from then on,
/// and one that hears it for the first time is about to answer it if it hears a
/// tower or knows a way and may tell, and to pass it on if not.
pub proof fn a_request_is_heard_and_taken_up(
    nodes: Seq<NodeModel>,
    state: Seq<AodvModel>,
    fleet: Seq<Balloon>,
    topo: Topology,
    params: DvDtnParams,
    round: u64,
    draws: Seq<u64>,
    x: int,
    nb: u32,
)
    requires
        nodes.len() <= usize::MAX,
        ({
            let g = aodv_round::on_air(nodes, state, fleet, topo, params, round, draws);
            &&& 0 <= x < g.calls.len()
            &&& topo.neighbors_of(g.calls[x].from).contains(nb)
            &&& nb != g.calls[x].req.requester
        }),
        nb < nodes.len(),
    ensures
        ({
            let c = aodv_round::on_air(nodes, state, fleet, topo, params, round, draws).calls[x];
            let key = aodv_round::flood_key(c.req.requester, c.req.id);
            let after = aodv_round::hunt_round(nodes, state, fleet, topo, params, round, draws);
            &&& shows_request(after.events, fleet[c.from].id, nb, c.req)
            &&& after.state[nb as int].reverse.contains_key(key)
            &&& !known_of(state, nb as int).reverse.contains_key(key) ==> takes_up(
                after.state[nb as int],
                nodes[nb as int],
                topo.tower_of(nb as int),
                params,
                round,
                c.req.requester,
                c.req.id,
            )
        }),
{
    let n = nodes.len();
    let i = nb as int;
    let kept = aodv_round::fitted(state, n);
    let settled = Seq::new(kept.len(), |i: int| aodv_round::resigned(kept[i], params, round));
    let live = beacon::all_forgetful(nodes, round, params.belief_max_age_rounds);
    let awake = beacon::awake_of(live, live.len(), round);
    let woken = beacon::all_rescheduled(live, params, round, draws);
    let g0 = Asking { state: settled, calls: Seq::empty(), answers: Seq::empty() };
    wake_laws::all_who_are_due_wake(live, live.len(), round);
    lemma_asking_keeps(g0, woken, fleet, topo, params, round, awake, 0, awake.len());
    let g = aodv_round::on_air(nodes, state, fleet, topo, params, round, draws);
    assert(g.state[i].reverse == settled[i].reverse);
    assert(kept[i] == known_of(state, i));
    let c = g.calls[x];
    let key = aodv_round::flood_key(c.req.requester, c.req.id);
    let h0 = Hunt { nodes: woken, state: g.state, events: Seq::empty() };
    let a = aodv_round::all_calls(h0, fleet, topo, params, round, g.calls, x as nat);
    let b = aodv_round::all_calls(h0, fleet, topo, params, round, g.calls, (x + 1) as nat);
    let h1 = aodv_round::all_calls(h0, fleet, topo, params, round, g.calls, g.calls.len());
    lemma_calls_add(h0, fleet, topo, params, round, g.calls, 0, x as nat);
    lemma_calls_add(h0, fleet, topo, params, round, g.calls, (x + 1) as nat, g.calls.len());
    let list = topo.neighbors_of(c.from);
    let y = list.index_of(nb);
    let p = aodv_round::call_spread(a, fleet, topo, params, round, c, y as nat);
    let q = aodv_round::call_spread(a, fleet, topo, params, round, c, (y + 1) as nat);
    lemma_spread_adds(a, fleet, topo, params, round, c, 0, y as nat);
    lemma_spread_adds(a, fleet, topo, params, round, c, (y + 1) as nat, list.len());
    assert(q == aodv_round::call_heard(p, fleet, topo, params, round, c, nb));
    lemma_more_known_on(q, b, h1);
    let h2 = aodv_round::all_replies(h1, fleet, topo, params, round, g.answers, g.answers.len());
    lemma_replies_add(h1, fleet, topo, params, round, g.answers, 0, g.answers.len());
    lemma_more_known_on(q, h1, h2);
    assert(q.state[i].reverse.contains_key(key));
    assert(q.state[i].reverse.submap_of(h2.state[i].reverse));
    let last = q.events.len() - 1;
    assert(h2.events[last] == q.events[last]);
    assert(h2.events.contains(q.events[last]));
    assert(woken[i].belief is Some ==> knows_a_way(woken[i], params, round));
    assert(knows_a_way(woken[i], params, round) <==> knows_a_way(nodes[i], params, round));
    lemma_calls_taken_up(
        h0,
        fleet,
        topo,
        params,
        round,
        g.calls,
        g.calls.len(),
        i,
        c.req.requester,
        c.req.id,
    );
    if !known_of(state, i).reverse.contains_key(key) {
        assert(h1.state[i].reverse.contains_key(key)) by {
            assert(q.state[i].reverse.submap_of(h1.state[i].reverse));
        }
        lemma_more_taken_up(
            h1,
            h2,
            woken[i],
            topo,
            params,
            round,
            i,
            c.req.requester,
            c.req.id,
        );
    }
}

// ---------------------------------------------------------------------------
// What a reply gets done
// ---------------------------------------------------------------------------

/// Whether balloon `to` has what a reply has to offer it: a route, and the end
/// of its search if it was the one that asked, or else the reply to pass on, one
/// hop further off.
pub open spec fn has_reply(h_nodes: Seq<NodeModel>, a: AodvModel, own: u32, to: int, r: Rrep) -> bool {
    &&& h_nodes[to].belief is Some
    &&& own == r.requester ==> a.pending is None
    &&& own != r.requester ==> a.replies.contains(Rrep { hops: (r.hops + 1) as u32, ..r })
}

proof fn lemma_overheard_keeps(
    h: Hunt,
    fleet: Seq<Balloon>,
    topo: Topology,
    params: DvDtnParams,
    round: u64,
    w: Answer,
    k: nat,
    to: int,
)
    requires
        h.nodes.len() == h.state.len(),
        0 <= to < h.nodes.len(),
        k <= topo.neighbors_of(w.from).len(),
    ensures
        ({
            let b = aodv_round::all_overheard(h, fleet, topo, params, round, w, k);
            &&& b.nodes.len() == h.nodes.len()
            &&& b.state.len() == h.state.len()
            &&& h.nodes[to].belief is Some ==> b.nodes[to].belief is Some
            &&& h.state[to].pending is None ==> b.state[to].pending is None
        }),
    decreases k,
{
    if k > 0 {
        lemma_overheard_keeps(h, fleet, topo, params, round, w, (k - 1) as nat, to);
    }
}

proof fn lemma_replies_keep(
    h: Hunt,
    fleet: Seq<Balloon>,
    topo: Topology,
    params: DvDtnParams,
    round: u64,
    answers: Seq<Answer>,
    s: nat,
    k: nat,
    to: int,
    date: u64,
    hops: int,
)
    requires
        h.nodes.len() == h.state.len(),
        0 <= to < h.nodes.len(),
        s <= k <= answers.len(),
    ensures
        ({
            let a = aodv_round::all_replies(h, fleet, topo, params, round, answers, s);
            let b = aodv_round::all_replies(h, fleet, topo, params, round, answers, k);
            &&& a.nodes[to].belief is Some ==> b.nodes[to].belief is Some
            &&& a.state[to].pending is None ==> b.state[to].pending is None
            &&& params.reply_overhearing == ReplyOverhearing::Off
                && adoption_laws::holds_as_good(a.nodes[to].belief, date, hops, params.metric)
                ==> adoption_laws::holds_as_good(b.nodes[to].belief, date, hops, params.metric)
        }),
    decreases k - s,
{
    if s < k {
        lemma_replies_keep(
            h,
            fleet,
            topo,
            params,
            round,
            answers,
            s,
            (k - 1) as nat,
            to,
            date,
            hops,
        );
        lemma_replies_add(h, fleet, topo, params, round, answers, 0, (k - 1) as nat);
        let m = aodv_round::all_replies(h, fleet, topo, params, round, answers, (k - 1) as nat);
        let w = answers[k - 1];
        if w.to < m.nodes.len() {
            let taken = aodv_round::reply_taken(m, fleet, params, w);
            lemma_overheard_keeps(
                taken,
                fleet,
                topo,
                params,
                round,
                w,
                topo.neighbors_of(w.from).len(),
                to,
            );
        }
    }
}

/// A reply reaches the balloon it is addressed to, and is worth what it says:
/// that balloon comes away with a route, as good as one hop further off than the
/// reply tells of and dated as it is; if it was the one that asked it has nothing
/// pending any more, and if not it has the reply to pass on. (A balloon that
/// listens in on others may yet prefer what it overhears.)
pub proof fn a_reply_installs_a_route(
    nodes: Seq<NodeModel>,
    state: Seq<AodvModel>,
    fleet: Seq<Balloon>,
    topo: Topology,
    params: DvDtnParams,
    round: u64,
    draws: Seq<u64>,
    x: int,
)
    requires
        nodes.len() <= usize::MAX,
        ({
            let g = aodv_round::on_air(nodes, state, fleet, topo, params, round, draws);
            0 <= x < g.answers.len() && g.answers[x].to < nodes.len() && g.answers[x].reply.hops
                < u32::MAX
        }),
    ensures
        ({
            let w = aodv_round::on_air(nodes, state, fleet, topo, params, round, draws).answers[x];
            let after = aodv_round::hunt_round(nodes, state, fleet, topo, params, round, draws);
            let to = w.to as int;
            &&& has_reply(after.nodes, after.state[to], fleet[to].id, to, w.reply)
            &&& params.reply_overhearing == ReplyOverhearing::Off ==> adoption_laws::holds_as_good(
                after.nodes[to].belief,
                w.reply.emitted_at_round,
                w.reply.hops + 1,
                params.metric,
            )
        }),
{
    let n = nodes.len();
    let kept = aodv_round::fitted(state, n);
    let settled = Seq::new(kept.len(), |i: int| aodv_round::resigned(kept[i], params, round));
    let live = beacon::all_forgetful(nodes, round, params.belief_max_age_rounds);
    let awake = beacon::awake_of(live, live.len(), round);
    let woken = beacon::all_rescheduled(live, params, round, draws);
    let g0 = Asking { state: settled, calls: Seq::empty(), answers: Seq::empty() };
    wake_laws::all_who_are_due_wake(live, live.len(), round);
    lemma_asking_keeps(g0, woken, fleet, topo, params, round, awake, 0, awake.len());
    let g = aodv_round::on_air(nodes, state, fleet, topo, params, round, draws);
    let h0 = Hunt { nodes: woken, state: g.state, events: Seq::empty() };
    lemma_calls_add(h0, fleet, topo, params, round, g.calls, 0, g.calls.len());
    let h1 = aodv_round::all_calls(h0, fleet, topo, params, round, g.calls, g.calls.len());
    let w = g.answers[x];
    let to = w.to as int;
    let a = aodv_round::all_replies(h1, fleet, topo, params, round, g.answers, x as nat);
    let b = aodv_round::all_replies(h1, fleet, topo, params, round, g.answers, (x + 1) as nat);
    let h2 = aodv_round::all_replies(h1, fleet, topo, params, round, g.answers, g.answers.len());
    lemma_replies_add(h1, fleet, topo, params, round, g.answers, 0, x as nat);
    lemma_replies_add(
        h1,
        fleet,
        topo,
        params,
        round,
        g.answers,
        (x + 1) as nat,
        g.answers.len(),
    );
    let taken = aodv_round::reply_taken(a, fleet, params, w);
    let len = topo.neighbors_of(w.from).len();
    lemma_overheard_keeps(taken, fleet, topo, params, round, w, len, to);
    lemma_overheard_adds(taken, fleet, topo, params, round, w, len);
    let passed = Rrep { hops: (w.reply.hops + 1) as u32, ..w.reply };
    if fleet[to].id != w.reply.requester {
        let last = taken.state[to].replies.len() - 1;
        assert(taken.state[to].replies[last] == passed);
        assert(b.state[to].replies[last] == passed) by {
            if params.reply_overhearing == ReplyOverhearing::On {
                assert(taken.state[to].replies.is_prefix_of(b.state[to].replies));
            }
        }
        assert(b.state[to].replies.is_prefix_of(h2.state[to].replies));
        assert(h2.state[to].replies[last] == passed);
    }
    lemma_replies_keep(
        h1,
        fleet,
        topo,
        params,
        round,
        g.answers,
        (x + 1) as nat,
        g.answers.len(),
        to,
        w.reply.emitted_at_round,
        w.reply.hops + 1,
    );
    let after = aodv_round::hunt_round(nodes, state, fleet, topo, params, round, draws);
    assert(after.nodes[to] == aodv_round::in_sight(h2.nodes[to], topo, params, round, to));
}

/// Whoever hears a tower knows it: after a round such a balloon holds a route as
/// good as one hop, dated now.
pub proof fn a_tower_in_sight_is_believed(
    nodes: Seq<NodeModel>,
    state: Seq<AodvModel>,
    fleet: Seq<Balloon>,
    topo: Topology,
    params: DvDtnParams,
    round: u64,
    draws: Seq<u64>,
    i: int,
)
    requires
        0 <= i < nodes.len() <= usize::MAX,
        topo.tower_of(i) is Some,
    ensures
        adoption_laws::holds_as_good(
            aodv_round::hunt_round(
                nodes,
                state,
                fleet,
                topo,
                params,
                round,
                draws,
            ).nodes[i].belief,
            round,
            1,
            params.metric,
        ),
{
    let n = nodes.len();
    let kept = aodv_round::fitted(state, n);
    let settled = Seq::new(kept.len(), |i: int| aodv_round::resigned(kept[i], params, round));
    let live = beacon::all_forgetful(nodes, round, params.belief_max_age_rounds);
    let awake = beacon::awake_of(live, live.len(), round);
    let woken = beacon::all_rescheduled(live, params, round, draws);
    let g0 = Asking { state: settled, calls: Seq::empty(), answers: Seq::empty() };
    wake_laws::all_who_are_due_wake(live, live.len(), round);
    lemma_asking_keeps(g0, woken, fleet, topo, params, round, awake, 0, awake.len());
    let g = aodv_round::on_air(nodes, state, fleet, topo, params, round, draws);
    let h0 = Hunt { nodes: woken, state: g.state, events: Seq::empty() };
    lemma_calls_add(h0, fleet, topo, params, round, g.calls, 0, g.calls.len());
    let h1 = aodv_round::all_calls(h0, fleet, topo, params, round, g.calls, g.calls.len());
    lemma_replies_add(h1, fleet, topo, params, round, g.answers, 0, g.answers.len());
    let h2 = aodv_round::all_replies(h1, fleet, topo, params, round, g.answers, g.answers.len());
    let after = aodv_round::hunt_round(nodes, state, fleet, topo, params, round, draws);
    assert(after.nodes[i] == aodv_round::in_sight(h2.nodes[i], topo, params, round, i));
}

/// Listening in shortens the way: a bystander that overhears a reply ends up with
/// a route that is no longer than the reply offers, and with nothing pending if
/// it took it; what it holds is left alone only if that is still good and no
/// longer.
pub proof fn listening_in_shortens_the_way(
    h: Hunt,
    fleet: Seq<Balloon>,
    params: DvDtnParams,
    round: u64,
    w: Answer,
    nb: u32,
)
    requires
        nb < h.nodes.len(),
        h.nodes.len() == h.state.len(),
        nb != w.to,
        w.reply.hops < u32::MAX,
    ensures
        ({
            let after = aodv_round::overheard(h, fleet, params, round, w, nb);
            let held = h.nodes[nb as int].belief;
            let now = after.nodes[nb as int].belief;
            &&& now matches Some(b) && b.hop_count <= w.reply.hops + 1
            &&& (knows_a_way(h.nodes[nb as int], params, round) && held->Some_0.hop_count
                <= w.reply.hops + 1) ==> after == h
            &&& now != held ==> {
                &&& now == Some(
                    RouteBelief {
                        tower_id: w.reply.tower_id,
                        hop_count: (w.reply.hops + 1) as u32,
                        next_hop: Some(fleet[w.from].id),
                        epoch: w.reply.id,
                        emitted_at_round: w.reply.emitted_at_round,
                    },
                )
                &&& after.state[nb as int].pending is None
            }
        }),
{
}

// ---------------------------------------------------------------------------
// Where a route comes from
// ---------------------------------------------------------------------------

/// Whether an answer was a node's to give, and to somebody that it hears.
spec fn sound_answer(w: Answer, state: Seq<AodvModel>, topo: Topology, n: nat) -> bool {
    &&& 0 <= w.from < n
    &&& known_of(state, w.from).replies.contains(w.reply)
    &&& topo.neighbors_of(w.from).contains(w.to)
}

/// Whether a route was offered by a neighbour with a reply in hand: by way of it
/// and one hop further off, and otherwise as the reply has it.
pub open spec fn from_reply(
    b: RouteBelief,
    state: Seq<AodvModel>,
    fleet: Seq<Balloon>,
    topo: Topology,
    n: nat,
    j: int,
) -> bool {
    exists|i: int, r: Rrep|
        {
            &&& 0 <= i < n
            &&& (#[trigger] topo.neighbors_of(i)).contains(j as u32)
            &&& #[trigger] known_of(state, i).replies.contains(r)
            &&& b == (RouteBelief {
                tower_id: r.tower_id,
                hop_count: (r.hops + 1) as u32,
                next_hop: Some(fleet[i].id),
                epoch: r.id,
                emitted_at_round: r.emitted_at_round,
            })
        }
}

proof fn lemma_answers_sound(
    g: Asking,
    nodes: Seq<NodeModel>,
    state: Seq<AodvModel>,
    fleet: Seq<Balloon>,
    topo: Topology,
    params: DvDtnParams,
    round: u64,
    awake: Seq<usize>,
    k: nat,
)
    requires
        k <= awake.len(),
        forall|a: int| 0 <= a < awake.len() ==> (#[trigger] awake[a]) < g.state.len(),
        g.answers.len() == 0,
        forall|i: int|
            0 <= i < g.state.len() ==> (#[trigger] g.state[i]).replies == known_of(
                state,
                i,
            ).replies,
    ensures
        ({
            let b = aodv_round::all_asked(g, nodes, fleet, topo, params, round, awake, k);
            &&& b.state.len() == g.state.len()
            &&& forall|x: int|
                0 <= x < b.answers.len() ==> sound_answer(
                    #[trigger] b.answers[x],
                    state,
                    topo,
                    g.state.len(),
                )
            &&& forall|i: int|
                0 <= i < g.state.len() ==> (#[trigger] b.state[i]).replies.is_prefix_of(
                    known_of(state, i).replies,
                )
        }),
    decreases k,
{
    if k > 0 {
        lemma_answers_sound(
            g,
            nodes,
            state,
            fleet,
            topo,
            params,
            round,
            awake,
            (k - 1) as nat,
        );
        let a = aodv_round::all_asked(g, nodes, fleet, topo, params, round, awake, (k - 1) as nat);
        let b = aodv_round::all_asked(g, nodes, fleet, topo, params, round, awake, k);
        let i = awake[k - 1] as int;
        assert(awake[k - 1] < g.state.len());
        let all = known_of(state, i).replies;
        assert(a.state[i].replies.is_prefix_of(all));
        if a.state[i].replies.len() > 0 {
            let last = a.state[i].replies.len() - 1;
            assert(all[last] == a.state[i].replies.last());
            assert(all.contains(a.state[i].replies.last()));
        }
        assert forall|x: int| 0 <= x < b.answers.len() implies sound_answer(
            #[trigger] b.answers[x],
            state,
            topo,
            g.state.len(),
        ) by {
            if x < a.answers.len() {
                assert(b.answers[x] == a.answers[x]);
            }
        }
        assert forall|y: int| 0 <= y < g.state.len() implies (
        #[trigger] b.state[y]).replies.is_prefix_of(known_of(state, y).replies) by {
            assert(a.state[y].replies.is_prefix_of(known_of(state, y).replies));
        }
    }
}

/// Whether what node `j` holds is what it held, or was offered by a neighbour.
spec fn explained(
    held: Option<RouteBelief>,
    now: Option<RouteBelief>,
    state: Seq<AodvModel>,
    fleet: Seq<Balloon>,
    topo: Topology,
    n: nat,
    j: int,
) -> bool {
    now == held || (now is Some && from_reply(now->Some_0, state, fleet, topo, n, j))
}

proof fn lemma_overheard_explained(
    h: Hunt,
    state: Seq<AodvModel>,
    fleet: Seq<Balloon>,
    topo: Topology,
    params: DvDtnParams,
    round: u64,
    w: Answer,
    k: nat,
    j: int,
    held: Option<RouteBelief>,
)
    requires
        h.nodes.len() == h.state.len(),
        0 <= j < h.nodes.len() <= u32::MAX,
        k <= topo.neighbors_of(w.from).len(),
        sound_answer(w, state, topo, h.nodes.len()),
        explained(held, h.nodes[j].belief, state, fleet, topo, h.nodes.len(), j),
    ensures
        ({
            let b = aodv_round::all_overheard(h, fleet, topo, params, round, w, k);
            &&& b.nodes.len() == h.nodes.len()
            &&& explained(held, b.nodes[j].belief, state, fleet, topo, h.nodes.len(), j)
        }),
    decreases k,
{
    if k > 0 {
        lemma_overheard_explained(
            h,
            state,
            fleet,
            topo,
            params,
            round,
            w,
            (k - 1) as nat,
            j,
            held,
        );
        let nb = topo.neighbors_of(w.from)[k - 1];
        assert(topo.neighbors_of(w.from).contains(nb));
        assert(known_of(state, w.from).replies.contains(w.reply));
    }
}

proof fn lemma_replies_explained(
    h: Hunt,
    state: Seq<AodvModel>,
    fleet: Seq<Balloon>,
    topo: Topology,
    params: DvDtnParams,
    round: u64,
    answers: Seq<Answer>,
    k: nat,
    j: int,
)
    requires
        h.nodes.len() == h.state.len(),
        0 <= j < h.nodes.len() <= u32::MAX,
        k <= answers.len(),
        forall|x: int|
            0 <= x < answers.len() ==> sound_answer(
                #[trigger] answers[x],
                state,
                topo,
                h.nodes.len(),
            ),
    ensures
        ({
            let b = aodv_round::all_replies(h, fleet, topo, params, round, answers, k);
            &&& b.nodes.len() == h.nodes.len()
            &&& explained(
                h.nodes[j].belief,
                b.nodes[j].belief,
                state,
                fleet,
                topo,
                h.nodes.len(),
                j,
            )
        }),
    decreases k,
{
    if k > 0 {
        lemma_replies_explained(
            h,
            state,
            fleet,
            topo,
            params,
            round,
            answers,
            (k - 1) as nat,
            j,
        );
        lemma_replies_add(h, fleet, topo, params, round, answers, 0, (k - 1) as nat);
        let m = aodv_round::all_replies(h, fleet, topo, params, round, answers, (k - 1) as nat);
        let w = answers[k - 1];
        assert(sound_answer(w, state, topo, h.nodes.len()));
        assert(known_of(state, w.from).replies.contains(w.reply));
        if w.to < m.nodes.len() {
            let taken = aodv_round::reply_taken(m, fleet, params, w);
            assert(topo.neighbors_of(w.from).contains(w.to));
            assert(explained(
                h.nodes[j].belief,
                taken.nodes[j].belief,
                state,
                fleet,
                topo,
                h.nodes.len(),
                j,
            ));
            lemma_overheard_explained(
                taken,
                state,
                fleet,
                topo,
                params,
                round,
                w,
                topo.neighbors_of(w.from).len(),
                j,
                h.nodes[j].belief,
            );
        }
    }
}

/// A route comes from somewhere: what a balloon holds after a round is what it
/// held and is not too old, or a tower that it hears, or what a neighbour with a
/// reply in hand has told, counted one hop further off and by way of that
/// neighbour.
pub proof fn a_route_comes_from_a_reply_or_a_tower(
    nodes: Seq<NodeModel>,
    state: Seq<AodvModel>,
    fleet: Seq<Balloon>,
    topo: Topology,
    params: DvDtnParams,
    round: u64,
    draws: Seq<u64>,
    j: int,
)
    requires
        0 <= j < nodes.len() <= usize::MAX,
        nodes.len() <= u32::MAX,
    ensures
        ({
            let after = aodv_round::hunt_round(nodes, state, fleet, topo, params, round, draws);
            after.nodes[j].belief matches Some(b) ==> {
                ||| nodes[j].belief == Some(b) && knows_a_way(nodes[j], params, round)
                ||| topo.tower_of(j) == Some(b.tower_id) && b.hop_count == 1 && b.next_hop is None
                    && b.emitted_at_round == round
                ||| from_reply(b, state, fleet, topo, nodes.len(), j)
            }
        }),
{
    let n = nodes.len();
    let kept = aodv_round::fitted(state, n);
    let settled = Seq::new(kept.len(), |i: int| aodv_round::resigned(kept[i], params, round));
    let live = beacon::all_forgetful(nodes, round, params.belief_max_age_rounds);
    let awake = beacon::awake_of(live, live.len(), round);
    let woken = beacon::all_rescheduled(live, params, round, draws);
    let g0 = Asking { state: settled, calls: Seq::empty(), answers: Seq::empty() };
    wake_laws::all_who_are_due_wake(live, live.len(), round);
    assert forall|i: int| 0 <= i < settled.len() implies (#[trigger] settled[i]).replies
        == known_of(state, i).replies by {
        an_attempt_is_given_up_in_time(kept[i], params, round);
        assert(kept[i] == known_of(state, i));
    }
    lemma_answers_sound(g0, woken, state, fleet, topo, params, round, awake, awake.len());
    let g = aodv_round::on_air(nodes, state, fleet, topo, params, round, draws);
    let h0 = Hunt { nodes: woken, state: g.state, events: Seq::empty() };
    lemma_calls_add(h0, fleet, topo, params, round, g.calls, 0, g.calls.len());
    let h1 = aodv_round::all_calls(h0, fleet, topo, params, round, g.calls, g.calls.len());
    lemma_replies_explained(
        h1,
        state,
        fleet,
        topo,
        params,
        round,
        g.answers,
        g.answers.len(),
        j,
    );
    lemma_replies_add(h1, fleet, topo, params, round, g.answers, 0, g.answers.len());
    let h2 = aodv_round::all_replies(h1, fleet, topo, params, round, g.answers, g.answers.len());
    let after = aodv_round::hunt_round(nodes, state, fleet, topo, params, round, draws);
    assert(after.nodes[j] == aodv_round::in_sight(h2.nodes[j], topo, params, round, j));
    assert(woken[j].belief == live[j].belief);
}

} // verus!
