//! Reactive discovery as a function from one round's state to the next.
use vstd::prelude::*;

use crate::balloon::Balloon;
use crate::link_detection::NodeKey;
use crate::mesh_adjacency::Topology;
use crate::protocol::{CommsEvent, EventKind};

use super::aodv::{Pending, Rrep, Rreq};
use super::beacon;
use super::beacon::RouteBelief;
use super::bundle;
use super::params::{DvDtnParams, ReplyOverhearing, ReplyPolicy, RingSearch};
use super::NodeModel;

verus! {

/// The mathematical content of an `AodvNode`.
#[verifier::ext_equal]
pub struct AodvModel {
    pub reverse: Map<u128, u32>,
    pub to_forward: Seq<Rreq>,
    pub replies: Seq<Rrep>,
    pub next_ttl: u32,
    pub pending: Option<Pending>,
    pub next_rreq_id: u64,
}

/// A node that has asked for nothing and heard nothing.
pub open spec fn idle() -> AodvModel {
    AodvModel {
        reverse: Map::empty(),
        to_forward: Seq::empty(),
        replies: Seq::empty(),
        next_ttl: 0,
        pending: None,
        next_rreq_id: 0,
    }
}

/// A list cut or filled up with idle nodes to length `n`.
pub open spec fn fitted(nodes: Seq<AodvModel>, n: nat) -> Seq<AodvModel> {
    Seq::new(
        n,
        |i: int|
            if i < nodes.len() {
                nodes[i]
            } else {
                idle()
            },
    )
}

/// One number for a request: who asks, and which of its requests it is.
pub open spec fn flood_key(requester: u32, id: u64) -> u128 {
    (requester * 0x1_0000_0000_0000_0000 + id) as u128
}

// ---------------------------------------------------------------------------
// Giving up on an attempt
// ---------------------------------------------------------------------------

/// How long a requester waits before concluding that an attempt failed.
pub open spec fn patience(params: DvDtnParams, ttl: u32) -> u64 {
    match params.ring_search {
        RingSearch::Max => params.belief_max_age_rounds,
        RingSearch::Expanding => {
            let rounds = (2 * ttl + 1) * params.beacon_interval_rounds;
            if rounds > u64::MAX {
                u64::MAX
            } else {
                rounds as u64
            }
        },
    }
}

/// Twice as far as the last attempt, within the hop limit.
pub open spec fn widened(ttl: u32, max_hops: u32) -> u32 {
    if 2 * ttl < max_hops {
        (2 * ttl) as u32
    } else {
        max_hops
    }
}

/// A node that gives up on an attempt unanswered for too long.
pub open spec fn resigned(a: AodvModel, params: DvDtnParams, round: u64) -> AodvModel {
    match a.pending {
        Some(p) => if bundle::rounds_since(p.issued_at, round) > patience(params, p.ttl) {
            AodvModel { pending: None, next_ttl: widened(p.ttl, params.beacon_max_hops), ..a }
        } else {
            a
        },
        None => a,
    }
}

// ---------------------------------------------------------------------------
// What a waking balloon sends
// ---------------------------------------------------------------------------

/// A request on the air.
#[verifier::ext_equal]
pub struct Call {
    pub from: int,
    pub req: Rreq,
}

/// A reply on the air, addressed to one balloon.
#[verifier::ext_equal]
pub struct Answer {
    pub from: int,
    pub to: u32,
    pub reply: Rrep,
}

#[verifier::ext_equal]
pub struct Asking {
    pub state: Seq<AodvModel>,
    pub calls: Seq<Call>,
    pub answers: Seq<Answer>,
}

/// How far a new request may travel.
pub open spec fn ring(a: AodvModel, params: DvDtnParams) -> u32 {
    match params.ring_search {
        RingSearch::Max => params.beacon_max_hops,
        RingSearch::Expanding => if a.next_ttl < 1 {
            1
        } else if a.next_ttl > params.beacon_max_hops {
            params.beacon_max_hops
        } else {
            a.next_ttl
        },
    }
}

/// The lesser of two numbers of hops.
pub open spec fn nearer(a: u32, b: u32) -> u32 {
    if a < b {
        a
    } else {
        b
    }
}

/// What node `i` does with its slot: pass a reply back, else pass a request
/// on, else ask for a route of its own if it has something to send and none.
pub open spec fn asked(
    g: Asking,
    nodes: Seq<NodeModel>,
    fleet: Seq<Balloon>,
    topo: Topology,
    params: DvDtnParams,
    round: u64,
    i: int,
) -> Asking {
    let a = g.state[i];
    let id = fleet[i].id;
    if a.replies.len() > 0 {
        let reply = a.replies.last();
        let key = flood_key(reply.requester, reply.id);
        let rest = AodvModel { replies: a.replies.drop_last(), ..a };
        Asking {
            state: g.state.update(i, rest),
            answers: if reply.requester != id && a.reverse.contains_key(key)
                && topo.neighbors_of(i).contains(a.reverse[key]) {
                g.answers.push(Answer { from: i, to: a.reverse[key], reply })
            } else {
                g.answers
            },
            ..g
        }
    } else if a.to_forward.len() > 0 {
        let req = a.to_forward.last();
        let rest = AodvModel { to_forward: a.to_forward.drop_last(), ..a };
        Asking {
            state: g.state.update(i, rest),
            calls: if req.hops + 1 < nearer(req.ttl, params.beacon_max_hops) {
                g.calls.push(Call { from: i, req: Rreq { hops: (req.hops + 1) as u32, ..req } })
            } else {
                g.calls
            },
            ..g
        }
    } else if nodes[i].queue.len() > 0 && nodes[i].belief is None && a.pending is None {
        let ttl = ring(a, params);
        Asking {
            state: g.state.update(
                i,
                AodvModel {
                    next_rreq_id: (a.next_rreq_id + 1) as u64,
                    pending: Some(Pending { id: a.next_rreq_id, issued_at: round, ttl }),
                    ..a
                },
            ),
            calls: g.calls.push(
                Call { from: i, req: Rreq { requester: id, id: a.next_rreq_id, hops: 0, ttl } },
            ),
            ..g
        }
    } else {
        g
    }
}

pub open spec fn all_asked(
    g: Asking,
    nodes: Seq<NodeModel>,
    fleet: Seq<Balloon>,
    topo: Topology,
    params: DvDtnParams,
    round: u64,
    awake: Seq<usize>,
    k: nat,
) -> Asking
    decreases k,
{
    if k == 0 {
        g
    } else {
        asked(
            all_asked(g, nodes, fleet, topo, params, round, awake, (k - 1) as nat),
            nodes,
            fleet,
            topo,
            params,
            round,
            awake[k - 1] as int,
        )
    }
}

// ---------------------------------------------------------------------------
// Requests arrive
// ---------------------------------------------------------------------------

/// What discovery works on once transmissions are on the air.
#[verifier::ext_equal]
pub struct Hunt {
    pub nodes: Seq<NodeModel>,
    pub state: Seq<AodvModel>,
    pub events: Seq<CommsEvent>,
}

/// The reply a balloon can give: from a tower it hears now, dated now, or from
/// a route it holds, dated as that route is.
pub open spec fn reply_of(
    n: NodeModel,
    topo: Topology,
    i: int,
    params: DvDtnParams,
    round: u64,
    req: Rreq,
) -> Option<Rrep> {
    match topo.tower_of(i) {
        Some(tower_id) => Some(
            Rrep {
                requester: req.requester,
                id: req.id,
                tower_id,
                hops: 1,
                emitted_at_round: round,
            },
        ),
        None => match n.belief {
            Some(b) => if params.reply_policy == ReplyPolicy::Intermediate {
                Some(
                    Rrep {
                        requester: req.requester,
                        id: req.id,
                        tower_id: b.tower_id,
                        hops: b.hop_count,
                        emitted_at_round: b.emitted_at_round,
                    },
                )
            } else {
                None
            },
            None => None,
        },
    }
}

/// Balloon `nb` hears a request.
pub open spec fn call_heard(
    h: Hunt,
    fleet: Seq<Balloon>,
    topo: Topology,
    params: DvDtnParams,
    round: u64,
    c: Call,
    nb: u32,
) -> Hunt {
    if nb >= h.nodes.len() || nb == c.req.requester {
        h
    } else {
        let heard = Hunt {
            events: h.events.push(
                CommsEvent {
                    kind: EventKind::RouteRequest,
                    from: NodeKey::Balloon(fleet[c.from].id),
                    to: NodeKey::Balloon(nb),
                    payload: 1,
                    tower_id: None,
                    hop_count: Some(c.req.hops),
                    epoch: Some(c.req.id),
                },
            ),
            ..h
        };
        let a = h.state[nb as int];
        let key = flood_key(c.req.requester, c.req.id);
        if a.reverse.contains_key(key) {
            heard
        } else {
            let noted = AodvModel { reverse: a.reverse.insert(key, fleet[c.from].id), ..a };
            Hunt {
                state: h.state.update(
                    nb as int,
                    match reply_of(h.nodes[nb as int], topo, nb as int, params, round, c.req) {
                        Some(reply) => AodvModel { replies: a.replies.push(reply), ..noted },
                        None => AodvModel { to_forward: a.to_forward.push(c.req), ..noted },
                    },
                ),
                ..heard
            }
        }
    }
}

/// The first `k` balloons in earshot hear a request.
pub open spec fn call_spread(
    h: Hunt,
    fleet: Seq<Balloon>,
    topo: Topology,
    params: DvDtnParams,
    round: u64,
    c: Call,
    k: nat,
) -> Hunt
    decreases k,
{
    if k == 0 {
        h
    } else {
        call_heard(
            call_spread(h, fleet, topo, params, round, c, (k - 1) as nat),
            fleet,
            topo,
            params,
            round,
            c,
            topo.neighbors_of(c.from)[k - 1],
        )
    }
}

pub open spec fn all_calls(
    h: Hunt,
    fleet: Seq<Balloon>,
    topo: Topology,
    params: DvDtnParams,
    round: u64,
    calls: Seq<Call>,
    k: nat,
) -> Hunt
    decreases k,
{
    if k == 0 {
        h
    } else {
        let c = calls[k - 1];
        call_spread(
            all_calls(h, fleet, topo, params, round, calls, (k - 1) as nat),
            fleet,
            topo,
            params,
            round,
            c,
            topo.neighbors_of(c.from).len(),
        )
    }
}

// ---------------------------------------------------------------------------
// Replies arrive
// ---------------------------------------------------------------------------

/// The route that a reply offers to whoever hears it.
pub open spec fn offered(fleet: Seq<Balloon>, w: Answer) -> RouteBelief {
    RouteBelief {
        tower_id: w.reply.tower_id,
        hop_count: (w.reply.hops + 1) as u32,
        next_hop: Some(fleet[w.from].id),
        epoch: w.reply.id,
        emitted_at_round: w.reply.emitted_at_round,
    }
}

/// A node that installs a route if it should.
pub open spec fn installed(n: NodeModel, b: RouteBelief, params: DvDtnParams) -> NodeModel {
    if beacon::adoptable(n.belief, b, params.metric) {
        NodeModel { belief: Some(b), ..n }
    } else {
        n
    }
}

/// A node that has found what it looked for.
pub open spec fn satisfied(a: AodvModel) -> AodvModel {
    AodvModel { pending: None, next_ttl: 1, ..a }
}

/// The balloon addressed takes a reply: it installs the route, and passes the
/// reply on unless it was the one that asked.
pub open spec fn reply_taken(h: Hunt, fleet: Seq<Balloon>, params: DvDtnParams, w: Answer) -> Hunt {
    let a = h.state[w.to as int];
    Hunt {
        nodes: h.nodes.update(
            w.to as int,
            installed(h.nodes[w.to as int], offered(fleet, w), params),
        ),
        state: h.state.update(
            w.to as int,
            if fleet[w.to as int].id == w.reply.requester {
                satisfied(a)
            } else {
                AodvModel {
                    replies: a.replies.push(
                        Rrep { hops: (w.reply.hops + 1) as u32, ..w.reply },
                    ),
                    ..a
                }
            },
        ),
        events: h.events.push(
            CommsEvent {
                kind: EventKind::RouteReply,
                from: NodeKey::Balloon(fleet[w.from].id),
                to: NodeKey::Balloon(w.to),
                payload: 1,
                tower_id: Some(w.reply.tower_id),
                hop_count: Some(w.reply.hops),
                epoch: Some(w.reply.id),
            },
        ),
    }
}

/// Whether a route overheard is better than what is held: nothing, something
/// too old, or something longer.
pub open spec fn shorter(cur: Option<RouteBelief>, b: RouteBelief, round: u64, max_age: u64) -> bool {
    match cur {
        None => true,
        Some(c) => beacon::expired(c, round, max_age) || b.hop_count < c.hop_count,
    }
}

/// A bystander overhears a reply.
pub open spec fn overheard(
    h: Hunt,
    fleet: Seq<Balloon>,
    params: DvDtnParams,
    round: u64,
    w: Answer,
    nb: u32,
) -> Hunt {
    if nb >= h.nodes.len() || nb == w.to || !shorter(
        h.nodes[nb as int].belief,
        offered(fleet, w),
        round,
        params.belief_max_age_rounds,
    ) {
        h
    } else {
        Hunt {
            nodes: h.nodes.update(
                nb as int,
                NodeModel { belief: Some(offered(fleet, w)), ..h.nodes[nb as int] },
            ),
            state: h.state.update(nb as int, satisfied(h.state[nb as int])),
            ..h
        }
    }
}

/// The first `k` balloons in earshot overhear a reply.
pub open spec fn all_overheard(
    h: Hunt,
    fleet: Seq<Balloon>,
    topo: Topology,
    params: DvDtnParams,
    round: u64,
    w: Answer,
    k: nat,
) -> Hunt
    decreases k,
{
    if k == 0 {
        h
    } else {
        overheard(
            all_overheard(h, fleet, topo, params, round, w, (k - 1) as nat),
            fleet,
            params,
            round,
            w,
            topo.neighbors_of(w.from)[k - 1],
        )
    }
}

/// A reply arrives, if its addressee is one of those simulated.
pub open spec fn reply_arrived(
    h: Hunt,
    fleet: Seq<Balloon>,
    topo: Topology,
    params: DvDtnParams,
    round: u64,
    w: Answer,
) -> Hunt {
    if w.to >= h.nodes.len() {
        h
    } else {
        let taken = reply_taken(h, fleet, params, w);
        if params.reply_overhearing == ReplyOverhearing::On {
            all_overheard(
                taken,
                fleet,
                topo,
                params,
                round,
                w,
                topo.neighbors_of(w.from).len(),
            )
        } else {
            taken
        }
    }
}

pub open spec fn all_replies(
    h: Hunt,
    fleet: Seq<Balloon>,
    topo: Topology,
    params: DvDtnParams,
    round: u64,
    answers: Seq<Answer>,
    k: nat,
) -> Hunt
    decreases k,
{
    if k == 0 {
        h
    } else {
        reply_arrived(
            all_replies(h, fleet, topo, params, round, answers, (k - 1) as nat),
            fleet,
            topo,
            params,
            round,
            answers[k - 1],
        )
    }
}

/// A balloon that can hear a tower needs no discovery.
pub open spec fn in_sight(
    n: NodeModel,
    topo: Topology,
    params: DvDtnParams,
    round: u64,
    i: int,
) -> NodeModel {
    match topo.tower_of(i) {
        Some(tower_id) => installed(
            n,
            RouteBelief {
                tower_id,
                hop_count: 1,
                next_hop: None,
                epoch: 0,
                emitted_at_round: round,
            },
            params,
        ),
        None => n,
    }
}

// ---------------------------------------------------------------------------
// The round
// ---------------------------------------------------------------------------

/// What a round of reactive discovery leads to.
#[verifier::ext_equal]
pub struct HuntOutcome {
    pub nodes: Seq<NodeModel>,
    pub state: Seq<AodvModel>,
    pub awake: Seq<usize>,
    pub events: Seq<CommsEvent>,
}

/// What is on the air this round.
pub open spec fn on_air(
    nodes: Seq<NodeModel>,
    state: Seq<AodvModel>,
    fleet: Seq<Balloon>,
    topo: Topology,
    params: DvDtnParams,
    round: u64,
    draws: Seq<u64>,
) -> Asking {
    let kept = fitted(state, nodes.len());
    let live = beacon::all_forgetful(nodes, round, params.belief_max_age_rounds);
    let awake = beacon::awake_of(live, live.len(), round);
    let woken = beacon::all_rescheduled(live, params, round, draws);
    all_asked(
        Asking {
            state: Seq::new(kept.len(), |i: int| resigned(kept[i], params, round)),
            calls: Seq::empty(),
            answers: Seq::empty(),
        },
        woken,
        fleet,
        topo,
        params,
        round,
        awake,
        awake.len(),
    )
}

/// One round of reactive discovery, for given jitter draws.
pub open spec fn hunt_round(
    nodes: Seq<NodeModel>,
    state: Seq<AodvModel>,
    fleet: Seq<Balloon>,
    topo: Topology,
    params: DvDtnParams,
    round: u64,
    draws: Seq<u64>,
) -> HuntOutcome {
    let live = beacon::all_forgetful(nodes, round, params.belief_max_age_rounds);
    let g = on_air(nodes, state, fleet, topo, params, round, draws);
    let h0 = Hunt {
        nodes: beacon::all_rescheduled(live, params, round, draws),
        state: g.state,
        events: Seq::empty(),
    };
    let h1 = all_calls(h0, fleet, topo, params, round, g.calls, g.calls.len());
    let h2 = all_replies(h1, fleet, topo, params, round, g.answers, g.answers.len());
    HuntOutcome {
        nodes: Seq::new(
            h2.nodes.len(),
            |i: int| in_sight(h2.nodes[i], topo, params, round, i),
        ),
        state: h2.state,
        awake: beacon::awake_of(live, live.len(), round),
        events: h2.events,
    }
}

/// What the machine's number types, and a hop limit of nothing, demand of a
/// round.
pub open spec fn hunt_fits(state: Seq<AodvModel>, params: DvDtnParams, round: u64) -> bool {
    &&& beacon::schedule_fits(round, params.beacon_interval_rounds, params.beacon_jitter_rounds)
    &&& params.ring_search == RingSearch::Expanding ==> params.beacon_max_hops >= 1
    &&& forall|i: int|
        0 <= i < state.len() ==> (#[trigger] state[i]).next_rreq_id < u64::MAX && small_replies(
            state[i].replies,
        )
}

/// Whether the distances in replies can be counted up by one.
pub open spec fn small_replies(replies: Seq<Rrep>) -> bool {
    forall|j: int| 0 <= j < replies.len() ==> (#[trigger] replies[j]).hops < u32::MAX
}

} // verus!
