//! How a request spreads and how an answer comes back, step by step.
use vstd::prelude::*;

use crate::balloon::Balloon;
use crate::mesh_adjacency::Topology;

use super::aodv_round;
use super::aodv_round::{Answer, Asking, Call, Hunt};
use super::params::{DvDtnParams, ReplyOverhearing, RingSearch};
use super::NodeModel;

verus! {

/// The way back is the way it came: whoever hears a request for the first time takes
/// the balloon it heard it from for the way back to the requester, and to nobody
/// else's; a request that it cannot answer it keeps as it heard it.
pub proof fn the_way_back_is_the_way_it_came(
    h: Hunt,
    fleet: Seq<Balloon>,
    topo: Topology,
    params: DvDtnParams,
    round: u64,
    c: Call,
    nb: u32,
)
    requires
        nb < h.nodes.len(),
        nb < h.state.len(),
        nb != c.req.requester,
        !h.state[nb as int].reverse.contains_key(
            aodv_round::flood_key(c.req.requester, c.req.id),
        ),
    ensures
        ({
            let key = aodv_round::flood_key(c.req.requester, c.req.id);
            let a = h.state[nb as int];
            let r = aodv_round::call_heard(h, fleet, topo, params, round, c, nb);
            let b = r.state[nb as int];
            &&& r.nodes == h.nodes
            &&& b.reverse.dom() == a.reverse.dom().insert(key)
            &&& b.reverse[key] == fleet[c.from].id
            &&& forall|k: u128|
                #[trigger] a.reverse.contains_key(k) ==> b.reverse[k] == a.reverse[k]
            &&& b.to_forward == a.to_forward || b.to_forward == a.to_forward.push(c.req)
            &&& b.replies.len() + b.to_forward.len() == a.replies.len() + a.to_forward.len() + 1
            &&& b.pending == a.pending
        }),
{
}

/// A request heard before is not taken up again.
pub proof fn a_request_is_taken_up_once(
    h: Hunt,
    fleet: Seq<Balloon>,
    topo: Topology,
    params: DvDtnParams,
    round: u64,
    c: Call,
    nb: u32,
)
    requires
        nb < h.nodes.len(),
        nb < h.state.len(),
        h.state[nb as int].reverse.contains_key(
            aodv_round::flood_key(c.req.requester, c.req.id),
        ),
    ensures
        aodv_round::call_heard(h, fleet, topo, params, round, c, nb).state == h.state,
{
}

/// A new request reaches as far as its ring: as far as any may where there is no
/// search by rings, and otherwise as far as the last attempt left it, at least to the
/// neighbours and no further than any may. It is the only one pending from then on,
/// and the next has the next number.
pub proof fn a_new_request_reaches_as_far_as_its_ring(
    g: Asking,
    nodes: Seq<NodeModel>,
    fleet: Seq<Balloon>,
    topo: Topology,
    params: DvDtnParams,
    round: u64,
    i: int,
)
    requires
        0 <= i < g.state.len(),
        g.state[i].replies.len() == 0,
        g.state[i].to_forward.len() == 0,
        g.state[i].pending is None,
        g.state[i].next_rreq_id < u64::MAX,
        nodes[i].queue.len() > 0,
        nodes[i].belief is None,
        params.beacon_max_hops >= 1,
    ensures
        ({
            let a = g.state[i];
            let r = aodv_round::asked(g, nodes, fleet, topo, params, round, i);
            let b = r.state[i];
            let req = r.calls.last().req;
            &&& r.calls.len() == g.calls.len() + 1
            &&& r.calls.last().from == i
            &&& req.requester == fleet[i].id
            &&& req.id == a.next_rreq_id
            &&& req.hops == 0
            &&& params.ring_search == RingSearch::Max ==> req.ttl == params.beacon_max_hops
            &&& params.ring_search == RingSearch::Expanding ==> {
                &&& 1 <= req.ttl <= params.beacon_max_hops
                &&& 1 <= a.next_ttl <= params.beacon_max_hops ==> req.ttl == a.next_ttl
                &&& a.next_ttl > params.beacon_max_hops ==> req.ttl == params.beacon_max_hops
                &&& a.next_ttl == 0 ==> req.ttl == 1
            }
            &&& b.pending matches Some(p) && p.id == req.id && p.issued_at == round && p.ttl
                == req.ttl
            &&& b.next_rreq_id == a.next_rreq_id + 1
        }),
{
}

/// An answer ends the search of the balloon that asked, whose next search begins with
/// the neighbours again; anybody else has it to pass back, from one hop further off.
pub proof fn an_answer_ends_the_search(
    h: Hunt,
    fleet: Seq<Balloon>,
    params: DvDtnParams,
    w: Answer,
)
    requires
        w.to < h.nodes.len(),
        w.to < h.state.len(),
        w.reply.hops < u32::MAX,
    ensures
        ({
            let a = h.state[w.to as int];
            let r = aodv_round::reply_taken(h, fleet, params, w);
            let b = r.state[w.to as int];
            let asked = fleet[w.to as int].id == w.reply.requester;
            &&& asked ==> b.pending is None && b.next_ttl == 1 && b.replies == a.replies
            &&& !asked ==> {
                &&& b.pending == a.pending
                &&& b.next_ttl == a.next_ttl
                &&& b.replies.len() == a.replies.len() + 1
                &&& b.replies.last().requester == w.reply.requester
                &&& b.replies.last().id == w.reply.id
                &&& b.replies.last().tower_id == w.reply.tower_id
                &&& b.replies.last().hops == w.reply.hops + 1
                &&& b.replies.last().emitted_at_round == w.reply.emitted_at_round
            }
            &&& r.events.len() == h.events.len() + 1
        }),
{
}

/// Nobody listens in where that is off: an answer then concerns only the balloon that
/// it is addressed to.
pub proof fn an_answer_is_private_unless_overheard(
    h: Hunt,
    fleet: Seq<Balloon>,
    topo: Topology,
    params: DvDtnParams,
    round: u64,
    w: Answer,
    j: int,
)
    requires
        params.reply_overhearing == ReplyOverhearing::Off,
        h.state.len() == h.nodes.len(),
        0 <= j < h.nodes.len(),
        j != w.to,
    ensures
        aodv_round::reply_arrived(h, fleet, topo, params, round, w).nodes[j] == h.nodes[j],
        aodv_round::reply_arrived(h, fleet, topo, params, round, w).state[j] == h.state[j],
{
}

} // verus!
