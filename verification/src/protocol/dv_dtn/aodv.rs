//! Reactive route discovery: find a route when something needs one, rather
//! than maintaining one continuously. A balloon with something to send and no
//! route asks; the question floods outward within a ring, and a reply comes
//! back along the way the question went, installing a route at each hop.
use std::collections::HashMap;

use rand::rngs::StdRng;
use vstd::prelude::*;

use crate::balloon::Balloon;
use crate::link_detection::NodeKey;
use crate::mesh_adjacency::MeshAdjacency;
use crate::protocol::{CommsEvent, EventKind};

use super::aodv_round;
use super::aodv_round::{Answer, AodvModel, Asking, Call, Hunt, HuntOutcome};
use super::beacon;
use super::beacon::RouteBelief;
use super::linkstate;
use super::params::{DvDtnParams, ReplyOverhearing, ReplyPolicy, RingSearch};
use super::DvNode;

verus! {

broadcast use vstd::std_specs::hash::group_hash_axioms;

/// One node's reactive-discovery state.
#[derive(Debug)]
pub struct AodvNode {
    /// Requests already seen, and the neighbour each arrived from: the way
    /// back that a reply will travel. Keyed by requester and request number
    /// together, so a re-issued request is a distinct flood.
    pub reverse: HashMap<u128, u32>,
    /// Requests waiting to be rebroadcast.
    pub to_forward: Vec<Rreq>,
    /// Replies waiting to be relayed back towards a requester.
    pub replies: Vec<Rrep>,
    /// Hop budget for this node's next request under an expanding ring. Zero
    /// means that it has not started.
    pub next_ttl: u32,
    /// This node's own outstanding request.
    pub pending: Option<Pending>,
    pub next_rreq_id: u64,
}

/// A request this node has out and is waiting on.
#[derive(Debug, Clone, Copy, PartialEq, Eq, Structural)]
pub struct Pending {
    pub id: u64,
    pub issued_at: u64,
    /// How far this attempt was allowed to travel.
    pub ttl: u32,
}

#[derive(Debug, Clone, Copy, PartialEq, Eq, Structural)]
pub struct Rreq {
    pub requester: u32,
    pub id: u64,
    pub hops: u32,
    /// The requester's hop budget for this attempt. Every rebroadcaster
    /// enforces it.
    pub ttl: u32,
}

#[derive(Debug, Clone, Copy, PartialEq, Eq, Structural)]
pub struct Rrep {
    pub requester: u32,
    pub id: u64,
    pub tower_id: u32,
    /// Hops from the replying node to the tower; one more with each hop back.
    pub hops: u32,
    /// When the answering node's knowledge was current. Copied verbatim.
    pub emitted_at_round: u64,
}

impl View for AodvNode {
    type V = AodvModel;

    open spec fn view(&self) -> AodvModel {
        AodvModel {
            reverse: self.reverse@,
            to_forward: self.to_forward@,
            replies: self.replies@,
            next_ttl: self.next_ttl,
            pending: self.pending,
            next_rreq_id: self.next_rreq_id,
        }
    }
}

/// The models of a list of nodes.
pub open spec fn aodv_models(nodes: Seq<AodvNode>) -> Seq<AodvModel> {
    nodes.map_values(|n: AodvNode| n@)
}

impl Default for AodvNode {
    fn default() -> (r: AodvNode)
        ensures
            r@ == aodv_round::idle(),
    {
        let r: AodvNode = AodvNode {
            reverse: HashMap::new(),
            to_forward: Vec::new(),
            replies: Vec::new(),
            next_ttl: 0,
            pending: None,
            next_rreq_id: 0,
        };
        assert(r@ =~~= aodv_round::idle());
        r
    }
}

#[derive(Debug)]
pub struct State {
    pub nodes: Vec<AodvNode>,
}

impl View for State {
    type V = Seq<AodvModel>;

    open spec fn view(&self) -> Seq<AodvModel> {
        aodv_models(self.nodes@)
    }
}

impl Default for State {
    fn default() -> (r: State)
        ensures
            r@ == Seq::<AodvModel>::empty(),
    {
        let r: State = State { nodes: Vec::new() };
        assert(r@ =~= Seq::empty());
        r
    }
}

impl State {
    /// Keeps state for `n` balloons.
    pub fn resize(&mut self, n: usize)
        ensures
            final(self)@ == aodv_round::fitted(old(self)@, n as nat),
    {
        let ghost before = self@;
        if self.nodes.len() > n {
            self.nodes.truncate(n);
        }
        while self.nodes.len() < n
            invariant
                self.nodes@.len() <= n,
                forall|j: int|
                    0 <= j < self.nodes@.len() ==> (#[trigger] self.nodes@[j])@
                        == aodv_round::fitted(before, n as nat)[j],
                self.nodes@.len() == n || self.nodes@.len() >= before.len(),
            decreases n - self.nodes@.len(),
        {
            self.nodes.push(AodvNode::default());
        }
        assert(self@ =~~= aodv_round::fitted(before, n as nat));
    }
}

/// One number for a request.
pub fn flood_key(requester: u32, id: u64) -> (r: u128)
    ensures
        r == aodv_round::flood_key(requester, id),
{
    requester as u128 * 0x1_0000_0000_0000_0000u128 + id as u128
}

/// How long a requester waits before concluding that an attempt failed. Under
/// an expanding ring it grows with the ring, since a request travels one hop
/// per wake slot in each direction.
pub fn attempt_timeout(params: &DvDtnParams, ttl: u32) -> (r: u64)
    ensures
        r == aodv_round::patience(*params, ttl),
{
    match params.ring_search {
        RingSearch::Max => params.belief_max_age_rounds,
        RingSearch::Expanding => {
            let rounds: u64 = 2 * (ttl as u64) + 1;
            match rounds.checked_mul(params.beacon_interval_rounds) {
                Some(t) => t,
                None => u64::MAX,
            }
        },
    }
}

/// Gives up on an attempt unanswered for too long.
fn resign(a: &mut AodvNode, params: &DvDtnParams, round: u64)
    ensures
        final(a)@ == aodv_round::resigned(old(a)@, *params, round),
{
    if let Some(p) = a.pending {
        if round.saturating_sub(p.issued_at) > attempt_timeout(params, p.ttl) {
            a.pending = None;
            let twice: u64 = 2 * (p.ttl as u64);
            a.next_ttl = if twice < params.beacon_max_hops as u64 {
                twice as u32
            } else {
                params.beacon_max_hops
            };
        }
    }
}

/// A request on the air.
#[derive(Clone, Copy)]
struct CallOut {
    from: usize,
    req: Rreq,
}

impl View for CallOut {
    type V = Call;

    closed spec fn view(&self) -> Call {
        Call { from: self.from as int, req: self.req }
    }
}

/// A reply on the air.
#[derive(Clone, Copy)]
struct AnswerOut {
    from: usize,
    to: u32,
    reply: Rrep,
}

impl View for AnswerOut {
    type V = Answer;

    closed spec fn view(&self) -> Answer {
        Answer { from: self.from as int, to: self.to, reply: self.reply }
    }
}

/// What is gathered for the air.
struct Air {
    state: Vec<AodvNode>,
    calls: Vec<CallOut>,
    answers: Vec<AnswerOut>,
}

spec fn calls_of(calls: Seq<CallOut>) -> Seq<Call> {
    calls.map_values(|c: CallOut| c@)
}

spec fn answers_of(answers: Seq<AnswerOut>) -> Seq<Answer> {
    answers.map_values(|a: AnswerOut| a@)
}

impl View for Air {
    type V = Asking;

    closed spec fn view(&self) -> Asking {
        Asking {
            state: aodv_models(self.state@),
            calls: calls_of(self.calls@),
            answers: answers_of(self.answers@),
        }
    }
}

impl Air {
    /// Whether everything on the air comes from one of the first `n` nodes,
    /// and the replies' distances can be counted up.
    spec fn sound(self, n: int) -> bool {
        &&& forall|j: int| 0 <= j < self.calls@.len() ==> (#[trigger] self.calls@[j]).from < n
        &&& forall|j: int|
            0 <= j < self.answers@.len() ==> (#[trigger] self.answers@[j]).from < n
                && self.answers@[j].reply.hops < u32::MAX
    }

    /// What one node does with its slot.
    fn ask(
        &mut self,
        i: usize,
        nodes: &Vec<DvNode>,
        balloons: &[Balloon],
        adj: &MeshAdjacency,
        params: &DvDtnParams,
        round: u64,
    )
        requires
            i < nodes@.len(),
            i < balloons@.len(),
            i < old(self)@.state.len(),
            params.ring_search == RingSearch::Expanding ==> params.beacon_max_hops >= 1,
            old(self)@.state[i as int].next_rreq_id < u64::MAX,
            aodv_round::small_replies(old(self)@.state[i as int].replies),
            old(self).sound(nodes@.len() as int),
        ensures
            final(self)@ == aodv_round::asked(
                old(self)@,
                super::models(nodes@),
                balloons@,
                adj@,
                *params,
                round,
                i as int,
            ),
            final(self).sound(nodes@.len() as int),
            final(self)@.state.len() == old(self)@.state.len(),
    {
        let ghost g0 = self@;
        let ghost answers0 = self.answers@;
        let ghost calls0 = self.calls@;
        let id: u32 = balloons[i].id;
        assert(g0.state[i as int] == self.state@[i as int]@);
        assert(super::models(nodes@)[i as int] == nodes@[i as int]@);
        if let Some(reply) = self.state[i].replies.pop() {
            assert(reply == g0.state[i as int].replies.last());
            assert(self.state@[i as int].replies@ =~= g0.state[i as int].replies.drop_last());
            if reply.requester != id {
                let key: u128 = flood_key(reply.requester, reply.id);
                let mut back: Option<u32> = None;
                if let Some(b) = self.state[i].reverse.get(&key) {
                    back = Some(*b);
                }
                if let Some(to) = back {
                    if adj.is_neighbor(i, to) {
                        self.answers.push(AnswerOut { from: i, to, reply });
                        assert(answers_of(self.answers@) =~= answers_of(answers0).push(
                            Answer { from: i as int, to, reply },
                        ));
                    }
                }
            }
            assert(self@ =~~= aodv_round::asked(
                g0,
                super::models(nodes@),
                balloons@,
                adj@,
                *params,
                round,
                i as int,
            ));
            return;
        }
        assert(self@ =~~= g0);
        if let Some(req) = self.state[i].to_forward.pop() {
            assert(req == g0.state[i as int].to_forward.last());
            assert(self.state@[i as int].to_forward@
                =~= g0.state[i as int].to_forward.drop_last());
            let limit: u32 = if req.ttl < params.beacon_max_hops {
                req.ttl
            } else {
                params.beacon_max_hops
            };
            if limit > 0 && req.hops < limit - 1 {
                let further: Rreq = Rreq { hops: req.hops + 1, ..req };
                self.calls.push(CallOut { from: i, req: further });
                assert(calls_of(self.calls@) =~= calls_of(calls0).push(
                    Call { from: i as int, req: further },
                ));
            }
            assert(self@ =~~= aodv_round::asked(
                g0,
                super::models(nodes@),
                balloons@,
                adj@,
                *params,
                round,
                i as int,
            ));
            return;
        }
        assert(self@ =~~= g0);
        if nodes[i].queue.len() > 0 && nodes[i].belief.is_none() && self.state[i].pending.is_none() {
            let next_ttl: u32 = self.state[i].next_ttl;
            let ttl: u32 = match params.ring_search {
                RingSearch::Max => params.beacon_max_hops,
                RingSearch::Expanding => if next_ttl < 1 {
                    1
                } else if next_ttl > params.beacon_max_hops {
                    params.beacon_max_hops
                } else {
                    next_ttl
                },
            };
            let rid: u64 = self.state[i].next_rreq_id;
            self.state[i].next_rreq_id = rid + 1;
            self.state[i].pending = Some(Pending { id: rid, issued_at: round, ttl });
            let req: Rreq = Rreq { requester: id, id: rid, hops: 0, ttl };
            self.calls.push(CallOut { from: i, req });
            assert(calls_of(self.calls@) =~= calls_of(calls0).push(Call { from: i as int, req }));
        }
        assert(self@ =~~= aodv_round::asked(
            g0,
            super::models(nodes@),
            balloons@,
            adj@,
            *params,
            round,
            i as int,
        ));
    }
}


impl Air {
    /// What the awake nodes do with their slots.
    fn ask_all(
        &mut self,
        awake: &Vec<usize>,
        nodes: &Vec<DvNode>,
        balloons: &[Balloon],
        adj: &MeshAdjacency,
        params: &DvDtnParams,
        round: u64,
    )
        requires
            balloons@.len() >= nodes@.len(),
            old(self)@.state.len() == nodes@.len(),
            linkstate::rising(awake@, nodes@.len()),
            params.ring_search == RingSearch::Expanding ==> params.beacon_max_hops >= 1,
            forall|j: int|
                0 <= j < nodes@.len() ==> (#[trigger] old(self)@.state[j]).next_rreq_id < u64::MAX
                    && aodv_round::small_replies(old(self)@.state[j].replies),
            old(self).sound(nodes@.len() as int),
        ensures
            final(self)@ == aodv_round::all_asked(
                old(self)@,
                super::models(nodes@),
                balloons@,
                adj@,
                *params,
                round,
                awake@,
                awake@.len(),
            ),
            final(self).sound(nodes@.len() as int),
            final(self)@.state.len() == old(self)@.state.len(),
    {
        let ghost g0 = self@;
        let mut k: usize = 0;
        while k < awake.len()
            invariant
                k <= awake@.len(),
                balloons@.len() >= nodes@.len(),
                g0.state.len() == nodes@.len(),
                self@.state.len() == g0.state.len(),
                linkstate::rising(awake@, nodes@.len()),
                params.ring_search == RingSearch::Expanding ==> params.beacon_max_hops >= 1,
                forall|j: int|
                    0 <= j < nodes@.len() ==> (#[trigger] g0.state[j]).next_rreq_id < u64::MAX
                        && aodv_round::small_replies(g0.state[j].replies),
                forall|j: int|
                    #![trigger self@.state[j]]
                    0 <= j < g0.state.len() && (forall|a: int| 0 <= a < k ==> awake@[a] != j)
                        ==> self@.state[j] == g0.state[j],
                self.sound(nodes@.len() as int),
                self@ == aodv_round::all_asked(
                    g0,
                    super::models(nodes@),
                    balloons@,
                    adj@,
                    *params,
                    round,
                    awake@,
                    k as nat,
                ),
            decreases awake@.len() - k,
        {
            let i: usize = awake[k];
            assert(awake@[k as int] < nodes@.len());
            assert forall|a: int| 0 <= a < k implies awake@[a] != i by {
                assert(awake@[a] < awake@[k as int]);
            }
            assert(self@.state[i as int] == g0.state[i as int]);
            let ghost before = self@;
            self.ask(i, nodes, balloons, adj, params, round);
            assert forall|j: int| 0 <= j < g0.state.len() && j != i implies #[trigger] self@.state[j]
                == before.state[j] by {}
            k = k + 1;
        }
    }
}

spec fn hunt_of(nodes: Seq<DvNode>, state: Seq<AodvNode>, events: Seq<CommsEvent>) -> Hunt {
    Hunt { nodes: super::models(nodes), state: aodv_models(state), events }
}

/// The reply a balloon can give.
fn answer(
    node: &DvNode,
    i: usize,
    adj: &MeshAdjacency,
    params: &DvDtnParams,
    round: u64,
    req: Rreq,
) -> (r: Option<Rrep>)
    ensures
        r == aodv_round::reply_of(node@, adj@, i as int, *params, round, req),
{
    if let Some(tower_id) = adj.tower_in_range(i) {
        return Some(
            Rrep {
                requester: req.requester,
                id: req.id,
                tower_id,
                hops: 1,
                emitted_at_round: round,
            },
        );
    }
    if params.reply_policy == ReplyPolicy::Intermediate {
        if let Some(b) = node.belief {
            return Some(
                Rrep {
                    requester: req.requester,
                    id: req.id,
                    tower_id: b.tower_id,
                    hops: b.hop_count,
                    emitted_at_round: b.emitted_at_round,
                },
            );
        }
    }
    None
}

/// A balloon hears a request.
fn hear_call(
    nodes: &Vec<DvNode>,
    state: &mut Vec<AodvNode>,
    events: &mut Vec<CommsEvent>,
    balloons: &[Balloon],
    adj: &MeshAdjacency,
    params: &DvDtnParams,
    round: u64,
    c: CallOut,
    nb: u32,
)
    requires
        old(state)@.len() == nodes@.len(),
        c.from < balloons@.len(),
    ensures
        hunt_of(nodes@, final(state)@, final(events)@) == aodv_round::call_heard(
            hunt_of(nodes@, old(state)@, old(events)@),
            balloons@,
            adj@,
            *params,
            round,
            c@,
            nb,
        ),
        final(state)@.len() == old(state)@.len(),
{
    let idx: usize = nb as usize;
    if idx >= nodes.len() || nb == c.req.requester {
        return;
    }
    let ghost h0 = hunt_of(nodes@, state@, events@);
    let from_id: u32 = balloons[c.from].id;
    assert(h0.state[idx as int] == state@[idx as int]@);
    assert(h0.nodes[idx as int] == nodes@[idx as int]@);
    events.push(
        CommsEvent {
            kind: EventKind::RouteRequest,
            from: NodeKey::Balloon(from_id),
            to: NodeKey::Balloon(nb),
            payload: 1,
            tower_id: None,
            hop_count: Some(c.req.hops),
            epoch: Some(c.req.id),
        },
    );
    let key: u128 = flood_key(c.req.requester, c.req.id);
    if !state[idx].reverse.contains_key(&key) {
        let _ = state[idx].reverse.insert(key, from_id);
        match answer(&nodes[idx], idx, adj, params, round, c.req) {
            Some(reply) => {
                state[idx].replies.push(reply);
            },
            None => {
                state[idx].to_forward.push(c.req);
            },
        }
    }
    assert(hunt_of(nodes@, state@, events@) =~~= aodv_round::call_heard(
        h0,
        balloons@,
        adj@,
        *params,
        round,
        c@,
        nb,
    ));
}

/// Everyone in earshot hears a request.
fn spread_call(
    nodes: &Vec<DvNode>,
    state: &mut Vec<AodvNode>,
    events: &mut Vec<CommsEvent>,
    balloons: &[Balloon],
    adj: &MeshAdjacency,
    params: &DvDtnParams,
    round: u64,
    c: CallOut,
)
    requires
        old(state)@.len() == nodes@.len(),
        c.from < balloons@.len(),
    ensures
        hunt_of(nodes@, final(state)@, final(events)@) == aodv_round::call_spread(
            hunt_of(nodes@, old(state)@, old(events)@),
            balloons@,
            adj@,
            *params,
            round,
            c@,
            adj@.neighbors_of(c@.from).len(),
        ),
        final(state)@.len() == old(state)@.len(),
{
    let ghost h0 = hunt_of(nodes@, state@, events@);
    let list: &[u32] = adj.neighbors(c.from);
    let mut k: usize = 0;
    while k < list.len()
        invariant
            k <= list@.len(),
            list@ == adj@.neighbors_of(c@.from),
            state@.len() == nodes@.len(),
            c.from < balloons@.len(),
            hunt_of(nodes@, state@, events@) == aodv_round::call_spread(
                h0,
                balloons@,
                adj@,
                *params,
                round,
                c@,
                k as nat,
            ),
        decreases list@.len() - k,
    {
        hear_call(nodes, state, events, balloons, adj, params, round, c, list[k]);
        k = k + 1;
    }
}

fn spread_calls(
    nodes: &Vec<DvNode>,
    state: &mut Vec<AodvNode>,
    events: &mut Vec<CommsEvent>,
    balloons: &[Balloon],
    adj: &MeshAdjacency,
    params: &DvDtnParams,
    round: u64,
    calls: &Vec<CallOut>,
)
    requires
        old(state)@.len() == nodes@.len(),
        forall|j: int| 0 <= j < calls@.len() ==> (#[trigger] calls@[j]).from < balloons@.len(),
    ensures
        hunt_of(nodes@, final(state)@, final(events)@) == aodv_round::all_calls(
            hunt_of(nodes@, old(state)@, old(events)@),
            balloons@,
            adj@,
            *params,
            round,
            calls_of(calls@),
            calls@.len(),
        ),
        final(state)@.len() == old(state)@.len(),
{
    let ghost h0 = hunt_of(nodes@, state@, events@);
    let mut k: usize = 0;
    while k < calls.len()
        invariant
            k <= calls@.len(),
            state@.len() == nodes@.len(),
            forall|j: int| 0 <= j < calls@.len() ==> (#[trigger] calls@[j]).from < balloons@.len(),
            hunt_of(nodes@, state@, events@) == aodv_round::all_calls(
                h0,
                balloons@,
                adj@,
                *params,
                round,
                calls_of(calls@),
                k as nat,
            ),
        decreases calls@.len() - k,
    {
        let c: CallOut = calls[k];
        assert(calls_of(calls@)[k as int] == calls@[k as int]@);
        spread_call(nodes, state, events, balloons, adj, params, round, c);
        k = k + 1;
    }
}

/// Installs a route if it should be.
fn install(node: &mut DvNode, b: RouteBelief, params: &DvDtnParams)
    ensures
        final(node)@ == aodv_round::installed(old(node)@, b, *params),
{
    let ghost before = node@;
    let take: bool = match &node.belief {
        Some(cur) => beacon::should_adopt(Some(cur), &b, params),
        None => beacon::should_adopt(None, &b, params),
    };
    if take {
        node.belief = Some(b);
    }
    assert(node@ =~~= aodv_round::installed(before, b, *params));
}

/// The balloon addressed takes a reply.
fn take_reply(
    nodes: &mut Vec<DvNode>,
    state: &mut Vec<AodvNode>,
    events: &mut Vec<CommsEvent>,
    balloons: &[Balloon],
    params: &DvDtnParams,
    w: AnswerOut,
)
    requires
        old(state)@.len() == old(nodes)@.len(),
        balloons@.len() >= old(nodes)@.len(),
        w.from < balloons@.len(),
        w.to < old(nodes)@.len(),
        w.reply.hops < u32::MAX,
    ensures
        hunt_of(final(nodes)@, final(state)@, final(events)@) == aodv_round::reply_taken(
            hunt_of(old(nodes)@, old(state)@, old(events)@),
            balloons@,
            *params,
            w@,
        ),
        final(state)@.len() == old(state)@.len(),
        final(nodes)@.len() == old(nodes)@.len(),
{
    let ghost h0 = hunt_of(nodes@, state@, events@);
    let idx: usize = w.to as usize;
    let from_id: u32 = balloons[w.from].id;
    assert(h0.state[idx as int] == state@[idx as int]@);
    assert(h0.nodes[idx as int] == nodes@[idx as int]@);
    events.push(
        CommsEvent {
            kind: EventKind::RouteReply,
            from: NodeKey::Balloon(from_id),
            to: NodeKey::Balloon(w.to),
            payload: 1,
            tower_id: Some(w.reply.tower_id),
            hop_count: Some(w.reply.hops),
            epoch: Some(w.reply.id),
        },
    );
    let offer: RouteBelief = RouteBelief {
        tower_id: w.reply.tower_id,
        hop_count: w.reply.hops + 1,
        next_hop: Some(from_id),
        epoch: w.reply.id,
        emitted_at_round: w.reply.emitted_at_round,
    };
    install(&mut nodes[idx], offer, params);
    if balloons[idx].id == w.reply.requester {
        state[idx].pending = None;
        state[idx].next_ttl = 1;
    } else {
        state[idx].replies.push(Rrep { hops: w.reply.hops + 1, ..w.reply });
    }
    assert(hunt_of(nodes@, state@, events@) =~~= aodv_round::reply_taken(
        h0,
        balloons@,
        *params,
        w@,
    ));
}

/// A bystander overhears a reply.
fn overhear(
    nodes: &mut Vec<DvNode>,
    state: &mut Vec<AodvNode>,
    events: Ghost<Seq<CommsEvent>>,
    balloons: &[Balloon],
    params: &DvDtnParams,
    round: u64,
    w: AnswerOut,
    nb: u32,
)
    requires
        old(state)@.len() == old(nodes)@.len(),
        w.from < balloons@.len(),
        w.reply.hops < u32::MAX,
    ensures
        hunt_of(final(nodes)@, final(state)@, events@) == aodv_round::overheard(
            hunt_of(old(nodes)@, old(state)@, events@),
            balloons@,
            *params,
            round,
            w@,
            nb,
        ),
        final(state)@.len() == old(state)@.len(),
        final(nodes)@.len() == old(nodes)@.len(),
{
    let idx: usize = nb as usize;
    if idx >= nodes.len() || nb == w.to {
        return;
    }
    let ghost h0 = hunt_of(nodes@, state@, events@);
    assert(h0.state[idx as int] == state@[idx as int]@);
    assert(h0.nodes[idx as int] == nodes@[idx as int]@);
    let offer: RouteBelief = RouteBelief {
        tower_id: w.reply.tower_id,
        hop_count: w.reply.hops + 1,
        next_hop: Some(balloons[w.from].id),
        epoch: w.reply.id,
        emitted_at_round: w.reply.emitted_at_round,
    };
    let better: bool = match nodes[idx].belief {
        None => true,
        Some(cur) => cur.is_expired(round, params.belief_max_age_rounds) || offer.hop_count
            < cur.hop_count,
    };
    if better {
        nodes[idx].belief = Some(offer);
        state[idx].pending = None;
        state[idx].next_ttl = 1;
    }
    assert(hunt_of(nodes@, state@, events@) =~~= aodv_round::overheard(
        h0,
        balloons@,
        *params,
        round,
        w@,
        nb,
    ));
}

/// A reply arrives.
fn deliver_reply(
    nodes: &mut Vec<DvNode>,
    state: &mut Vec<AodvNode>,
    events: &mut Vec<CommsEvent>,
    balloons: &[Balloon],
    adj: &MeshAdjacency,
    params: &DvDtnParams,
    round: u64,
    w: AnswerOut,
)
    requires
        old(state)@.len() == old(nodes)@.len(),
        balloons@.len() >= old(nodes)@.len(),
        w.from < balloons@.len(),
        w.reply.hops < u32::MAX,
    ensures
        hunt_of(final(nodes)@, final(state)@, final(events)@) == aodv_round::reply_arrived(
            hunt_of(old(nodes)@, old(state)@, old(events)@),
            balloons@,
            adj@,
            *params,
            round,
            w@,
        ),
        final(state)@.len() == old(state)@.len(),
        final(nodes)@.len() == old(nodes)@.len(),
{
    if w.to as usize >= nodes.len() {
        return;
    }
    take_reply(nodes, state, events, balloons, params, w);
    if params.reply_overhearing != ReplyOverhearing::On {
        return;
    }
    let ghost taken = hunt_of(nodes@, state@, events@);
    let list: &[u32] = adj.neighbors(w.from);
    let mut k: usize = 0;
    while k < list.len()
        invariant
            k <= list@.len(),
            list@ == adj@.neighbors_of(w@.from),
            state@.len() == nodes@.len(),
            nodes@.len() == taken.nodes.len(),
            w.from < balloons@.len(),
            w.reply.hops < u32::MAX,
            hunt_of(nodes@, state@, events@) == aodv_round::all_overheard(
                taken,
                balloons@,
                adj@,
                *params,
                round,
                w@,
                k as nat,
            ),
        decreases list@.len() - k,
    {
        overhear(nodes, state, Ghost(events@), balloons, params, round, w, list[k]);
        k = k + 1;
    }
}

fn deliver_replies(
    nodes: &mut Vec<DvNode>,
    state: &mut Vec<AodvNode>,
    events: &mut Vec<CommsEvent>,
    balloons: &[Balloon],
    adj: &MeshAdjacency,
    params: &DvDtnParams,
    round: u64,
    answers: &Vec<AnswerOut>,
)
    requires
        old(state)@.len() == old(nodes)@.len(),
        balloons@.len() >= old(nodes)@.len(),
        forall|j: int|
            0 <= j < answers@.len() ==> (#[trigger] answers@[j]).from < balloons@.len()
                && answers@[j].reply.hops < u32::MAX,
    ensures
        hunt_of(final(nodes)@, final(state)@, final(events)@) == aodv_round::all_replies(
            hunt_of(old(nodes)@, old(state)@, old(events)@),
            balloons@,
            adj@,
            *params,
            round,
            answers_of(answers@),
            answers@.len(),
        ),
        final(state)@.len() == old(state)@.len(),
        final(nodes)@.len() == old(nodes)@.len(),
{
    let ghost h0 = hunt_of(nodes@, state@, events@);
    let mut k: usize = 0;
    while k < answers.len()
        invariant
            k <= answers@.len(),
            state@.len() == nodes@.len(),
            nodes@.len() == h0.nodes.len(),
            balloons@.len() >= nodes@.len(),
            forall|j: int|
                0 <= j < answers@.len() ==> (#[trigger] answers@[j]).from < balloons@.len()
                    && answers@[j].reply.hops < u32::MAX,
            hunt_of(nodes@, state@, events@) == aodv_round::all_replies(
                h0,
                balloons@,
                adj@,
                *params,
                round,
                answers_of(answers@),
                k as nat,
            ),
        decreases answers@.len() - k,
    {
        let w: AnswerOut = answers[k];
        assert(answers_of(answers@)[k as int] == answers@[k as int]@);
        deliver_reply(nodes, state, events, balloons, adj, params, round, w);
        k = k + 1;
    }
}

/// A round's outcome, as it stands in the variables.
pub open spec fn outcome_of(
    nodes: Seq<DvNode>,
    state: State,
    awake: Seq<usize>,
    events: Seq<CommsEvent>,
) -> HuntOutcome {
    HuntOutcome { nodes: super::models(nodes), state: state@, awake, events }
}

/// One round of reactive discovery for given jitter draws, one per node.
/// Expires stale routes, decides who transmits, and returns who is awake and
/// what was sent.
pub fn step_with(
    nodes: &mut Vec<DvNode>,
    state: &mut State,
    balloons: &[Balloon],
    adj: &MeshAdjacency,
    params: &DvDtnParams,
    round: u64,
    draws: &Vec<u64>,
) -> (r: (Vec<usize>, Vec<CommsEvent>))
    requires
        balloons@.len() >= old(nodes)@.len(),
        draws@.len() == old(nodes)@.len(),
        beacon::drawn(draws@, params.beacon_jitter_rounds),
        aodv_round::hunt_fits(old(state)@, *params, round),
    ensures
        outcome_of(final(nodes)@, *final(state), r.0@, r.1@) == aodv_round::hunt_round(
            super::models(old(nodes)@),
            old(state)@,
            balloons@,
            adj@,
            *params,
            round,
            draws@,
        ),
        final(nodes)@.len() == old(nodes)@.len(),
        forall|j: int| 0 <= j < r.0@.len() ==> (#[trigger] r.0@[j]) < old(nodes)@.len(),
{
    let ghost n0 = super::models(nodes@);
    let ghost s0 = state@;
    let ghost n = nodes@.len();
    let ghost kept = aodv_round::fitted(s0, n);
    state.resize(nodes.len());
    assert(state@.len() == n);
    assert forall|j: int| 0 <= j < n implies (#[trigger] state.nodes@[j])@ == kept[j] by {
        assert(state@[j] == kept[j]);
    }
    beacon::forget(nodes, round, params.belief_max_age_rounds);
    let ghost live = super::models(nodes@);
    let mut i: usize = 0;
    while i < state.nodes.len()
        invariant
            i <= state.nodes@.len(),
            state.nodes@.len() == n,
            kept.len() == n,
            forall|j: int|
                0 <= j < i ==> (#[trigger] state.nodes@[j])@ == aodv_round::resigned(
                    kept[j],
                    *params,
                    round,
                ),
            forall|j: int| i <= j < n ==> (#[trigger] state.nodes@[j])@ == kept[j],
        decreases state.nodes@.len() - i,
    {
        assert(state.nodes@[i as int]@ == kept[i as int]);
        resign(&mut state.nodes[i], params, round);
        i = i + 1;
    }
    let ghost settled = Seq::new(n, |i: int| aodv_round::resigned(kept[i], *params, round));
    let awake: Vec<usize> = beacon::wake(nodes, params, round, draws);
    proof {
        linkstate::lemma_awake_rises(live, n, round);
    }
    let mut air: Air = Air { state: Vec::new(), calls: Vec::new(), answers: Vec::new() };
    std::mem::swap(&mut air.state, &mut state.nodes);
    assert(air@ =~~= Asking {
        state: settled,
        calls: Seq::empty(),
        answers: Seq::empty(),
    });
    proof {
        assert forall|j: int| 0 <= j < n implies (#[trigger] air@.state[j]).next_rreq_id
            < u64::MAX && aodv_round::small_replies(air@.state[j].replies) by {
            assert(air@.state[j] == aodv_round::resigned(kept[j], *params, round));
            if j < s0.len() {
                assert(s0[j].next_rreq_id < u64::MAX);
            }
        }
    }
    air.ask_all(&awake, nodes, balloons, adj, params, round);
    assert(super::models(nodes@) =~= beacon::all_rescheduled(live, *params, round, draws@));
    assert(air@ == aodv_round::on_air(n0, s0, balloons@, adj@, *params, round, draws@));
    let Air { state: mut hunters, calls, answers } = air;
    let mut events: Vec<CommsEvent> = Vec::new();
    assert(calls_of(calls@).len() == calls@.len());
    assert(answers_of(answers@).len() == answers@.len());
    spread_calls(nodes, &mut hunters, &mut events, balloons, adj, params, round, &calls);
    deliver_replies(nodes, &mut hunters, &mut events, balloons, adj, params, round, &answers);
    let ghost h2 = hunt_of(nodes@, hunters@, events@);
    state.nodes = hunters;
    let mut i: usize = 0;
    while i < nodes.len()
        invariant
            i <= nodes@.len(),
            nodes@.len() == h2.nodes.len(),
            forall|j: int|
                0 <= j < i ==> (#[trigger] nodes@[j])@ == aodv_round::in_sight(
                    h2.nodes[j],
                    adj@,
                    *params,
                    round,
                    j,
                ),
            forall|j: int| i <= j < h2.nodes.len() ==> (#[trigger] nodes@[j])@ == h2.nodes[j],
        decreases nodes@.len() - i,
    {
        assert(nodes@[i as int]@ == h2.nodes[i as int]);
        if let Some(tower_id) = adj.tower_in_range(i) {
            let direct: RouteBelief = RouteBelief {
                tower_id,
                hop_count: 1,
                next_hop: None,
                epoch: 0,
                emitted_at_round: round,
            };
            install(&mut nodes[i], direct, params);
        }
        i = i + 1;
    }
    assert(outcome_of(nodes@, *state, awake@, events@) =~~= aodv_round::hunt_round(
        n0,
        s0,
        balloons@,
        adj@,
        *params,
        round,
        draws@,
    ));
    (awake, events)
}

/// One round of reactive discovery.
pub fn step(
    nodes: &mut Vec<DvNode>,
    state: &mut State,
    balloons: &[Balloon],
    adj: &MeshAdjacency,
    params: &DvDtnParams,
    round: u64,
    rng: &mut StdRng,
) -> (r: (Vec<usize>, Vec<CommsEvent>))
    requires
        balloons@.len() >= old(nodes)@.len(),
        aodv_round::hunt_fits(old(state)@, *params, round),
    ensures
        exists|draws: Seq<u64>|
            beacon::drawn(draws, params.beacon_jitter_rounds) && draws.len() == old(nodes)@.len()
                && outcome_of(final(nodes)@, *final(state), r.0@, r.1@)
                == #[trigger] aodv_round::hunt_round(
                super::models(old(nodes)@),
                old(state)@,
                balloons@,
                adj@,
                *params,
                round,
                draws,
            ),
        final(nodes)@.len() == old(nodes)@.len(),
        forall|j: int| 0 <= j < r.0@.len() ==> (#[trigger] r.0@[j]) < old(nodes)@.len(),
{
    let draws: Vec<u64> = beacon::draw_for_nodes(nodes, params, round, rng);
    let r: (Vec<usize>, Vec<CommsEvent>) = step_with(
        nodes,
        state,
        balloons,
        adj,
        params,
        round,
        &draws,
    );
    assert(outcome_of(nodes@, *state, r.0@, r.1@) == aodv_round::hunt_round(
        super::models(old(nodes)@),
        old(state)@,
        balloons@,
        adj@,
        *params,
        round,
        draws@,
    ));
    r
}
} // verus!
