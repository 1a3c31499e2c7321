//! How news of a delivery travels: a receipt sets out at a tower, goes back the way
//! its bundle came, and is written down by the balloon that waits for it.
use vstd::prelude::*;

use crate::balloon::Balloon;
use crate::mesh_adjacency::Topology;

use super::bundle;
use super::bundle::{AckModel, AckState, BundleModel, Delivery};
use super::bundle_laws;
use super::bundle_round;
use super::bundle_round::{AckGather, AckMove, RoundState};
use super::delivery_laws;
use super::params::{AckPolicy, DvDtnParams, QueueDiscipline};
use super::NodeModel;

verus! {

// ---------------------------------------------------------------------------
// Waiting, and what comes of it
// ---------------------------------------------------------------------------

/// A wait ends in vain exactly when its bundle is past the age limit: until then a
/// balloon goes on waiting, and after that it does not.
pub proof fn a_wait_ends_with_its_bundle(s: RoundState, round: u64, max_age: u64, i: int)
    requires
        0 <= i < s.nodes.len(),
    ensures
        ({
            let n = s.nodes[i];
            let m = bundle_round::waits_ended(s, round, max_age).nodes[i];
            &&& n.outstanding is None ==> m == n
            &&& n.outstanding matches Some(o) ==> {
                let late = round > o.created_at_round + max_age;
                &&& o.state != AckState::Pending || !late ==> m == n
                &&& o.state == AckState::Pending && late ==> (m.outstanding matches Some(p)
                    && p.seq == o.seq && p.state == AckState::TimedOut && p.path == o.path)
            }
        }),
{
}

/// An outcome is written down: once a balloon no longer waits for a bundle, the
/// first record it keeps under that number says how the bundle fared, by which
/// tower, and over how many hops; no other record changes.
pub proof fn an_outcome_is_written_down(n: NodeModel, j: int)
    requires
        0 <= j < n.log.len(),
        n.outstanding matches Some(o) && o.state != AckState::Pending && o.seq == n.log[j].seq,
        forall|k: int| 0 <= k < j ==> (#[trigger] n.log[k]).seq != n.log[j].seq,
    ensures
        ({
            let o = n.outstanding->Some_0;
            let m = bundle_round::settled(n);
            let r = m.log[j];
            &&& m.log.len() == n.log.len()
            &&& forall|k: int| 0 <= k < n.log.len() && k != j ==> #[trigger] m.log[k] == n.log[k]
            &&& r.seq == n.log[j].seq
            &&& r.reading == n.log[j].reading
            &&& r.ack_state == o.state
            &&& r.channel == o.channel
            &&& r.tower_id == o.tower_id
            &&& r.ack_hops_completed == o.ack_hops_completed
            &&& o.path is None ==> r.hops is None
            &&& o.path matches Some(p) ==> 0 < p.len() <= u32::MAX ==> (r.hops matches Some(h)
                && h + 1 == p.len())
            &&& m.last_resolved matches Some(l) && l.seq == o.seq && l.state == o.state
        }),
{
    lemma_first_record(n.log, 0, j);
}

proof fn lemma_first_record(log: Seq<crate::telemetry::TelemetryRecord>, k: int, j: int)
    requires
        0 <= k <= j < log.len(),
        forall|x: int| 0 <= x < j ==> (#[trigger] log[x]).seq != log[j].seq,
    ensures
        bundle_round::record_place(log, k, log[j].seq) == Some(j),
    decreases j - k,
{
    if k < j {
        assert(log[k].seq != log[j].seq);
        lemma_first_record(log, k + 1, j);
    }
}

// ---------------------------------------------------------------------------
// On the way back
// ---------------------------------------------------------------------------

/// An ack with one stop behind it.
pub open spec fn one_stop_on(a: AckModel) -> AckModel {
    AckModel { remaining: a.remaining.skip(1), ..a }
}

/// Whether a node passes the ack at the front of its queue to another that is not
/// its origin.
pub open spec fn passes_on(acks: Seq<AckModel>, near: Seq<u32>) -> bool {
    acks.len() > 0 && acks[0].remaining.len() > 1 && near.contains(acks[0].remaining[0])
}

/// Whether a node passes the ack at the front of its queue to its origin.
pub open spec fn brings_home(acks: Seq<AckModel>, near: Seq<u32>) -> bool {
    acks.len() > 0 && acks[0].remaining.len() == 1 && near.contains(acks[0].remaining[0])
}

/// What taking acks leaves of a queue: all but the front, if that goes.
spec fn front_gone(acks: Seq<AckModel>, near: Seq<u32>) -> Seq<AckModel> {
    if passes_on(acks, near) || brings_home(acks, near) {
        acks.skip(1)
    } else {
        acks
    }
}

proof fn lemma_taken(g: AckGather, topo: Topology, awake: Seq<usize>, k: nat)
    requires
        k <= awake.len(),
        forall|j: int| 0 <= j < awake.len() ==> (#[trigger] awake[j]) < g.nodes.len(),
        awake.no_duplicates(),
    ensures
        ({
            let b = bundle_round::acks_taken(g, topo, awake, k);
            &&& b.nodes.len() == g.nodes.len()
            &&& forall|j: int|
                0 <= j < g.nodes.len() ==> (#[trigger] b.nodes[j]).outstanding
                    == g.nodes[j].outstanding && b.nodes[j].last_resolved
                    == g.nodes[j].last_resolved
            &&& forall|j: int|
                0 <= j < g.nodes.len() && (forall|x: int| 0 <= x < k ==> #[trigger] awake[x] != j)
                    ==> (#[trigger] b.nodes[j]).ack_queue == g.nodes[j].ack_queue
            &&& bundle_round::acks_held(b.nodes, b.nodes.len()) + b.moves.len()
                + b.resolved.len() == bundle_round::acks_held(g.nodes, g.nodes.len())
                + g.moves.len() + g.resolved.len()
        }),
    decreases k,
{
    if k > 0 {
        lemma_taken(g, topo, awake, (k - 1) as nat);
        let a = bundle_round::acks_taken(g, topo, awake, (k - 1) as nat);
        let b = bundle_round::acks_taken(g, topo, awake, k);
        let i = awake[k - 1] as int;
        assert(awake[k - 1] < g.nodes.len());
        bundle_laws::lemma_update_counts(a.nodes, i, b.nodes[i], a.nodes.len());
        assert(b.nodes == a.nodes.update(i, b.nodes[i]));
        assert forall|j: int|
            0 <= j < g.nodes.len() && (forall|x: int|
                0 <= x < k ==> #[trigger] awake[x] != j) implies (#[trigger] b.nodes[j]).ack_queue
            == g.nodes[j].ack_queue by {
            assert(awake[k - 1] != j);
            assert(a.nodes[j].ack_queue == g.nodes[j].ack_queue);
        }
    }
}

/// What is gathered stays gathered, and a queue that has been seen to is left
/// alone.
proof fn lemma_taken_stays(g: AckGather, topo: Topology, awake: Seq<usize>, h: nat, k: nat)
    requires
        h <= k <= awake.len(),
        forall|j: int| 0 <= j < awake.len() ==> (#[trigger] awake[j]) < g.nodes.len(),
        awake.no_duplicates(),
    ensures
        ({
            let a = bundle_round::acks_taken(g, topo, awake, h);
            let b = bundle_round::acks_taken(g, topo, awake, k);
            &&& a.moves.is_prefix_of(b.moves)
            &&& a.resolved.is_prefix_of(b.resolved)
            &&& b.nodes.len() == a.nodes.len()
            &&& forall|j: int|
                0 <= j < a.nodes.len() && (forall|x: int| h <= x < k ==> #[trigger] awake[x] != j)
                    ==> (#[trigger] b.nodes[j]).ack_queue == a.nodes[j].ack_queue
        }),
    decreases k - h,
{
    if h < k {
        lemma_taken_stays(g, topo, awake, h, (k - 1) as nat);
        lemma_taken(g, topo, awake, (k - 1) as nat);
        assert(awake[k - 1] < g.nodes.len());
        let a = bundle_round::acks_taken(g, topo, awake, h);
        let c = bundle_round::acks_taken(g, topo, awake, (k - 1) as nat);
        let b = bundle_round::acks_taken(g, topo, awake, k);
        assert(c.moves.is_prefix_of(b.moves));
        assert(c.resolved.is_prefix_of(b.resolved));
        assert(a.moves =~= b.moves.subrange(0, a.moves.len() as int)) by {
            assert forall|x: int| 0 <= x < a.moves.len() implies a.moves[x] == b.moves[x] by {
                assert(a.moves[x] == c.moves[x]);
            }
        }
        assert(a.resolved =~= b.resolved.subrange(0, a.resolved.len() as int)) by {
            assert forall|x: int| 0 <= x < a.resolved.len() implies a.resolved[x]
                == b.resolved[x] by {
                assert(a.resolved[x] == c.resolved[x]);
            }
        }
        assert forall|j: int|
            0 <= j < a.nodes.len() && (forall|x: int|
                h <= x < k ==> #[trigger] awake[x] != j) implies (#[trigger] b.nodes[j]).ack_queue
            == a.nodes[j].ack_queue by {
            assert(awake[k - 1] != j);
            assert(c.nodes[j].ack_queue == a.nodes[j].ack_queue);
        }
    }
}

/// What a balloon awake contributes to the acks under way.
proof fn lemma_taken_at(g: AckGather, topo: Topology, awake: Seq<usize>, x: int) -> (m: int)
    requires
        0 <= x < awake.len(),
        forall|j: int| 0 <= j < awake.len() ==> (#[trigger] awake[j]) < g.nodes.len(),
        awake.no_duplicates(),
    ensures
        ({
            let i = awake[x] as int;
            let q = g.nodes[i].ack_queue;
            let near = topo.neighbors_of(i);
            let b = bundle_round::acks_taken(g, topo, awake, awake.len());
            &&& b.nodes[i].ack_queue == front_gone(q, near)
            &&& passes_on(q, near) ==> 0 <= m < b.moves.len() && b.moves[m].to
                == q[0].remaining[0] && b.moves[m].ack == one_stop_on(q[0])
            &&& brings_home(q, near) ==> 0 <= m < b.resolved.len() && b.resolved[m] == (
                q[0].origin_id,
                q[0].seq,
            )
        }),
{
    let i = awake[x] as int;
    let q = g.nodes[i].ack_queue;
    let near = topo.neighbors_of(i);
    let a = bundle_round::acks_taken(g, topo, awake, x as nat);
    let c = bundle_round::acks_taken(g, topo, awake, (x + 1) as nat);
    let b = bundle_round::acks_taken(g, topo, awake, awake.len());
    assert(awake[x] < g.nodes.len());
    lemma_taken(g, topo, awake, x as nat);
    lemma_taken_stays(g, topo, awake, (x + 1) as nat, awake.len());
    assert forall|y: int| 0 <= y < x implies #[trigger] awake[y] != i by {
        assert(awake[y] != awake[x]);
    }
    assert forall|y: int| x + 1 <= y < awake.len() implies #[trigger] awake[y] != i by {
        assert(awake[y] != awake[x]);
    }
    assert(a.nodes[i].ack_queue == q);
    assert(c == bundle_round::ack_taken(a, topo, i));
    if passes_on(q, near) || brings_home(q, near) {
        assert(q.skip(1) =~= q.subrange(1, q.len() as int));
        assert(q[0].remaining.skip(1) =~= q[0].remaining.subrange(
            1,
            q[0].remaining.len() as int,
        ));
    }
    assert(c.nodes[i].ack_queue == front_gone(q, near));
    if passes_on(q, near) {
        let m = a.moves.len() as int;
        assert(c.moves[m].ack == one_stop_on(q[0]));
        assert(b.moves[m] == c.moves[m]);
        m
    } else {
        let m = a.resolved.len() as int;
        if brings_home(q, near) {
            assert(c.resolved[m] == (q[0].origin_id, q[0].seq));
            assert(b.resolved[m] == c.resolved[m]);
        }
        m
    }
}

/// Handing acks over only adds to queues, at most one each time, and changes
/// nobody's mind on what has arrived.
pub(crate) proof fn lemma_handed(
    s: RoundState,
    fleet: Seq<Balloon>,
    params: DvDtnParams,
    moves: Seq<AckMove>,
    h: nat,
    k: nat,
)
    requires
        h <= k <= moves.len(),
    ensures
        ({
            let a = bundle_round::acks_handed(s, fleet, params, moves, h);
            let b = bundle_round::acks_handed(s, fleet, params, moves, k);
            &&& b.nodes.len() == a.nodes.len()
            &&& forall|j: int|
                0 <= j < a.nodes.len() ==> a.nodes[j].ack_queue.is_prefix_of(
                    (#[trigger] b.nodes[j]).ack_queue,
                )
            &&& forall|j: int|
                0 <= j < a.nodes.len() ==> same_news(a.nodes[j], #[trigger] b.nodes[j])
            &&& bundle_round::acks_held(b.nodes, b.nodes.len()) <= bundle_round::acks_held(
                a.nodes,
                a.nodes.len(),
            ) + (k - h)
            &&& b.tally.acked == a.tally.acked
        }),
    decreases k - h,
{
    if h < k {
        lemma_handed(s, fleet, params, moves, h, (k - 1) as nat);
        let a = bundle_round::acks_handed(s, fleet, params, moves, h);
        let c = bundle_round::acks_handed(s, fleet, params, moves, (k - 1) as nat);
        let b = bundle_round::acks_handed(s, fleet, params, moves, k);
        let mv = moves[k - 1];
        if mv.to < c.nodes.len() && c.nodes[mv.to as int].ack_queue.len()
            < params.ack_queue_capacity {
            let t = mv.to as int;
            bundle_laws::lemma_update_counts(c.nodes, t, b.nodes[t], c.nodes.len());
            assert(b.nodes == c.nodes.update(t, b.nodes[t]));
        } else if mv.ack.origin_id < c.nodes.len() {
            let t = mv.ack.origin_id as int;
            bundle_laws::lemma_update_counts(c.nodes, t, b.nodes[t], c.nodes.len());
            assert(b.nodes == c.nodes.update(t, b.nodes[t]));
        }
        assert forall|j: int| 0 <= j < a.nodes.len() implies a.nodes[j].ack_queue.is_prefix_of(
            (#[trigger] b.nodes[j]).ack_queue,
        ) by {
            assert(a.nodes[j].ack_queue.is_prefix_of(c.nodes[j].ack_queue));
            assert(c.nodes[j].ack_queue.is_prefix_of(b.nodes[j].ack_queue));
            lemma_prefixes(a.nodes[j].ack_queue, c.nodes[j].ack_queue, b.nodes[j].ack_queue);
        }
        assert forall|j: int| 0 <= j < a.nodes.len() implies same_news(
            a.nodes[j],
            #[trigger] b.nodes[j],
        ) by {
            assert(same_news(a.nodes[j], c.nodes[j]));
        }
    }
}

proof fn lemma_prefixes(a: Seq<AckModel>, b: Seq<AckModel>, c: Seq<AckModel>)
    requires
        a.is_prefix_of(b),
        b.is_prefix_of(c),
    ensures
        a.is_prefix_of(c),
{
    assert forall|x: int| 0 <= x < a.len() implies a[x] == c[x] by {
        assert(a[x] == b[x]);
        assert(b[x] == c[x]);
    }
    assert(a =~= c.subrange(0, a.len() as int));
}

/// Whether a node waits for the same bundle, with the same outcome so far.
pub(crate) open spec fn same_news(a: NodeModel, b: NodeModel) -> bool {
    &&& a.outstanding is None <==> b.outstanding is None
    &&& a.outstanding matches Some(o) ==> (b.outstanding matches Some(p) && p.seq == o.seq
        && p.state == o.state && p.created_at_round == o.created_at_round)
    &&& b.last_resolved == a.last_resolved
}

/// Whether a node knows that its bundle of this number arrived.
pub open spec fn knows_it_arrived(n: NodeModel, seq: u64) -> bool {
    &&& n.outstanding matches Some(o) && o.seq == seq && o.state == AckState::Acked
    &&& n.last_resolved matches Some(l) && l.seq == seq && l.state == AckState::Acked
}

/// Whether a node waits for its bundle of this number.
pub open spec fn waits_for(n: NodeModel, seq: u64) -> bool {
    n.outstanding matches Some(o) && o.seq == seq && o.state == AckState::Pending
}

proof fn lemma_received(s: RoundState, resolved: Seq<(u32, u64)>, round: u64, k: nat, o: int, seq: u64)
    requires
        k <= resolved.len(),
        0 <= o < s.nodes.len(),
        waits_for(s.nodes[o], seq) || knows_it_arrived(s.nodes[o], seq),
    ensures
        ({
            let b = bundle_round::acks_received(s, resolved, round, k);
            &&& b.nodes.len() == s.nodes.len()
            &&& waits_for(b.nodes[o], seq) || knows_it_arrived(b.nodes[o], seq)
            &&& (exists|m: int| 0 <= m < k && #[trigger] resolved[m] == (o as u32, seq)) && o
                <= u32::MAX ==> knows_it_arrived(b.nodes[o], seq)
        }),
    decreases k,
{
    if k > 0 {
        lemma_received(s, resolved, round, (k - 1) as nat, o, seq);
        if exists|m: int| 0 <= m < k && #[trigger] resolved[m] == (o as u32, seq) {
            let m = choose|m: int| 0 <= m < k && #[trigger] resolved[m] == (o as u32, seq);
            if m < k - 1 {
                assert(resolved[m] == (o as u32, seq));
            }
        }
    }
}

pub(crate) proof fn lemma_received_queues(s: RoundState, resolved: Seq<(u32, u64)>, round: u64, k: nat)
    requires
        k <= resolved.len(),
    ensures
        ({
            let b = bundle_round::acks_received(s, resolved, round, k);
            &&& b.nodes.len() == s.nodes.len()
            &&& forall|j: int|
                0 <= j < s.nodes.len() ==> (#[trigger] b.nodes[j]).ack_queue
                    == s.nodes[j].ack_queue
            &&& b.tally.acked == s.tally.acked + k
        }),
    decreases k,
{
    if k > 0 {
        lemma_received_queues(s, resolved, round, (k - 1) as nat);
    }
}

/// An ack moves on. If a balloon awake hears the next stop of the ack at the front
/// of its queue, and that stop is not the last, the ack is there when the acks have
/// gone round, with one stop fewer to go, and is gone from where it was; unless
/// there may be no room for it.
pub proof fn an_ack_moves_on(
    s: RoundState,
    fleet: Seq<Balloon>,
    topo: Topology,
    params: DvDtnParams,
    awake: Seq<usize>,
    round: u64,
    i: int,
)
    requires
        forall|j: int| 0 <= j < awake.len() ==> (#[trigger] awake[j]) < s.nodes.len(),
        awake.no_duplicates(),
        0 <= i < s.nodes.len() <= usize::MAX,
        awake.contains(i as usize),
        ({
            let q = s.nodes[i].ack_queue;
            q.len() > 0 && q[0].remaining.len() > 1 && q[0].remaining[0] < s.nodes.len()
                && topo.neighbors_of(i).contains(q[0].remaining[0])
        }),
        bundle_round::acks_held(s.nodes, s.nodes.len()) <= params.ack_queue_capacity,
    ensures
        ({
            let q = s.nodes[i].ack_queue;
            let next = q[0].remaining[0] as int;
            let after = bundle_round::acks_forwarded(s, fleet, topo, params, awake, round);
            &&& after.nodes[next].ack_queue.contains(
                AckModel { remaining: q[0].remaining.skip(1), ..q[0] },
            )
            &&& q.skip(1).is_prefix_of(after.nodes[i].ack_queue)
        }),
{
    let q = s.nodes[i].ack_queue;
    let next = q[0].remaining[0] as int;
    let g0 = bundle_round::ack_gather_start(s.nodes);
    let g = bundle_round::acks_taken(g0, topo, awake, awake.len());
    let x = awake.index_of(i as usize);
    assert(awake[x] == i);
    let m = lemma_taken_at(g0, topo, awake, x);
    lemma_taken(g0, topo, awake, awake.len());
    let a = RoundState { nodes: g.nodes, ..s };
    lemma_handed(a, fleet, params, g.moves, 0, m as nat);
    let c = bundle_round::acks_handed(a, fleet, params, g.moves, m as nat);
    lemma_one_of_held(c.nodes, next, c.nodes.len());
    let d = bundle_round::acks_handed(a, fleet, params, g.moves, (m + 1) as nat);
    let e = one_stop_on(q[0]);
    let last = c.nodes[next].ack_queue.len() as int;
    assert(d.nodes[next].ack_queue == c.nodes[next].ack_queue.push(e));
    lemma_handed(a, fleet, params, g.moves, (m + 1) as nat, g.moves.len());
    lemma_handed(a, fleet, params, g.moves, 0, g.moves.len());
    let b = bundle_round::acks_handed(a, fleet, params, g.moves, g.moves.len());
    assert(d.nodes[next].ack_queue.is_prefix_of(b.nodes[next].ack_queue));
    assert(d.nodes[next].ack_queue[last] == e);
    assert(b.nodes[next].ack_queue[last] == e);
    assert(a.nodes[i].ack_queue.is_prefix_of(b.nodes[i].ack_queue));
    lemma_received_queues(b, g.resolved, round, g.resolved.len());
}

proof fn lemma_one_of_held(nodes: Seq<NodeModel>, i: int, k: nat)
    requires
        0 <= i < k <= nodes.len(),
    ensures
        nodes[i].ack_queue.len() <= bundle_round::acks_held(nodes, k),
    decreases k,
{
    if i < k - 1 {
        lemma_one_of_held(nodes, i, (k - 1) as nat);
    }
}

/// An ack comes home. If a balloon awake hears the last stop of the ack at the
/// front of its queue, the balloon that waits for it knows, when the acks have gone
/// round, that its bundle arrived.
pub proof fn an_ack_comes_home(
    s: RoundState,
    fleet: Seq<Balloon>,
    topo: Topology,
    params: DvDtnParams,
    awake: Seq<usize>,
    round: u64,
    i: int,
)
    requires
        forall|j: int| 0 <= j < awake.len() ==> (#[trigger] awake[j]) < s.nodes.len(),
        awake.no_duplicates(),
        0 <= i < s.nodes.len() <= usize::MAX,
        awake.contains(i as usize),
        ({
            let q = s.nodes[i].ack_queue;
            q.len() > 0 && q[0].remaining.len() == 1 && topo.neighbors_of(i).contains(
                q[0].remaining[0],
            ) && q[0].origin_id < s.nodes.len() && waits_for(
                s.nodes[q[0].origin_id as int],
                q[0].seq,
            )
        }),
    ensures
        ({
            let q = s.nodes[i].ack_queue;
            let after = bundle_round::acks_forwarded(s, fleet, topo, params, awake, round);
            &&& knows_it_arrived(after.nodes[q[0].origin_id as int], q[0].seq)
            &&& q.skip(1).is_prefix_of(after.nodes[i].ack_queue)
        }),
{
    let q = s.nodes[i].ack_queue;
    let o = q[0].origin_id as int;
    let seq = q[0].seq;
    let g0 = bundle_round::ack_gather_start(s.nodes);
    let g = bundle_round::acks_taken(g0, topo, awake, awake.len());
    let x = awake.index_of(i as usize);
    assert(awake[x] == i);
    let m = lemma_taken_at(g0, topo, awake, x);
    lemma_taken(g0, topo, awake, awake.len());
    let a = RoundState { nodes: g.nodes, ..s };
    lemma_handed(a, fleet, params, g.moves, 0, g.moves.len());
    let b = bundle_round::acks_handed(a, fleet, params, g.moves, g.moves.len());
    assert(a.nodes[i].ack_queue.is_prefix_of(b.nodes[i].ack_queue));
    assert(a.nodes[o].outstanding == s.nodes[o].outstanding);
    assert(same_news(a.nodes[o], b.nodes[o]));
    assert(waits_for(b.nodes[o], seq));
    assert(g.resolved[m] == (o as u32, seq));
    lemma_received(b, g.resolved, round, g.resolved.len(), o, seq);
    lemma_received_queues(b, g.resolved, round, g.resolved.len());
}

proof fn lemma_homecomings(g: AckGather, topo: Topology, awake: Seq<usize>, k: nat)
    requires
        k <= awake.len(),
        forall|j: int| 0 <= j < awake.len() ==> (#[trigger] awake[j]) < g.nodes.len(),
        awake.no_duplicates(),
    ensures
        bundle_round::acks_taken(g, topo, awake, k).resolved.len() == g.resolved.len()
            + delivery_laws::sum_over(
            awake,
            |j: int|
                delivery_laws::one_if(brings_home(g.nodes[j].ack_queue, topo.neighbors_of(j))),
            k,
        ),
    decreases k,
{
    if k > 0 {
        lemma_homecomings(g, topo, awake, (k - 1) as nat);
        lemma_taken(g, topo, awake, (k - 1) as nat);
        let a = bundle_round::acks_taken(g, topo, awake, (k - 1) as nat);
        let i = awake[k - 1] as int;
        assert(awake[k - 1] < g.nodes.len());
        assert forall|x: int| 0 <= x < k - 1 implies #[trigger] awake[x] != i by {
            assert(awake[x] != awake[k - 1]);
        }
        assert(a.nodes[i].ack_queue == g.nodes[i].ack_queue);
    }
}

/// As many acks are counted in as come home: one for every balloon awake that hears
/// the last stop of the ack at the front of its queue.
pub proof fn every_homecoming_is_counted(
    s: RoundState,
    fleet: Seq<Balloon>,
    topo: Topology,
    params: DvDtnParams,
    awake: Seq<usize>,
    round: u64,
)
    requires
        forall|j: int| 0 <= j < awake.len() ==> (#[trigger] awake[j]) < s.nodes.len(),
        awake.no_duplicates(),
    ensures
        bundle_round::acks_forwarded(s, fleet, topo, params, awake, round).tally.acked
            == s.tally.acked + delivery_laws::sum_over(
            awake,
            |j: int|
                delivery_laws::one_if(brings_home(s.nodes[j].ack_queue, topo.neighbors_of(j))),
            awake.len(),
        ),
{
    let g0 = bundle_round::ack_gather_start(s.nodes);
    let g = bundle_round::acks_taken(g0, topo, awake, awake.len());
    lemma_homecomings(g0, topo, awake, awake.len());
    let a = RoundState { nodes: g.nodes, ..s };
    lemma_handed(a, fleet, params, g.moves, 0, g.moves.len());
    let b = bundle_round::acks_handed(a, fleet, params, g.moves, g.moves.len());
    lemma_received_queues(b, g.resolved, round, g.resolved.len());
}

// ---------------------------------------------------------------------------
// Setting out
// ---------------------------------------------------------------------------

/// The bundle whose turn it is after `m` others.
pub open spec fn turn(q: Seq<BundleModel>, d: QueueDiscipline, m: int) -> BundleModel {
    match d {
        QueueDiscipline::Fifo => q[m],
        QueueDiscipline::Lifo => q[q.len() - 1 - m],
    }
}

/// The answer to a delivery, which goes back the way the bundle came.
pub open spec fn answer(c: BundleModel) -> AckModel {
    AckModel {
        origin_id: c.origin_id,
        seq: c.seq,
        created_at_round: c.created_at_round,
        remaining: c.path.drop_last().reverse(),
        total_hops: (((c.path.len() - 1) as nat) as usize) as u32,
    }
}

proof fn lemma_answering(
    s: RoundState,
    i: int,
    tower_id: u32,
    params: DvDtnParams,
    round: u64,
    h: nat,
    k: nat,
    seq: u64,
)
    requires
        0 <= i < s.nodes.len(),
        h <= k <= s.nodes[i].queue.len(),
    ensures
        ({
            let a = bundle_round::bundles_delivered(s, i, tower_id, params, round, h);
            let b = bundle_round::bundles_delivered(s, i, tower_id, params, round, k);
            &&& a.deliveries.is_prefix_of(b.deliveries)
            &&& a.nodes[i].ack_queue.is_prefix_of(b.nodes[i].ack_queue)
            &&& b.nodes[i].ack_queue.len() <= a.nodes[i].ack_queue.len() + (k - h)
            &&& waits_for(a.nodes[i], seq) ==> waits_for(b.nodes[i], seq) || knows_it_arrived(
                b.nodes[i],
                seq,
            )
            &&& knows_it_arrived(a.nodes[i], seq) ==> knows_it_arrived(b.nodes[i], seq)
        }),
    decreases k - h,
{
    if h < k {
        lemma_answering(s, i, tower_id, params, round, h, (k - 1) as nat, seq);
        delivery_laws::lemma_delivered(s, i, tower_id, params, round, (k - 1) as nat);
        let a = bundle_round::bundles_delivered(s, i, tower_id, params, round, h);
        let c = bundle_round::bundles_delivered(s, i, tower_id, params, round, (k - 1) as nat);
        let b = bundle_round::bundles_delivered(s, i, tower_id, params, round, k);
        assert(c.nodes[i].ack_queue.is_prefix_of(b.nodes[i].ack_queue));
        lemma_prefixes(a.nodes[i].ack_queue, c.nodes[i].ack_queue, b.nodes[i].ack_queue);
        assert(a.deliveries =~= b.deliveries.subrange(0, a.deliveries.len() as int)) by {
            assert forall|x: int| 0 <= x < a.deliveries.len() implies a.deliveries[x]
                == b.deliveries[x] by {
                assert(a.deliveries[x] == c.deliveries[x]);
            }
        }
    }
}

/// A delivery is answered. Of every bundle that a contact with a tower takes, the
/// tower writes down that it has it, where receipts travel as digests; where they
/// travel as packets, one sets out from the last holder on the way that the bundle
/// came, as far as there is room for it, and an origin that is the last holder
/// itself knows at once.
pub proof fn a_delivery_is_answered(
    s: RoundState,
    fleet: Seq<Balloon>,
    i: int,
    tower_id: u32,
    params: DvDtnParams,
    round: u64,
    m: int,
)
    requires
        0 <= i < s.nodes.len(),
        0 <= m < s.nodes[i].queue.len(),
        m < params.batch.tower_contact,
    ensures
        ({
            let n = s.nodes[i];
            let c = turn(n.queue, params.queue_discipline, m);
            let after = bundle_round::tower_contact(s, fleet, i, tower_id, params, round);
            &&& params.ack_policy == AckPolicy::Digest ==> after.deliveries.contains(
                Delivery { tower_id, origin_id: c.origin_id, seq: c.seq },
            )
            &&& params.ack_policy != AckPolicy::Digest && c.path.len() > 1 && n.ack_queue.len()
                + n.queue.len() <= params.ack_queue_capacity ==> after.nodes[i].ack_queue.contains(
                answer(c),
            )
            &&& params.ack_policy != AckPolicy::Digest && c.path.len() <= 1 && waits_for(n, c.seq)
                ==> knows_it_arrived(after.nodes[i], c.seq)
        }),
{
    let n = s.nodes[i];
    let c = turn(n.queue, params.queue_discipline, m);
    let after = bundle_round::tower_contact(s, fleet, i, tower_id, params, round);
    let k = bundle_round::contact_size(n, params);
    let first = delivery_laws::announced(s, fleet, i, tower_id, k);
    assert(after == bundle_round::bundles_delivered(first, i, tower_id, params, round, k));
    delivery_laws::lemma_delivered(first, i, tower_id, params, round, m as nat);
    lemma_answering(first, i, tower_id, params, round, 0, m as nat, c.seq);
    lemma_answering(first, i, tower_id, params, round, (m + 1) as nat, k, c.seq);
    let a = bundle_round::bundles_delivered(first, i, tower_id, params, round, m as nat);
    let b = bundle_round::bundles_delivered(first, i, tower_id, params, round, (m + 1) as nat);
    let q = a.nodes[i].queue;
    let place = bundle::nth_place(q.len() as int, params.queue_discipline, 0);
    assert(q[place] == c);
    if params.ack_policy == AckPolicy::Digest {
        let x = a.deliveries.len() as int;
        assert(b.deliveries[x] == Delivery { tower_id, origin_id: c.origin_id, seq: c.seq });
        assert(after.deliveries[x] == b.deliveries[x]);
    } else if c.path.len() > 1 {
        assert(bundle_round::way_back(c.path) =~= c.path.drop_last().reverse());
        let x = a.nodes[i].ack_queue.len() as int;
        if n.ack_queue.len() + n.queue.len() <= params.ack_queue_capacity {
            assert(b.nodes[i].ack_queue[x] == answer(c));
            assert(after.nodes[i].ack_queue[x] == b.nodes[i].ack_queue[x]);
        }
    }
}

} // verus!
