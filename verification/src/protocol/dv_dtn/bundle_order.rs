//! What holds of every node after every round: nothing outgrows its bounds,
//! logs stay in order, bundles say truly where they have been, and none
//! outstays its time.
use vstd::prelude::*;

use crate::balloon::Balloon;
use crate::mesh_adjacency::Topology;
use crate::telemetry::TelemetryRecord;

use super::bundle;
use super::bundle::{AckModel, AckState, BundleModel, OutstandingModel};
use super::bundle_round;
use super::bundle_round::{AckGather, AckMove, Gather, Handoff, RoundState};
use super::bundle_stats::Tally;
use super::params::{AckPolicy, DvDtnParams};
use super::NodeModel;

verus! {

// ---------------------------------------------------------------------------
// Steps that add nothing
// ---------------------------------------------------------------------------

/// Whether two logs hold the same records, outcomes aside.
pub open spec fn same_records(a: Seq<TelemetryRecord>, b: Seq<TelemetryRecord>) -> bool {
    &&& a.len() == b.len()
    &&& forall|k: int|
        0 <= k < a.len() ==> (#[trigger] b[k]).origin_id == a[k].origin_id && b[k].seq == a[k].seq
}

/// How many of the first `k` bundles of a queue have this identity.
pub open spec fn times(q: Seq<BundleModel>, origin_id: u32, seq: u64, k: nat) -> nat
    decreases k,
{
    if k == 0 {
        0
    } else {
        times(q, origin_id, seq, (k - 1) as nat) + (if q[k - 1].origin_id == origin_id
            && q[k - 1].seq == seq {
            1nat
        } else {
            0
        })
    }
}

/// Whether a node has at most let go of bundles, and kept its log and its
/// acks in bounds.
pub(crate) open spec fn tame(a: NodeModel, b: NodeModel, params: DvDtnParams) -> bool {
    &&& b.queue.len() <= a.queue.len()
    &&& forall|j: int| 0 <= j < b.queue.len() ==> a.queue.contains(#[trigger] b.queue[j])
    &&& forall|o: u32, n: u64| #[trigger]
        times(b.queue, o, n, b.queue.len()) <= times(a.queue, o, n, a.queue.len())
    &&& same_records(a.log, b.log)
    &&& b.bundle_seq == a.bundle_seq
    &&& b.next_bundle_round == a.next_bundle_round
    &&& a.ack_queue.len() <= params.ack_queue_capacity ==> b.ack_queue.len()
        <= params.ack_queue_capacity
}

pub(crate) open spec fn all_tame(a: Seq<NodeModel>, b: Seq<NodeModel>, params: DvDtnParams) -> bool {
    &&& a.len() == b.len()
    &&& forall|i: int| 0 <= i < a.len() ==> tame(#[trigger] a[i], b[i], params)
}

pub(crate) proof fn lemma_tame_same(a: NodeModel, b: NodeModel, params: DvDtnParams)
    requires
        b.queue == a.queue,
        same_records(a.log, b.log),
        b.bundle_seq == a.bundle_seq,
        b.next_bundle_round == a.next_bundle_round,
        a.ack_queue.len() <= params.ack_queue_capacity ==> b.ack_queue.len()
            <= params.ack_queue_capacity,
    ensures
        tame(a, b, params),
{
    assert forall|j: int| 0 <= j < b.queue.len() implies a.queue.contains(
        #[trigger] b.queue[j],
    ) by {
        assert(a.queue[j] == b.queue[j]);
    }
}

pub(crate) proof fn lemma_tame_on(a: NodeModel, b: NodeModel, c: NodeModel, params: DvDtnParams)
    requires
        tame(a, b, params),
        tame(b, c, params),
    ensures
        tame(a, c, params),
{
    assert forall|j: int| 0 <= j < c.queue.len() implies a.queue.contains(
        #[trigger] c.queue[j],
    ) by {
        let x = b.queue.index_of(c.queue[j]);
        assert(b.queue[x] == c.queue[j]);
    }
}

pub(crate) proof fn lemma_all_tame_on(
    a: Seq<NodeModel>,
    b: Seq<NodeModel>,
    c: Seq<NodeModel>,
    params: DvDtnParams,
)
    requires
        all_tame(a, b, params),
        all_tame(b, c, params),
    ensures
        all_tame(a, c, params),
{
    assert forall|i: int| 0 <= i < a.len() implies tame(#[trigger] a[i], c[i], params) by {
        assert(tame(b[i], c[i], params));
        lemma_tame_on(a[i], b[i], c[i], params);
    }
}

pub(crate) proof fn lemma_all_tame_self(a: Seq<NodeModel>, params: DvDtnParams)
    ensures
        all_tame(a, a, params),
{
    assert forall|i: int| 0 <= i < a.len() implies tame(#[trigger] a[i], a[i], params) by {
        lemma_tame_same(a[i], a[i], params);
    }
}

pub(crate) proof fn lemma_one_tame(a: Seq<NodeModel>, i: int, n: NodeModel, params: DvDtnParams)
    requires
        0 <= i < a.len(),
        tame(a[i], n, params),
    ensures
        all_tame(a, a.update(i, n), params),
{
    assert forall|j: int| 0 <= j < a.len() implies tame(
        #[trigger] a[j],
        a.update(i, n)[j],
        params,
    ) by {
        if j != i {
            lemma_tame_same(a[j], a[j], params);
        }
    }
}

proof fn lemma_record_place(log: Seq<TelemetryRecord>, k: int, seq: u64)
    requires
        0 <= k,
    ensures
        bundle_round::record_place(log, k, seq) matches Some(j) ==> k <= j < log.len(),
    decreases log.len() - k,
{
    if k < log.len() {
        lemma_record_place(log, k + 1, seq);
    }
}

proof fn lemma_settled_tame(n: NodeModel, params: DvDtnParams)
    ensures
        tame(n, bundle_round::settled(n), params),
{
    if let Some(o) = n.outstanding {
        lemma_record_place(n.log, 0, o.seq);
    }
    lemma_tame_same(n, bundle_round::settled(n), params);
}

pub(crate) proof fn lemma_told_tame(n: NodeModel, seq: u64, params: DvDtnParams)
    ensures
        tame(n, bundle_round::told(n, seq), params),
{
    let heard = if bundle_round::awaits(n, seq) {
        NodeModel {
            outstanding: Some(
                OutstandingModel { state: AckState::Acked, ..n.outstanding->Some_0 },
            ),
            ..n
        }
    } else {
        n
    };
    lemma_tame_same(n, heard, params);
    lemma_settled_tame(heard, params);
    lemma_tame_on(n, heard, bundle_round::settled(heard), params);
}

proof fn lemma_notes_tame(
    nodes: Seq<NodeModel>,
    b: BundleModel,
    tower_id: u32,
    hops: u32,
    params: DvDtnParams,
)
    ensures
        all_tame(nodes, bundle_round::note_sent_up(nodes, b), params),
        all_tame(nodes, bundle_round::note_landed(nodes, b, tower_id), params),
        all_tame(
            nodes,
            bundle_round::note_dead_end(nodes, b.origin_id, b.seq, b.path),
            params,
        ),
        all_tame(
            nodes,
            bundle_round::note_receipt_lost(nodes, b.origin_id, b.seq, hops),
            params,
        ),
{
    lemma_all_tame_self(nodes, params);
    let o = b.origin_id as int;
    if o < nodes.len() {
        let n = nodes[o];
        lemma_tame_same(n, bundle_round::sent_up(n, b), params);
        lemma_one_tame(nodes, o, bundle_round::sent_up(n, b), params);
        lemma_tame_same(n, bundle_round::landed(n, b, tower_id), params);
        lemma_one_tame(nodes, o, bundle_round::landed(n, b, tower_id), params);
        lemma_tame_same(n, bundle_round::dead_ended(n, b.seq, b.path), params);
        lemma_one_tame(nodes, o, bundle_round::dead_ended(n, b.seq, b.path), params);
        lemma_tame_same(n, bundle_round::receipt_lost(n, b.seq, hops), params);
        lemma_one_tame(nodes, o, bundle_round::receipt_lost(n, b.seq, hops), params);
    }
}

proof fn lemma_note_lost_tame(
    nodes: Seq<NodeModel>,
    origin_id: u32,
    seq: u64,
    hops: u32,
    params: DvDtnParams,
)
    ensures
        all_tame(
            nodes,
            bundle_round::note_receipt_lost(nodes, origin_id, seq, hops),
            params,
        ),
{
    lemma_all_tame_self(nodes, params);
    let o = origin_id as int;
    if o < nodes.len() {
        lemma_tame_same(nodes[o], bundle_round::receipt_lost(nodes[o], seq, hops), params);
        lemma_one_tame(nodes, o, bundle_round::receipt_lost(nodes[o], seq, hops), params);
    }
}

// ---------------------------------------------------------------------------
// Opening the round
// ---------------------------------------------------------------------------

proof fn lemma_live_bundles(q: Seq<BundleModel>, k: nat, round: u64, max_age: u64)
    requires
        k <= q.len(),
    ensures
        forall|o: u32, n: u64| #[trigger]
            times(
                bundle_round::live_bundles(q, k, round, max_age),
                o,
                n,
                bundle_round::live_bundles(q, k, round, max_age).len(),
            ) <= times(q, o, n, k),
        bundle_round::live_bundles(q, k, round, max_age).len() <= k,
        forall|j: int|
            0 <= j < bundle_round::live_bundles(q, k, round, max_age).len() ==> {
                &&& q.contains(
                    #[trigger] bundle_round::live_bundles(q, k, round, max_age)[j],
                )
                &&& bundle_round::live_bundles(q, k, round, max_age)[j].age(round) <= max_age
            },
    decreases k,
{
    if k > 0 {
        lemma_live_bundles(q, (k - 1) as nat, round, max_age);
        assert(q.contains(q[k - 1]));
        let before = bundle_round::live_bundles(q, (k - 1) as nat, round, max_age);
        let after = bundle_round::live_bundles(q, k, round, max_age);
        assert forall|o: u32, n: u64| #[trigger] times(after, o, n, after.len()) <= times(
            q,
            o,
            n,
            k,
        ) by {
            assert(times(before, o, n, before.len()) <= times(q, o, n, (k - 1) as nat));
            if after.len() == before.len() + 1 {
                lemma_times_prefix(before, after, o, n, before.len());
            }
        }
    }
}

proof fn lemma_times_prefix(
    a: Seq<BundleModel>,
    b: Seq<BundleModel>,
    o: u32,
    n: u64,
    k: nat,
)
    requires
        k <= a.len(),
        k <= b.len(),
        forall|j: int| 0 <= j < k ==> a[j] == b[j],
    ensures
        times(a, o, n, k) == times(b, o, n, k),
    decreases k,
{
    if k > 0 {
        lemma_times_prefix(a, b, o, n, (k - 1) as nat);
    }
}

/// Taking a bundle out of a queue takes one occurrence of its identity.
pub(crate) proof fn lemma_times_removed(
    q: Seq<BundleModel>,
    place: int,
    o: u32,
    n: u64,
    k: nat,
)
    requires
        0 <= place < q.len(),
        k <= q.len(),
    ensures
        k <= place ==> times(q.remove(place), o, n, k) == times(q, o, n, k),
        k > place ==> times(q.remove(place), o, n, (k - 1) as nat) == times(q, o, n, k) - (
        if q[place].origin_id == o && q[place].seq == n {
            1int
        } else {
            0
        }),
    decreases k,
{
    let r = q.remove(place);
    if k > 0 {
        lemma_times_removed(q, place, o, n, (k - 1) as nat);
        if k <= place {
            assert(r[k - 1] == q[k - 1]);
        } else if k == place + 1 {
            lemma_times_prefix(r, q, o, n, place as nat);
        } else {
            assert(r[k - 2] == q[k - 1]);
        }
    }
}

proof fn lemma_live_acks(q: Seq<AckModel>, k: nat, round: u64, max_age: u64)
    requires
        k <= q.len(),
    ensures
        bundle_round::live_acks(q, k, round, max_age).len() <= k,
    decreases k,
{
    if k > 0 {
        lemma_live_acks(q, (k - 1) as nat, round, max_age);
    }
}

proof fn lemma_sent_up_tame(
    nodes: Seq<NodeModel>,
    list: Seq<BundleModel>,
    k: nat,
    params: DvDtnParams,
)
    ensures
        all_tame(nodes, bundle_round::all_noted_sent_up(nodes, list, k), params),
    decreases k,
{
    lemma_all_tame_self(nodes, params);
    if k > 0 {
        lemma_sent_up_tame(nodes, list, (k - 1) as nat, params);
        let before = bundle_round::all_noted_sent_up(nodes, list, (k - 1) as nat);
        lemma_notes_tame(before, list[k - 1], 0, 0, params);
        lemma_all_tame_on(
            nodes,
            before,
            bundle_round::all_noted_sent_up(nodes, list, k),
            params,
        );
    }
}

proof fn lemma_lost_tame(nodes: Seq<NodeModel>, list: Seq<AckModel>, k: nat, params: DvDtnParams)
    ensures
        all_tame(nodes, bundle_round::all_noted_lost(nodes, list, k), params),
    decreases k,
{
    lemma_all_tame_self(nodes, params);
    if k > 0 {
        lemma_lost_tame(nodes, list, (k - 1) as nat, params);
        let before = bundle_round::all_noted_lost(nodes, list, (k - 1) as nat);
        let a = list[k - 1];
        lemma_note_lost_tame(before, a.origin_id, a.seq, a.hops_completed(), params);
        lemma_all_tame_on(nodes, before, bundle_round::all_noted_lost(nodes, list, k), params);
    }
}

/// Whether no node holds a bundle older than a bundle may be.
pub open spec fn all_in_time(nodes: Seq<NodeModel>, round: u64, max_age: u64) -> bool {
    forall|i: int, j: int|
        0 <= i < nodes.len() && 0 <= j < nodes[i].queue.len() ==> (
        #[trigger] nodes[i].queue[j]).age(round) <= max_age
}

pub(crate) proof fn lemma_opening(s: RoundState, topo: Topology, params: DvDtnParams, round: u64)
    ensures
        all_tame(
            s.nodes,
            bundle_round::round_opened(s, topo, params, round).nodes,
            params,
        ),
        all_in_time(
            bundle_round::round_opened(s, topo, params, round).nodes,
            round,
            params.bundle_max_age_rounds,
        ),
{
    let max_age = params.bundle_max_age_rounds;
    let kept = Seq::new(
        s.nodes.len(),
        |i: int| bundle_round::bundles_trimmed(s.nodes[i], round, max_age),
    );
    assert forall|i: int| 0 <= i < s.nodes.len() implies tame(
        #[trigger] s.nodes[i],
        kept[i],
        params,
    ) by {
        lemma_live_bundles(s.nodes[i].queue, s.nodes[i].queue.len(), round, max_age);
    }
    assert forall|i: int, j: int|
        0 <= i < kept.len() && 0 <= j < kept[i].queue.len() implies (
    #[trigger] kept[i].queue[j]).age(round) <= max_age by {
        lemma_live_bundles(s.nodes[i].queue, s.nodes[i].queue.len(), round, max_age);
    }
    let late = bundle_round::all_late_bundles(s.nodes, s.nodes.len(), round, max_age);
    let a = bundle_round::bundles_expired(s, round, max_age);
    lemma_sent_up_tame(kept, late, late.len(), params);
    lemma_all_tame_on(s.nodes, kept, a.nodes, params);
    lemma_in_time(kept, a.nodes, round, params);
    let fresh = Seq::new(
        a.nodes.len(),
        |i: int| bundle_round::acks_trimmed(a.nodes[i], round, max_age),
    );
    assert forall|i: int| 0 <= i < a.nodes.len() implies tame(
        #[trigger] a.nodes[i],
        fresh[i],
        params,
    ) by {
        lemma_live_acks(a.nodes[i].ack_queue, a.nodes[i].ack_queue.len(), round, max_age);
        lemma_tame_same(a.nodes[i], fresh[i], params);
    }
    let late_acks = bundle_round::all_late_acks(a.nodes, a.nodes.len(), round, max_age);
    let b = bundle_round::acks_expired(a, round, max_age);
    lemma_lost_tame(fresh, late_acks, late_acks.len(), params);
    lemma_all_tame_on(a.nodes, fresh, b.nodes, params);
    lemma_all_tame_on(s.nodes, a.nodes, b.nodes, params);
    let c = bundle_round::waits_ended(b, round, max_age);
    assert forall|i: int| 0 <= i < b.nodes.len() implies tame(
        #[trigger] b.nodes[i],
        c.nodes[i],
        params,
    ) by {
        let n = b.nodes[i];
        lemma_tame_same(n, n, params);
        if n.outstanding is Some {
            let late = NodeModel {
                outstanding: Some(
                    OutstandingModel { state: AckState::TimedOut, ..n.outstanding->Some_0 },
                ),
                ..n
            };
            lemma_tame_same(n, late, params);
            lemma_settled_tame(late, params);
            lemma_tame_on(n, late, bundle_round::settled(late), params);
        }
    }
    lemma_all_tame_on(s.nodes, b.nodes, c.nodes, params);
    lemma_in_time(a.nodes, b.nodes, round, params);
    lemma_in_time(b.nodes, c.nodes, round, params);
}

proof fn lemma_in_time(a: Seq<NodeModel>, b: Seq<NodeModel>, round: u64, params: DvDtnParams)
    requires
        all_tame(a, b, params),
        all_in_time(a, round, params.bundle_max_age_rounds),
    ensures
        all_in_time(b, round, params.bundle_max_age_rounds),
{
    assert forall|i: int, j: int| 0 <= i < b.len() && 0 <= j < b[i].queue.len() implies (
    #[trigger] b[i].queue[j]).age(round) <= params.bundle_max_age_rounds by {
        assert(tame(a[i], b[i], params));
        let x = a[i].queue.index_of(b[i].queue[j]);
        assert(a[i].queue[x] == b[i].queue[j]);
    }
}

// ---------------------------------------------------------------------------
// Acks
// ---------------------------------------------------------------------------

proof fn lemma_acks_taken(
    g: AckGather,
    topo: Topology,
    awake: Seq<usize>,
    k: nat,
    params: DvDtnParams,
)
    requires
        k <= awake.len(),
        forall|j: int| 0 <= j < awake.len() ==> (#[trigger] awake[j]) < g.nodes.len(),
    ensures
        all_tame(g.nodes, bundle_round::acks_taken(g, topo, awake, k).nodes, params),
    decreases k,
{
    lemma_all_tame_self(g.nodes, params);
    if k > 0 {
        lemma_acks_taken(g, topo, awake, (k - 1) as nat, params);
        let before = bundle_round::acks_taken(g, topo, awake, (k - 1) as nat);
        let after = bundle_round::acks_taken(g, topo, awake, k);
        let i = awake[k - 1] as int;
        lemma_all_tame_self(before.nodes, params);
        let q = before.nodes[i].ack_queue;
        let less = NodeModel { ack_queue: q.subrange(1, q.len() as int), ..before.nodes[i] };
        if q.len() > 0 {
            lemma_tame_same(before.nodes[i], less, params);
            lemma_one_tame(before.nodes, i, less, params);
        }
        lemma_all_tame_on(g.nodes, before.nodes, after.nodes, params);
    }
}

proof fn lemma_acks_handed(
    s: RoundState,
    fleet: Seq<Balloon>,
    moves: Seq<AckMove>,
    k: nat,
    params: DvDtnParams,
)
    ensures
        all_tame(s.nodes, bundle_round::acks_handed(s, fleet, params, moves, k).nodes, params),
    decreases k,
{
    lemma_all_tame_self(s.nodes, params);
    if k > 0 {
        lemma_acks_handed(s, fleet, moves, (k - 1) as nat, params);
        let before = bundle_round::acks_handed(s, fleet, params, moves, (k - 1) as nat);
        let after = bundle_round::acks_handed(s, fleet, params, moves, k);
        let mv = moves[k - 1];
        let to = mv.to as int;
        if to < before.nodes.len() && before.nodes[to].ack_queue.len() < params.ack_queue_capacity {
            let more = NodeModel {
                ack_queue: before.nodes[to].ack_queue.push(mv.ack),
                ..before.nodes[to]
            };
            lemma_tame_same(before.nodes[to], more, params);
            lemma_one_tame(before.nodes, to, more, params);
        } else {
            lemma_note_lost_tame(
                before.nodes,
                mv.ack.origin_id,
                mv.ack.seq,
                mv.ack.hops_completed(),
                params,
            );
        }
        lemma_all_tame_on(s.nodes, before.nodes, after.nodes, params);
    }
}

proof fn lemma_acks_received(
    s: RoundState,
    resolved: Seq<(u32, u64)>,
    round: u64,
    k: nat,
    params: DvDtnParams,
)
    ensures
        all_tame(s.nodes, bundle_round::acks_received(s, resolved, round, k).nodes, params),
    decreases k,
{
    lemma_all_tame_self(s.nodes, params);
    if k > 0 {
        lemma_acks_received(s, resolved, round, (k - 1) as nat, params);
        let before = bundle_round::acks_received(s, resolved, round, (k - 1) as nat);
        let after = bundle_round::acks_received(s, resolved, round, k);
        let o = resolved[k - 1].0 as int;
        lemma_all_tame_self(before.nodes, params);
        if o < before.nodes.len() {
            lemma_told_tame(before.nodes[o], resolved[k - 1].1, params);
            lemma_one_tame(
                before.nodes,
                o,
                bundle_round::told(before.nodes[o], resolved[k - 1].1),
                params,
            );
        }
        lemma_all_tame_on(s.nodes, before.nodes, after.nodes, params);
    }
}

pub(crate) proof fn lemma_acks_forwarded(
    s: RoundState,
    fleet: Seq<Balloon>,
    topo: Topology,
    params: DvDtnParams,
    awake: Seq<usize>,
    round: u64,
)
    requires
        forall|j: int| 0 <= j < awake.len() ==> (#[trigger] awake[j]) < s.nodes.len(),
    ensures
        all_tame(
            s.nodes,
            bundle_round::acks_forwarded(s, fleet, topo, params, awake, round).nodes,
            params,
        ),
{
    let g0 = bundle_round::ack_gather_start(s.nodes);
    let g = bundle_round::acks_taken(g0, topo, awake, awake.len());
    lemma_acks_taken(g0, topo, awake, awake.len(), params);
    let a = RoundState { nodes: g.nodes, ..s };
    let b = bundle_round::acks_handed(a, fleet, params, g.moves, g.moves.len());
    lemma_acks_handed(a, fleet, g.moves, g.moves.len(), params);
    lemma_acks_received(b, g.resolved, round, g.resolved.len(), params);
    let c = bundle_round::acks_received(b, g.resolved, round, g.resolved.len());
    lemma_all_tame_on(s.nodes, a.nodes, b.nodes, params);
    lemma_all_tame_on(s.nodes, b.nodes, c.nodes, params);
}

// ---------------------------------------------------------------------------
// Wake slots
// ---------------------------------------------------------------------------

pub(crate) proof fn lemma_removed_tame(n: NodeModel, place: int, params: DvDtnParams)
    requires
        0 <= place < n.queue.len(),
    ensures
        tame(n, (NodeModel { queue: n.queue.remove(place), ..n }), params),
{
    let less = n.queue.remove(place);
    assert forall|o: u32, m: u64| #[trigger] times(less, o, m, less.len()) <= times(
        n.queue,
        o,
        m,
        n.queue.len(),
    ) by {
        lemma_times_removed(n.queue, place, o, m, n.queue.len());
    }
    assert forall|j: int| 0 <= j < less.len() implies n.queue.contains(#[trigger] less[j]) by {
        if j < place {
            assert(less[j] == n.queue[j]);
        } else {
            assert(less[j] == n.queue[j + 1]);
        }
    }
}

proof fn lemma_delivered_tame(
    s: RoundState,
    i: int,
    tower_id: u32,
    params: DvDtnParams,
    round: u64,
)
    requires
        0 <= i < s.nodes.len(),
        s.nodes[i].queue.len() > 0,
    ensures
        all_tame(
            s.nodes,
            bundle_round::bundle_delivered(s, i, tower_id, params, round).nodes,
            params,
        ),
        bundle_round::bundle_delivered(s, i, tower_id, params, round).nodes[i].queue.len()
            == s.nodes[i].queue.len() - 1,
{
    let q = s.nodes[i].queue;
    let place = bundle::nth_place(q.len() as int, params.queue_discipline, 0);
    let b = q[place];
    let less = NodeModel { queue: q.remove(place), ..s.nodes[i] };
    let taken = s.nodes.update(i, less);
    lemma_removed_tame(s.nodes[i], place, params);
    lemma_one_tame(s.nodes, i, less, params);
    let noted = bundle_round::note_landed(taken, b, tower_id);
    lemma_notes_tame(taken, b, tower_id, 0, params);
    lemma_all_tame_on(s.nodes, taken, noted, params);
    let n = noted[i];
    let arrived = RoundState {
        nodes: noted,
        tally: bundle_round::delivery_counted(s.tally, b, round),
        ..s
    };
    if params.ack_policy != AckPolicy::Digest {
        let sent = bundle_round::receipt_sent(arrived, i, b, params, round);
        if bundle_round::way_back(b.path).len() == 0 {
            lemma_told_tame(n, b.seq, params);
            lemma_one_tame(noted, i, bundle_round::told(n, b.seq), params);
        } else if n.ack_queue.len() < params.ack_queue_capacity {
            let more = NodeModel { ack_queue: n.ack_queue.push(bundle_round::receipt(b)), ..n };
            lemma_tame_same(n, more, params);
            lemma_one_tame(noted, i, more, params);
        } else {
            lemma_notes_tame(noted, b, tower_id, 0, params);
        }
        lemma_all_tame_on(s.nodes, noted, sent.nodes, params);
    }
}

proof fn lemma_deliveries_tame(
    s: RoundState,
    i: int,
    tower_id: u32,
    params: DvDtnParams,
    round: u64,
    k: nat,
)
    requires
        0 <= i < s.nodes.len(),
        k <= s.nodes[i].queue.len(),
    ensures
        all_tame(
            s.nodes,
            bundle_round::bundles_delivered(s, i, tower_id, params, round, k).nodes,
            params,
        ),
        bundle_round::bundles_delivered(s, i, tower_id, params, round, k).nodes[i].queue.len()
            == s.nodes[i].queue.len() - k,
    decreases k,
{
    lemma_all_tame_self(s.nodes, params);
    if k > 0 {
        lemma_deliveries_tame(s, i, tower_id, params, round, (k - 1) as nat);
        let before = bundle_round::bundles_delivered(
            s,
            i,
            tower_id,
            params,
            round,
            (k - 1) as nat,
        );
        lemma_delivered_tame(before, i, tower_id, params, round);
        lemma_all_tame_on(
            s.nodes,
            before.nodes,
            bundle_round::bundles_delivered(s, i, tower_id, params, round, k).nodes,
            params,
        );
    }
}

pub(crate) proof fn lemma_dropped_tame(
    s: RoundState,
    i: int,
    place: int,
    why: bundle_round::Loss,
    params: DvDtnParams,
)
    requires
        0 <= i < s.nodes.len(),
        0 <= place < s.nodes[i].queue.len(),
    ensures
        all_tame(s.nodes, bundle_round::bundle_dropped(s, i, place, why).nodes, params),
{
    let b = s.nodes[i].queue[place];
    let less = NodeModel { queue: s.nodes[i].queue.remove(place), ..s.nodes[i] };
    lemma_removed_tame(s.nodes[i], place, params);
    lemma_one_tame(s.nodes, i, less, params);
    lemma_notes_tame(s.nodes.update(i, less), b, 0, 0, params);
    lemma_all_tame_on(
        s.nodes,
        s.nodes.update(i, less),
        bundle_round::bundle_dropped(s, i, place, why).nodes,
        params,
    );
}

proof fn lemma_batch_tame(
    s: RoundState,
    i: int,
    next: u32,
    params: DvDtnParams,
    ids: Seq<(u32, u64)>,
)
    requires
        0 <= i < s.nodes.len(),
    ensures
        all_tame(s.nodes, bundle_round::batch_filled(s, i, next, params, ids).0.nodes, params),
    decreases params.batch.mesh_hop - ids.len(),
{
    lemma_all_tame_self(s.nodes, params);
    let q = s.nodes[i].queue;
    let k = ids.len();
    let place = bundle::nth_place(q.len() as int, params.queue_discipline, k as int);
    if k >= params.batch.mesh_hop || k >= q.len() {
    } else if q[place].path.contains(next) {
        lemma_dropped_tame(s, i, place, bundle_round::Loss::Loop, params);
    } else if q[place].path.len() >= params.bundle_max_hops {
        lemma_dropped_tame(s, i, place, bundle_round::Loss::HopBudget, params);
    } else {
        lemma_batch_tame(s, i, next, params, ids.push((q[place].origin_id, q[place].seq)));
    }
}

/// Whether every handoff leaves from a node that there is.
pub(crate) open spec fn from_known(moves: Seq<Handoff>, n: nat) -> bool {
    forall|m: int| 0 <= m < moves.len() ==> 0 <= (#[trigger] moves[m]).from < n
}

pub(crate) proof fn lemma_slots_tame(
    g: Gather,
    fleet: Seq<Balloon>,
    topo: Topology,
    params: DvDtnParams,
    used: Seq<bool>,
    round: u64,
    awake: Seq<usize>,
    k: nat,
)
    requires
        k <= awake.len(),
        forall|j: int| 0 <= j < awake.len() ==> (#[trigger] awake[j]) < g.s.nodes.len(),
        from_known(g.moves, g.s.nodes.len()),
    ensures
        all_tame(
            g.s.nodes,
            bundle_round::slots_taken(g, fleet, topo, params, used, round, awake, k).s.nodes,
            params,
        ),
        from_known(
            bundle_round::slots_taken(g, fleet, topo, params, used, round, awake, k).moves,
            g.s.nodes.len(),
        ),
    decreases k,
{
    lemma_all_tame_self(g.s.nodes, params);
    if k > 0 {
        lemma_slots_tame(g, fleet, topo, params, used, round, awake, (k - 1) as nat);
        let before = bundle_round::slots_taken(
            g,
            fleet,
            topo,
            params,
            used,
            round,
            awake,
            (k - 1) as nat,
        );
        let after = bundle_round::slots_taken(g, fleet, topo, params, used, round, awake, k);
        let i = awake[k - 1] as int;
        lemma_slot_tame(before, fleet, topo, params, used, round, i);
        lemma_all_tame_on(g.s.nodes, before.s.nodes, after.s.nodes, params);
    }
}

pub(crate) proof fn lemma_slot_tame(
    g: Gather,
    fleet: Seq<Balloon>,
    topo: Topology,
    params: DvDtnParams,
    used: Seq<bool>,
    round: u64,
    i: int,
)
    requires
        0 <= i < g.s.nodes.len(),
        from_known(g.moves, g.s.nodes.len()),
    ensures
        all_tame(
            g.s.nodes,
            bundle_round::slot_taken(g, fleet, topo, params, used, round, i).s.nodes,
            params,
        ),
        from_known(
            bundle_round::slot_taken(g, fleet, topo, params, used, round, i).moves,
            g.s.nodes.len(),
        ),
{
    lemma_all_tame_self(g.s.nodes, params);
    let n = g.s.nodes[i];
    if let Some(belief) = n.belief {
        let sampled = RoundState {
            tally: Tally {
                belief_hops: super::bundle_stats::bumped(
                    g.s.tally.belief_hops,
                    belief.hop_count as int,
                ),
                ..g.s.tally
            },
            ..g.s
        };
        let slot = RoundState {
            tally: Tally {
                slots_with_bundle: sampled.tally.slots_with_bundle + 1,
                ..sampled.tally
            },
            ..sampled
        };
        if n.queue.len() > 0 {
            match belief.next_hop {
                None => {
                    if let Some(tower_id) = topo.tower_of(i) {
                        lemma_contact_tame(slot, fleet, i, tower_id, params, round);
                    }
                },
                Some(next) => {
                    if !used[i] && topo.neighbors_of(i).contains(next) {
                        lemma_batch_tame(slot, i, next, params, Seq::empty());
                    }
                },
            }
        }
    }
}

pub(crate) proof fn lemma_contact_tame(
    s: RoundState,
    fleet: Seq<Balloon>,
    i: int,
    tower_id: u32,
    params: DvDtnParams,
    round: u64,
)
    requires
        0 <= i < s.nodes.len(),
    ensures
        all_tame(
            s.nodes,
            bundle_round::tower_contact(s, fleet, i, tower_id, params, round).nodes,
            params,
        ),
{
    let n = bundle_round::contact_size(s.nodes[i], params);
    let done = bundle_round::tower_contact(s, fleet, i, tower_id, params, round);
    let announced = RoundState {
        events: s.events.push(
            crate::protocol::CommsEvent {
                kind: crate::protocol::EventKind::Bundle,
                from: crate::link_detection::NodeKey::Balloon(fleet[i].id),
                to: crate::link_detection::NodeKey::Tower(tower_id),
                payload: (n as usize) as u32,
                tower_id: Some(tower_id),
                hop_count: Some(0),
                epoch: None,
            },
        ),
        ..s
    };
    lemma_deliveries_tame(announced, i, tower_id, params, round, n);
    lemma_deliveries_tame(s, i, tower_id, params, round, n);
}


// ---------------------------------------------------------------------------
// Handing on and originating
// ---------------------------------------------------------------------------

/// Whether a bundle in a balloon's hands tells the truth: it carries its own
/// record, its path begins at its origin and ends here.
pub open spec fn truthful(b: BundleModel, holder: u32) -> bool {
    &&& b.record.origin_id == b.origin_id
    &&& b.record.seq == b.seq
    &&& b.path.len() > 0
    &&& b.path[0] == b.origin_id
    &&& b.path.last() == holder
}

/// Whether a log holds one balloon's records, the older first, none of them
/// numbered ahead.
pub open spec fn log_in_order(log: Seq<TelemetryRecord>, id: u32, next_seq: u64) -> bool {
    &&& forall|k: int| 0 <= k < log.len() ==> (#[trigger] log[k]).origin_id == id
    &&& forall|k: int| 0 <= k < log.len() ==> (#[trigger] log[k]).seq < next_seq
    &&& forall|k: int, l: int|
        0 <= k < l < log.len() ==> (#[trigger] log[k]).seq < (#[trigger] log[l]).seq
}

/// Whether a node's queues and log are within their bounds, and what they hold
/// is in order. A log always has room for the newest record.
pub open spec fn orderly(n: NodeModel, id: u32, params: DvDtnParams) -> bool {
    &&& n.queue.len() <= params.relay_queue_capacity
    &&& n.ack_queue.len() <= params.ack_queue_capacity
    &&& n.log.len() <= params.comms_log_capacity || n.log.len() <= 1
    &&& log_in_order(n.log, id, n.bundle_seq)
    &&& forall|j: int| 0 <= j < n.queue.len() ==> truthful(#[trigger] n.queue[j], id)
}

/// Whether every node is in order. A balloon's id is its place.
pub open spec fn all_orderly(
    nodes: Seq<NodeModel>,
    fleet: Seq<Balloon>,
    params: DvDtnParams,
) -> bool {
    &&& fleet.len() == nodes.len()
    &&& forall|i: int| 0 <= i < fleet.len() ==> (#[trigger] fleet[i]).id == i
    &&& forall|i: int|
        0 <= i < nodes.len() ==> orderly(#[trigger] nodes[i], fleet[i].id, params)
}

pub(crate) proof fn lemma_tame_orderly(
    a: Seq<NodeModel>,
    b: Seq<NodeModel>,
    fleet: Seq<Balloon>,
    params: DvDtnParams,
)
    requires
        all_tame(a, b, params),
        all_orderly(a, fleet, params),
    ensures
        all_orderly(b, fleet, params),
{
    assert forall|i: int| 0 <= i < b.len() implies orderly(
        #[trigger] b[i],
        fleet[i].id,
        params,
    ) by {
        let id = fleet[i].id;
        assert(tame(a[i], b[i], params));
        assert(orderly(a[i], id, params));
        assert forall|j: int| 0 <= j < b[i].queue.len() implies truthful(
            #[trigger] b[i].queue[j],
            id,
        ) by {
            let x = a[i].queue.index_of(b[i].queue[j]);
            assert(truthful(a[i].queue[x], id));
        }
        assert forall|k: int, l: int| 0 <= k < l < b[i].log.len() implies (
        #[trigger] b[i].log[k]).seq < (#[trigger] b[i].log[l]).seq by {
            assert(a[i].log[k].seq < a[i].log[l].seq);
        }
    }
}

pub(crate) proof fn lemma_place(q: Seq<BundleModel>, k: int, origin_id: u32, seq: u64)
    requires
        0 <= k,
    ensures
        bundle::place_of(q, k, origin_id, seq) matches Some(p) ==> k <= p < q.len(),
    decreases q.len() - k,
{
    if k < q.len() {
        lemma_place(q, k + 1, origin_id, seq);
    }
}

proof fn lemma_handed_orderly(
    s: RoundState,
    fleet: Seq<Balloon>,
    from: int,
    to: u32,
    id: (u32, u64),
    params: DvDtnParams,
    round: u64,
)
    requires
        all_orderly(s.nodes, fleet, params),
        0 <= from < s.nodes.len(),
    ensures
        all_orderly(
            bundle_round::bundle_handed(s, from, to, id, params, round).0.nodes,
            fleet,
            params,
        ),
{
    lemma_place(s.nodes[from].queue, 0, id.0, id.1);
    if bundle_round::has_room(s, to, params) {
        if let Some(p) = bundle::place_of(s.nodes[from].queue, 0, id.0, id.1) {
            let b = s.nodes[from].queue[p];
            let less = NodeModel { queue: s.nodes[from].queue.remove(p), ..s.nodes[from] };
            let taken = s.nodes.update(from, less);
            lemma_removed_tame(s.nodes[from], p, params);
            lemma_one_tame(s.nodes, from, less, params);
            lemma_tame_orderly(s.nodes, taken, fleet, params);
            let t = to as int;
            let moved = BundleModel { path: b.path.push(to), ..b };
            let more = NodeModel { queue: taken[t].queue.push(moved), ..taken[t] };
            let given = taken.update(t, more);
            assert(truthful(b, fleet[from].id)) by {
                assert(orderly(s.nodes[from], fleet[from].id, params));
            }
            assert(moved.path[0] == b.path[0]);
            assert(fleet[t].id == t);
            assert(truthful(moved, to));
            assert forall|i: int| 0 <= i < given.len() implies orderly(
                #[trigger] given[i],
                fleet[i].id,
                params,
            ) by {
                assert(orderly(taken[i], fleet[i].id, params));
                if i == t {
                    assert(orderly(s.nodes[t], fleet[t].id, params));
                    assert forall|j: int| 0 <= j < given[i].queue.len() implies truthful(
                        #[trigger] given[i].queue[j],
                        fleet[i].id,
                    ) by {
                        if j < taken[t].queue.len() {
                            assert(truthful(taken[t].queue[j], fleet[t].id));
                        }
                    }
                }
            }
        }
    }
}

proof fn lemma_bundles_handed_orderly(
    s: RoundState,
    fleet: Seq<Balloon>,
    mv: Handoff,
    params: DvDtnParams,
    round: u64,
    k: nat,
)
    requires
        all_orderly(s.nodes, fleet, params),
        0 <= mv.from < s.nodes.len(),
    ensures
        all_orderly(
            bundle_round::bundles_handed(s, mv, params, round, k).0.nodes,
            fleet,
            params,
        ),
    decreases k,
{
    if k > 0 {
        lemma_bundles_handed_orderly(s, fleet, mv, params, round, (k - 1) as nat);
        let before = bundle_round::bundles_handed(s, mv, params, round, (k - 1) as nat).0;
        lemma_handed_orderly(before, fleet, mv.from, mv.to, mv.ids[k - 1], params, round);
    }
}

proof fn lemma_all_handed_orderly(
    s: RoundState,
    fleet: Seq<Balloon>,
    moves: Seq<Handoff>,
    params: DvDtnParams,
    round: u64,
    k: nat,
)
    requires
        all_orderly(s.nodes, fleet, params),
        from_known(moves, s.nodes.len()),
        k <= moves.len(),
    ensures
        all_orderly(
            bundle_round::all_handed(s, fleet, moves, params, round, k).nodes,
            fleet,
            params,
        ),
    decreases k,
{
    if k > 0 {
        lemma_all_handed_orderly(s, fleet, moves, params, round, (k - 1) as nat);
        let before = bundle_round::all_handed(s, fleet, moves, params, round, (k - 1) as nat);
        let mv = moves[k - 1];
        assert(0 <= mv.from < s.nodes.len());
        lemma_bundles_handed_orderly(before, fleet, mv, params, round, mv.ids.len());
    }
}

proof fn lemma_originating_orderly(n: NodeModel, b: Balloon, params: DvDtnParams, round: u64)
    requires
        orderly(n, b.id, params),
        bundle_round::may_originate(n, b.id, params, round),
        n.bundle_seq < u64::MAX,
    ensures
        orderly(bundle_round::originating(n, b, params, round), b.id, params),
{
    let after = bundle_round::originating(n, b, params, round);
    let kept = if n.log.len() >= params.comms_log_capacity && n.log.len() > 0 {
        n.log.subrange(1, n.log.len() as int)
    } else {
        n.log
    };
    let shift: int = if n.log.len() >= params.comms_log_capacity && n.log.len() > 0 {
        1
    } else {
        0
    };
    assert forall|k: int| 0 <= k < kept.len() implies #[trigger] kept[k] == n.log[k + shift] by {}
    assert forall|k: int| 0 <= k < after.log.len() implies (#[trigger] after.log[k]).origin_id
        == b.id && after.log[k].seq < after.bundle_seq by {
        if k < kept.len() {
            assert(after.log[k] == kept[k]);
            assert(n.log[k + shift].seq < n.bundle_seq);
        }
    }
    assert forall|k: int, l: int| 0 <= k < l < after.log.len() implies (#[trigger] after.log[k]).seq
        < (#[trigger] after.log[l]).seq by {
        assert(after.log[k] == kept[k]);
        if l < kept.len() {
            assert(after.log[l] == kept[l]);
            assert(n.log[k + shift].seq < n.log[l + shift].seq);
        } else {
            assert(n.log[k + shift].seq < n.bundle_seq);
        }
    }
    assert forall|j: int| 0 <= j < after.queue.len() implies truthful(
        #[trigger] after.queue[j],
        b.id,
    ) by {
        if j < n.queue.len() {
            assert(after.queue[j] == n.queue[j]);
        }
    }
}

proof fn lemma_originations_orderly(
    s: RoundState,
    fleet: Seq<Balloon>,
    params: DvDtnParams,
    round: u64,
    awake: Seq<usize>,
    k: nat,
)
    requires
        all_orderly(s.nodes, fleet, params),
        k <= awake.len(),
        forall|j: int| 0 <= j < awake.len() ==> (#[trigger] awake[j]) < s.nodes.len(),
        forall|i: int|
            0 <= i < s.nodes.len() ==> (#[trigger] s.nodes[i]).bundle_seq + awake.len()
                <= u64::MAX,
    ensures
        all_orderly(
            bundle_round::originations(s, fleet, params, round, awake, k).nodes,
            fleet,
            params,
        ),
        forall|i: int|
            0 <= i < s.nodes.len() ==> (#[trigger] bundle_round::originations(
                s,
                fleet,
                params,
                round,
                awake,
                k,
            ).nodes[i]).bundle_seq <= s.nodes[i].bundle_seq + k,
    decreases k,
{
    if k > 0 {
        lemma_originations_orderly(s, fleet, params, round, awake, (k - 1) as nat);
        let before = bundle_round::originations(s, fleet, params, round, awake, (k - 1) as nat);
        let after = bundle_round::originations(s, fleet, params, round, awake, k);
        let i = awake[k - 1] as int;
        let n = before.nodes[i];
        assert(n.bundle_seq <= s.nodes[i].bundle_seq + (k - 1));
        assert(s.nodes[i].bundle_seq + awake.len() <= u64::MAX);
        if bundle_round::may_originate(n, fleet[i].id, params, round) {
            lemma_originating_orderly(n, fleet[i], params, round);
            assert forall|j: int| 0 <= j < after.nodes.len() implies orderly(
                #[trigger] after.nodes[j],
                fleet[j].id,
                params,
            ) by {
                if j != i {
                    assert(after.nodes[j] == before.nodes[j]);
                }
            }
            assert forall|j: int| 0 <= j < s.nodes.len() implies (
            #[trigger] after.nodes[j]).bundle_seq <= s.nodes[j].bundle_seq + k by {
                assert(before.nodes[j].bundle_seq <= s.nodes[j].bundle_seq + (k - 1));
            }
        } else {
            assert forall|j: int| 0 <= j < s.nodes.len() implies (
            #[trigger] after.nodes[j]).bundle_seq <= s.nodes[j].bundle_seq + k by {
                assert(before.nodes[j].bundle_seq <= s.nodes[j].bundle_seq + (k - 1));
            }
        }
    }
}

pub(crate) proof fn lemma_handed_numbers(
    s: RoundState,
    fleet: Seq<Balloon>,
    moves: Seq<Handoff>,
    params: DvDtnParams,
    round: u64,
    k: nat,
)
    requires
        from_known(moves, s.nodes.len()),
        k <= moves.len(),
    ensures
        bundle_round::all_handed(s, fleet, moves, params, round, k).nodes.len() == s.nodes.len(),
        forall|i: int|
            0 <= i < s.nodes.len() ==> (#[trigger] bundle_round::all_handed(
                s,
                fleet,
                moves,
                params,
                round,
                k,
            ).nodes[i]).bundle_seq == s.nodes[i].bundle_seq,
    decreases k,
{
    if k > 0 {
        lemma_handed_numbers(s, fleet, moves, params, round, (k - 1) as nat);
        let before = bundle_round::all_handed(s, fleet, moves, params, round, (k - 1) as nat);
        let mv = moves[k - 1];
        assert(0 <= mv.from < s.nodes.len());
        lemma_batch_numbers(before, mv, params, round, mv.ids.len());
        let batch = bundle_round::bundles_handed(before, mv, params, round, mv.ids.len()).0;
        let after = bundle_round::all_handed(s, fleet, moves, params, round, k);
        assert(after.nodes == batch.nodes);
        assert forall|i: int| 0 <= i < s.nodes.len() implies (#[trigger] after.nodes[i]).bundle_seq
            == s.nodes[i].bundle_seq by {
            assert(batch.nodes[i].bundle_seq == before.nodes[i].bundle_seq);
        }
    }
}

pub(crate) proof fn lemma_batch_numbers(
    s: RoundState,
    mv: Handoff,
    params: DvDtnParams,
    round: u64,
    k: nat,
)
    requires
        0 <= mv.from < s.nodes.len(),
    ensures
        bundle_round::bundles_handed(s, mv, params, round, k).0.nodes.len() == s.nodes.len(),
        forall|i: int|
            0 <= i < s.nodes.len() ==> (#[trigger] bundle_round::bundles_handed(
                s,
                mv,
                params,
                round,
                k,
            ).0.nodes[i]).bundle_seq == s.nodes[i].bundle_seq,
    decreases k,
{
    if k > 0 {
        lemma_batch_numbers(s, mv, params, round, (k - 1) as nat);
        let before = bundle_round::bundles_handed(s, mv, params, round, (k - 1) as nat).0;
        let after = bundle_round::bundles_handed(s, mv, params, round, k).0;
        assert forall|i: int| 0 <= i < s.nodes.len() implies (#[trigger] after.nodes[i]).bundle_seq
            == s.nodes[i].bundle_seq by {
            assert(before.nodes[i].bundle_seq == s.nodes[i].bundle_seq);
        }
    }
}

/// Every node stays in order over a round: no queue and no log outgrows its
/// bound, logs hold their own balloon's records in the order they were made,
/// and every bundle carries its own record and a path from its origin to
/// whoever holds it.
pub proof fn every_node_stays_in_order(
    s: RoundState,
    fleet: Seq<Balloon>,
    topo: Topology,
    params: DvDtnParams,
    awake: Seq<usize>,
    round: u64,
)
    requires
        all_orderly(s.nodes, fleet, params),
        forall|j: int| 0 <= j < awake.len() ==> (#[trigger] awake[j]) < s.nodes.len(),
        bundle_round::round_fits(s, params, awake, round),
    ensures
        all_orderly(
            bundle_round::bundle_round(s, fleet, topo, params, awake, round).nodes,
            fleet,
            params,
        ),
{
    let opened = bundle_round::round_opened(s, topo, params, round);
    lemma_opening(s, topo, params, round);
    let acked = bundle_round::acks_forwarded(opened, fleet, topo, params, awake, round);
    lemma_acks_forwarded(opened, fleet, topo, params, awake, round);
    let used = bundle_round::slots_spent(opened, topo, awake);
    let g0 = Gather { s: acked, moves: Seq::empty() };
    lemma_slots_tame(g0, fleet, topo, params, used, round, awake, awake.len());
    let g = bundle_round::slots_taken(g0, fleet, topo, params, used, round, awake, awake.len());
    lemma_all_tame_on(s.nodes, opened.nodes, acked.nodes, params);
    lemma_all_tame_on(s.nodes, acked.nodes, g.s.nodes, params);
    lemma_tame_orderly(s.nodes, g.s.nodes, fleet, params);
    lemma_all_handed_orderly(g.s, fleet, g.moves, params, round, g.moves.len());
    let moved = bundle_round::all_handed(g.s, fleet, g.moves, params, round, g.moves.len());
    lemma_handed_numbers(g.s, fleet, g.moves, params, round, g.moves.len());
    assert forall|i: int| 0 <= i < moved.nodes.len() implies (#[trigger] moved.nodes[i]).bundle_seq
        + awake.len() <= u64::MAX by {
        assert(tame(s.nodes[i], g.s.nodes[i], params));
    }
    lemma_originations_orderly(moved, fleet, params, round, awake, awake.len());
}

// ---------------------------------------------------------------------------
// Running out of time
// ---------------------------------------------------------------------------

/// Whether every bundle held dates from a round that a test admits.
spec fn bundles_dated(nodes: Seq<NodeModel>, p: spec_fn(u64) -> bool) -> bool {
    forall|i: int, j: int|
        0 <= i < nodes.len() && 0 <= j < nodes[i].queue.len() ==> p(
            (#[trigger] nodes[i].queue[j]).created_at_round,
        )
}

/// Whether every ack held does.
spec fn acks_dated(nodes: Seq<NodeModel>, p: spec_fn(u64) -> bool) -> bool {
    forall|i: int, j: int|
        0 <= i < nodes.len() && 0 <= j < nodes[i].ack_queue.len() ==> p(
            (#[trigger] nodes[i].ack_queue[j]).created_at_round,
        )
}

spec fn moves_dated(moves: Seq<AckMove>, p: spec_fn(u64) -> bool) -> bool {
    forall|m: int| 0 <= m < moves.len() ==> p((#[trigger] moves[m]).ack.created_at_round)
}

proof fn lemma_tame_dated(
    a: Seq<NodeModel>,
    b: Seq<NodeModel>,
    params: DvDtnParams,
    p: spec_fn(u64) -> bool,
)
    requires
        all_tame(a, b, params),
        bundles_dated(a, p),
    ensures
        bundles_dated(b, p),
{
    assert forall|i: int, j: int| 0 <= i < b.len() && 0 <= j < b[i].queue.len() implies p(
        (#[trigger] b[i].queue[j]).created_at_round,
    ) by {
        assert(tame(a[i], b[i], params));
        let x = a[i].queue.index_of(b[i].queue[j]);
        assert(p(a[i].queue[x].created_at_round));
    }
}

proof fn lemma_update_dated(
    nodes: Seq<NodeModel>,
    i: int,
    n: NodeModel,
    p: spec_fn(u64) -> bool,
)
    requires
        0 <= i < nodes.len(),
        acks_dated(nodes, p),
        forall|j: int|
            0 <= j < n.ack_queue.len() ==> p((#[trigger] n.ack_queue[j]).created_at_round),
    ensures
        acks_dated(nodes.update(i, n), p),
{
    let after = nodes.update(i, n);
    assert forall|k: int, j: int|
        0 <= k < after.len() && 0 <= j < after[k].ack_queue.len() implies p(
        (#[trigger] after[k].ack_queue[j]).created_at_round,
    ) by {
        if k != i {
            assert(p(nodes[k].ack_queue[j].created_at_round));
        }
    }
}

proof fn lemma_kept_dated(nodes: Seq<NodeModel>, i: int, n: NodeModel, p: spec_fn(u64) -> bool)
    requires
        0 <= i < nodes.len(),
        acks_dated(nodes, p),
        n.ack_queue == nodes[i].ack_queue,
    ensures
        acks_dated(nodes.update(i, n), p),
{
    assert forall|j: int| 0 <= j < n.ack_queue.len() implies p(
        (#[trigger] n.ack_queue[j]).created_at_round,
    ) by {
        assert(p(nodes[i].ack_queue[j].created_at_round));
    }
    lemma_update_dated(nodes, i, n, p);
}

proof fn lemma_lost_dated(
    nodes: Seq<NodeModel>,
    list: Seq<AckModel>,
    k: nat,
    p: spec_fn(u64) -> bool,
)
    requires
        acks_dated(nodes, p),
    ensures
        acks_dated(bundle_round::all_noted_lost(nodes, list, k), p),
    decreases k,
{
    if k > 0 {
        lemma_lost_dated(nodes, list, (k - 1) as nat, p);
        let before = bundle_round::all_noted_lost(nodes, list, (k - 1) as nat);
        let a = list[k - 1];
        let o = a.origin_id as int;
        if o < before.len() {
            lemma_kept_dated(
                before,
                o,
                bundle_round::receipt_lost(before[o], a.seq, a.hops_completed()),
                p,
            );
        }
    }
}

proof fn lemma_live_acks_dated(q: Seq<AckModel>, k: nat, round: u64, max_age: u64)
    requires
        k <= q.len(),
    ensures
        forall|j: int|
            0 <= j < bundle_round::live_acks(q, k, round, max_age).len() ==> bundle::rounds_since(
                (#[trigger] bundle_round::live_acks(q, k, round, max_age)[j]).created_at_round,
                round,
            ) <= max_age,
        forall|j: int|
            0 <= j < bundle_round::live_acks(q, k, round, max_age).len() ==> q.contains(
                #[trigger] bundle_round::live_acks(q, k, round, max_age)[j],
            ),
    decreases k,
{
    if k > 0 {
        lemma_live_acks_dated(q, (k - 1) as nat, round, max_age);
        assert(q.contains(q[k - 1]));
        let before = bundle_round::live_acks(q, (k - 1) as nat, round, max_age);
        let after = bundle_round::live_acks(q, k, round, max_age);
        assert forall|j: int| 0 <= j < after.len() implies bundle::rounds_since(
            (#[trigger] after[j]).created_at_round,
            round,
        ) <= max_age && q.contains(after[j]) by {
            if j < before.len() {
                assert(after[j] == before[j]);
            } else {
                assert(after[j] == q[k - 1]);
            }
        }
    }
}

/// The test that a date is within the age limit, and one more test besides.
spec fn recent_and(round: u64, max_age: u64, p: spec_fn(u64) -> bool) -> spec_fn(u64) -> bool {
    |c: u64| bundle::rounds_since(c, round) <= max_age && p(c)
}

proof fn lemma_opening_dated(
    s: RoundState,
    topo: Topology,
    params: DvDtnParams,
    round: u64,
    p: spec_fn(u64) -> bool,
)
    requires
        bundles_dated(s.nodes, p),
        acks_dated(s.nodes, p),
    ensures
        ({
            let after = bundle_round::round_opened(s, topo, params, round).nodes;
            let q = recent_and(round, params.bundle_max_age_rounds, p);
            bundles_dated(after, q) && acks_dated(after, q)
        }),
{
    let max_age = params.bundle_max_age_rounds;
    let q = recent_and(round, max_age, p);
    let opened = bundle_round::round_opened(s, topo, params, round);
    lemma_opening(s, topo, params, round);
    lemma_tame_dated(s.nodes, opened.nodes, params, p);
    assert forall|i: int, j: int|
        0 <= i < opened.nodes.len() && 0 <= j < opened.nodes[i].queue.len() implies q(
        (#[trigger] opened.nodes[i].queue[j]).created_at_round,
    ) by {
        let b = opened.nodes[i].queue[j];
        assert(b.age(round) <= max_age);
        assert(p(b.created_at_round));
    }
    let a = bundle_round::bundles_expired(s, round, max_age);
    let kept = Seq::new(
        s.nodes.len(),
        |i: int| bundle_round::bundles_trimmed(s.nodes[i], round, max_age),
    );
    assert(acks_dated(kept, p)) by {
        assert forall|i: int, j: int|
            0 <= i < kept.len() && 0 <= j < kept[i].ack_queue.len() implies p(
            (#[trigger] kept[i].ack_queue[j]).created_at_round,
        ) by {
            assert(p(s.nodes[i].ack_queue[j].created_at_round));
        }
    }
    let late = bundle_round::all_late_bundles(s.nodes, s.nodes.len(), round, max_age);
    lemma_sent_up_dated(kept, late, late.len(), p);
    let fresh = Seq::new(
        a.nodes.len(),
        |i: int| bundle_round::acks_trimmed(a.nodes[i], round, max_age),
    );
    assert(acks_dated(fresh, q)) by {
        assert forall|i: int, j: int|
            0 <= i < fresh.len() && 0 <= j < fresh[i].ack_queue.len() implies q(
            (#[trigger] fresh[i].ack_queue[j]).created_at_round,
        ) by {
            let old_queue = a.nodes[i].ack_queue;
            lemma_live_acks_dated(old_queue, old_queue.len(), round, max_age);
            let x = old_queue.index_of(fresh[i].ack_queue[j]);
            assert(p(a.nodes[i].ack_queue[x].created_at_round));
        }
    }
    let late_acks = bundle_round::all_late_acks(a.nodes, a.nodes.len(), round, max_age);
    lemma_lost_dated(fresh, late_acks, late_acks.len(), q);
    let b = bundle_round::acks_expired(a, round, max_age);
    let c = bundle_round::waits_ended(b, round, max_age);
    assert forall|i: int, j: int|
        0 <= i < c.nodes.len() && 0 <= j < c.nodes[i].ack_queue.len() implies q(
        (#[trigger] c.nodes[i].ack_queue[j]).created_at_round,
    ) by {
        assert(c.nodes[i].ack_queue == b.nodes[i].ack_queue);
        assert(q(b.nodes[i].ack_queue[j].created_at_round));
    }
}

proof fn lemma_sent_up_dated(
    nodes: Seq<NodeModel>,
    list: Seq<BundleModel>,
    k: nat,
    p: spec_fn(u64) -> bool,
)
    requires
        acks_dated(nodes, p),
    ensures
        acks_dated(bundle_round::all_noted_sent_up(nodes, list, k), p),
    decreases k,
{
    if k > 0 {
        lemma_sent_up_dated(nodes, list, (k - 1) as nat, p);
        let before = bundle_round::all_noted_sent_up(nodes, list, (k - 1) as nat);
        let o = list[k - 1].origin_id as int;
        if o < before.len() {
            lemma_kept_dated(before, o, bundle_round::sent_up(before[o], list[k - 1]), p);
        }
    }
}

proof fn lemma_acks_taken_dated(
    g: AckGather,
    topo: Topology,
    awake: Seq<usize>,
    k: nat,
    p: spec_fn(u64) -> bool,
)
    requires
        k <= awake.len(),
        forall|j: int| 0 <= j < awake.len() ==> (#[trigger] awake[j]) < g.nodes.len(),
        acks_dated(g.nodes, p),
        moves_dated(g.moves, p),
    ensures
        bundle_round::acks_taken(g, topo, awake, k).nodes.len() == g.nodes.len(),
        acks_dated(bundle_round::acks_taken(g, topo, awake, k).nodes, p),
        moves_dated(bundle_round::acks_taken(g, topo, awake, k).moves, p),
    decreases k,
{
    if k > 0 {
        lemma_acks_taken_dated(g, topo, awake, (k - 1) as nat, p);
        let before = bundle_round::acks_taken(g, topo, awake, (k - 1) as nat);
        let after = bundle_round::acks_taken(g, topo, awake, k);
        let i = awake[k - 1] as int;
        let q = before.nodes[i].ack_queue;
        if q.len() > 0 {
            let less = NodeModel { ack_queue: q.subrange(1, q.len() as int), ..before.nodes[i] };
            assert forall|j: int| 0 <= j < less.ack_queue.len() implies p(
                (#[trigger] less.ack_queue[j]).created_at_round,
            ) by {
                assert(p(before.nodes[i].ack_queue[j + 1].created_at_round));
            }
            lemma_update_dated(before.nodes, i, less, p);
            assert(p(before.nodes[i].ack_queue[0].created_at_round));
            assert forall|m: int| 0 <= m < after.moves.len() implies p(
                (#[trigger] after.moves[m]).ack.created_at_round,
            ) by {
                if m < before.moves.len() {
                    assert(after.moves[m] == before.moves[m]);
                }
            }
        }
    }
}

proof fn lemma_acks_handed_dated(
    s: RoundState,
    fleet: Seq<Balloon>,
    moves: Seq<AckMove>,
    k: nat,
    params: DvDtnParams,
    p: spec_fn(u64) -> bool,
)
    requires
        acks_dated(s.nodes, p),
        moves_dated(moves, p),
        k <= moves.len(),
    ensures
        acks_dated(bundle_round::acks_handed(s, fleet, params, moves, k).nodes, p),
    decreases k,
{
    if k > 0 {
        lemma_acks_handed_dated(s, fleet, moves, (k - 1) as nat, params, p);
        let before = bundle_round::acks_handed(s, fleet, params, moves, (k - 1) as nat);
        let mv = moves[k - 1];
        let to = mv.to as int;
        let o = mv.ack.origin_id as int;
        if to < before.nodes.len() && before.nodes[to].ack_queue.len() < params.ack_queue_capacity {
            let more = NodeModel {
                ack_queue: before.nodes[to].ack_queue.push(mv.ack),
                ..before.nodes[to]
            };
            assert forall|j: int| 0 <= j < more.ack_queue.len() implies p(
                (#[trigger] more.ack_queue[j]).created_at_round,
            ) by {
                if j < before.nodes[to].ack_queue.len() {
                    assert(p(before.nodes[to].ack_queue[j].created_at_round));
                } else {
                    assert(p(moves[k - 1].ack.created_at_round));
                }
            }
            lemma_update_dated(before.nodes, to, more, p);
        } else if o < before.nodes.len() {
            lemma_kept_dated(
                before.nodes,
                o,
                bundle_round::receipt_lost(
                    before.nodes[o],
                    mv.ack.seq,
                    mv.ack.hops_completed(),
                ),
                p,
            );
        }
    }
}

proof fn lemma_acks_received_dated(
    s: RoundState,
    resolved: Seq<(u32, u64)>,
    round: u64,
    k: nat,
    p: spec_fn(u64) -> bool,
)
    requires
        acks_dated(s.nodes, p),
    ensures
        acks_dated(bundle_round::acks_received(s, resolved, round, k).nodes, p),
    decreases k,
{
    if k > 0 {
        lemma_acks_received_dated(s, resolved, round, (k - 1) as nat, p);
        let before = bundle_round::acks_received(s, resolved, round, (k - 1) as nat);
        let o = resolved[k - 1].0 as int;
        if o < before.nodes.len() {
            lemma_kept_dated(
                before.nodes,
                o,
                bundle_round::told(before.nodes[o], resolved[k - 1].1),
                p,
            );
        }
    }
}

proof fn lemma_delivered_dated(
    s: RoundState,
    i: int,
    tower_id: u32,
    params: DvDtnParams,
    round: u64,
    p: spec_fn(u64) -> bool,
)
    requires
        0 <= i < s.nodes.len(),
        s.nodes[i].queue.len() > 0,
        bundles_dated(s.nodes, p),
        acks_dated(s.nodes, p),
    ensures
        bundles_dated(
            bundle_round::bundle_delivered(s, i, tower_id, params, round).nodes,
            p,
        ),
        acks_dated(bundle_round::bundle_delivered(s, i, tower_id, params, round).nodes, p),
{
    lemma_delivered_tame(s, i, tower_id, params, round);
    lemma_tame_dated(
        s.nodes,
        bundle_round::bundle_delivered(s, i, tower_id, params, round).nodes,
        params,
        p,
    );
    let q = s.nodes[i].queue;
    let place = bundle::nth_place(q.len() as int, params.queue_discipline, 0);
    let b = q[place];
    assert(p(s.nodes[i].queue[place].created_at_round));
    let less = NodeModel { queue: q.remove(place), ..s.nodes[i] };
    let taken = s.nodes.update(i, less);
    lemma_kept_dated(s.nodes, i, less, p);
    let o = b.origin_id as int;
    if o < taken.len() {
        lemma_kept_dated(taken, o, bundle_round::landed(taken[o], b, tower_id), p);
    }
    let noted = bundle_round::note_landed(taken, b, tower_id);
    if params.ack_policy != AckPolicy::Digest {
        if bundle_round::way_back(b.path).len() == 0 {
            lemma_kept_dated(noted, i, bundle_round::told(noted[i], b.seq), p);
        } else if noted[i].ack_queue.len() < params.ack_queue_capacity {
            let more = NodeModel {
                ack_queue: noted[i].ack_queue.push(bundle_round::receipt(b)),
                ..noted[i]
            };
            assert forall|j: int| 0 <= j < more.ack_queue.len() implies p(
                (#[trigger] more.ack_queue[j]).created_at_round,
            ) by {
                if j < noted[i].ack_queue.len() {
                    assert(p(noted[i].ack_queue[j].created_at_round));
                }
            }
            lemma_update_dated(noted, i, more, p);
        } else if o < noted.len() {
            lemma_kept_dated(noted, o, bundle_round::receipt_lost(noted[o], b.seq, 0), p);
        }
    }
}

proof fn lemma_deliveries_dated(
    s: RoundState,
    i: int,
    tower_id: u32,
    params: DvDtnParams,
    round: u64,
    k: nat,
    p: spec_fn(u64) -> bool,
)
    requires
        0 <= i < s.nodes.len(),
        k <= s.nodes[i].queue.len(),
        bundles_dated(s.nodes, p),
        acks_dated(s.nodes, p),
    ensures
        bundles_dated(
            bundle_round::bundles_delivered(s, i, tower_id, params, round, k).nodes,
            p,
        ),
        acks_dated(bundle_round::bundles_delivered(s, i, tower_id, params, round, k).nodes, p),
    decreases k,
{
    if k > 0 {
        lemma_deliveries_dated(s, i, tower_id, params, round, (k - 1) as nat, p);
        lemma_deliveries_tame(s, i, tower_id, params, round, (k - 1) as nat);
        let before = bundle_round::bundles_delivered(
            s,
            i,
            tower_id,
            params,
            round,
            (k - 1) as nat,
        );
        lemma_delivered_dated(before, i, tower_id, params, round, p);
    }
}

proof fn lemma_dropped_dated(
    s: RoundState,
    i: int,
    place: int,
    why: bundle_round::Loss,
    p: spec_fn(u64) -> bool,
)
    requires
        0 <= i < s.nodes.len(),
        0 <= place < s.nodes[i].queue.len(),
        acks_dated(s.nodes, p),
    ensures
        acks_dated(bundle_round::bundle_dropped(s, i, place, why).nodes, p),
{
    let b = s.nodes[i].queue[place];
    let less = NodeModel { queue: s.nodes[i].queue.remove(place), ..s.nodes[i] };
    lemma_kept_dated(s.nodes, i, less, p);
    let taken = s.nodes.update(i, less);
    let o = b.origin_id as int;
    if o < taken.len() {
        lemma_kept_dated(taken, o, bundle_round::dead_ended(taken[o], b.seq, b.path), p);
    }
}

proof fn lemma_batch_dated(
    s: RoundState,
    i: int,
    next: u32,
    params: DvDtnParams,
    ids: Seq<(u32, u64)>,
    p: spec_fn(u64) -> bool,
)
    requires
        0 <= i < s.nodes.len(),
        acks_dated(s.nodes, p),
    ensures
        acks_dated(bundle_round::batch_filled(s, i, next, params, ids).0.nodes, p),
    decreases params.batch.mesh_hop - ids.len(),
{
    let q = s.nodes[i].queue;
    let k = ids.len();
    let place = bundle::nth_place(q.len() as int, params.queue_discipline, k as int);
    if k >= params.batch.mesh_hop || k >= q.len() {
    } else if q[place].path.contains(next) {
        lemma_dropped_dated(s, i, place, bundle_round::Loss::Loop, p);
    } else if q[place].path.len() >= params.bundle_max_hops {
        lemma_dropped_dated(s, i, place, bundle_round::Loss::HopBudget, p);
    } else {
        lemma_batch_dated(s, i, next, params, ids.push((q[place].origin_id, q[place].seq)), p);
    }
}

proof fn lemma_slot_dated(
    g: Gather,
    fleet: Seq<Balloon>,
    topo: Topology,
    params: DvDtnParams,
    used: Seq<bool>,
    round: u64,
    i: int,
    p: spec_fn(u64) -> bool,
)
    requires
        0 <= i < g.s.nodes.len(),
        bundles_dated(g.s.nodes, p),
        acks_dated(g.s.nodes, p),
    ensures
        acks_dated(
            bundle_round::slot_taken(g, fleet, topo, params, used, round, i).s.nodes,
            p,
        ),
{
    let n = g.s.nodes[i];
    if let Some(belief) = n.belief {
        let sampled = RoundState {
            tally: Tally {
                belief_hops: super::bundle_stats::bumped(
                    g.s.tally.belief_hops,
                    belief.hop_count as int,
                ),
                ..g.s.tally
            },
            ..g.s
        };
        let slot = RoundState {
            tally: Tally {
                slots_with_bundle: sampled.tally.slots_with_bundle + 1,
                ..sampled.tally
            },
            ..sampled
        };
        if n.queue.len() > 0 {
            match belief.next_hop {
                None => {
                    if let Some(tower_id) = topo.tower_of(i) {
                        let size = bundle_round::contact_size(slot.nodes[i], params);
                        let announced = RoundState {
                            events: slot.events.push(
                                crate::protocol::CommsEvent {
                                    kind: crate::protocol::EventKind::Bundle,
                                    from: crate::link_detection::NodeKey::Balloon(fleet[i].id),
                                    to: crate::link_detection::NodeKey::Tower(tower_id),
                                    payload: (size as usize) as u32,
                                    tower_id: Some(tower_id),
                                    hop_count: Some(0),
                                    epoch: None,
                                },
                            ),
                            ..slot
                        };
                        lemma_deliveries_dated(announced, i, tower_id, params, round, size, p);
                        lemma_deliveries_dated(slot, i, tower_id, params, round, size, p);
                    }
                },
                Some(next) => {
                    if !used[i] && topo.neighbors_of(i).contains(next) {
                        lemma_batch_dated(slot, i, next, params, Seq::empty(), p);
                    }
                },
            }
        }
    }
}

proof fn lemma_slots_dated(
    g: Gather,
    fleet: Seq<Balloon>,
    topo: Topology,
    params: DvDtnParams,
    used: Seq<bool>,
    round: u64,
    awake: Seq<usize>,
    k: nat,
    p: spec_fn(u64) -> bool,
)
    requires
        k <= awake.len(),
        forall|j: int| 0 <= j < awake.len() ==> (#[trigger] awake[j]) < g.s.nodes.len(),
        from_known(g.moves, g.s.nodes.len()),
        bundles_dated(g.s.nodes, p),
        acks_dated(g.s.nodes, p),
    ensures
        bundles_dated(
            bundle_round::slots_taken(g, fleet, topo, params, used, round, awake, k).s.nodes,
            p,
        ),
        acks_dated(
            bundle_round::slots_taken(g, fleet, topo, params, used, round, awake, k).s.nodes,
            p,
        ),
    decreases k,
{
    if k > 0 {
        lemma_slots_dated(g, fleet, topo, params, used, round, awake, (k - 1) as nat, p);
        lemma_slots_tame(g, fleet, topo, params, used, round, awake, (k - 1) as nat);
        lemma_slots_tame(g, fleet, topo, params, used, round, awake, k);
        let before = bundle_round::slots_taken(
            g,
            fleet,
            topo,
            params,
            used,
            round,
            awake,
            (k - 1) as nat,
        );
        let i = awake[k - 1] as int;
        lemma_slot_dated(before, fleet, topo, params, used, round, i, p);
        lemma_tame_dated(
            g.s.nodes,
            bundle_round::slots_taken(g, fleet, topo, params, used, round, awake, k).s.nodes,
            params,
            p,
        );
    }
}

proof fn lemma_handed_dated(
    s: RoundState,
    from: int,
    to: u32,
    id: (u32, u64),
    params: DvDtnParams,
    round: u64,
    p: spec_fn(u64) -> bool,
)
    requires
        0 <= from < s.nodes.len(),
        bundles_dated(s.nodes, p),
        acks_dated(s.nodes, p),
    ensures
        ({
            let after = bundle_round::bundle_handed(s, from, to, id, params, round).0.nodes;
            &&& after.len() == s.nodes.len()
            &&& bundles_dated(after, p)
            &&& acks_dated(after, p)
            &&& forall|i: int|
                0 <= i < s.nodes.len() ==> (#[trigger] after[i]).next_bundle_round
                    == s.nodes[i].next_bundle_round
        }),
{
    lemma_place(s.nodes[from].queue, 0, id.0, id.1);
    if bundle_round::has_room(s, to, params) {
        if let Some(at) = bundle::place_of(s.nodes[from].queue, 0, id.0, id.1) {
            let b = s.nodes[from].queue[at];
            assert(p(b.created_at_round));
            let less = NodeModel { queue: s.nodes[from].queue.remove(at), ..s.nodes[from] };
            let taken = s.nodes.update(from, less);
            lemma_removed_tame(s.nodes[from], at, params);
            lemma_one_tame(s.nodes, from, less, params);
            lemma_tame_dated(s.nodes, taken, params, p);
            lemma_kept_dated(s.nodes, from, less, p);
            let t = to as int;
            let moved = BundleModel { path: b.path.push(to), ..b };
            let more = NodeModel { queue: taken[t].queue.push(moved), ..taken[t] };
            let given = taken.update(t, more);
            lemma_kept_dated(taken, t, more, p);
            assert forall|i: int, j: int|
                0 <= i < given.len() && 0 <= j < given[i].queue.len() implies p(
                (#[trigger] given[i].queue[j]).created_at_round,
            ) by {
                if i != t || j < taken[t].queue.len() {
                    assert(p(taken[i].queue[j].created_at_round));
                }
            }
        }
    }
}

proof fn lemma_bundles_handed_dated(
    s: RoundState,
    mv: Handoff,
    params: DvDtnParams,
    round: u64,
    k: nat,
    p: spec_fn(u64) -> bool,
)
    requires
        0 <= mv.from < s.nodes.len(),
        bundles_dated(s.nodes, p),
        acks_dated(s.nodes, p),
    ensures
        ({
            let after = bundle_round::bundles_handed(s, mv, params, round, k).0.nodes;
            &&& after.len() == s.nodes.len()
            &&& bundles_dated(after, p)
            &&& acks_dated(after, p)
            &&& forall|i: int|
                0 <= i < s.nodes.len() ==> (#[trigger] after[i]).next_bundle_round
                    == s.nodes[i].next_bundle_round
        }),
    decreases k,
{
    if k > 0 {
        lemma_bundles_handed_dated(s, mv, params, round, (k - 1) as nat, p);
        let before = bundle_round::bundles_handed(s, mv, params, round, (k - 1) as nat).0;
        lemma_handed_dated(before, mv.from, mv.to, mv.ids[k - 1], params, round, p);
        let after = bundle_round::bundles_handed(s, mv, params, round, k).0;
        assert forall|i: int| 0 <= i < s.nodes.len() implies (
        #[trigger] after.nodes[i]).next_bundle_round == s.nodes[i].next_bundle_round by {
            assert(before.nodes[i].next_bundle_round == s.nodes[i].next_bundle_round);
        }
    }
}

proof fn lemma_all_handed_dated(
    s: RoundState,
    fleet: Seq<Balloon>,
    moves: Seq<Handoff>,
    params: DvDtnParams,
    round: u64,
    k: nat,
    p: spec_fn(u64) -> bool,
)
    requires
        from_known(moves, s.nodes.len()),
        k <= moves.len(),
        bundles_dated(s.nodes, p),
        acks_dated(s.nodes, p),
    ensures
        ({
            let after = bundle_round::all_handed(s, fleet, moves, params, round, k).nodes;
            &&& after.len() == s.nodes.len()
            &&& bundles_dated(after, p)
            &&& acks_dated(after, p)
            &&& forall|i: int|
                0 <= i < s.nodes.len() ==> (#[trigger] after[i]).next_bundle_round
                    == s.nodes[i].next_bundle_round
        }),
    decreases k,
{
    if k > 0 {
        lemma_all_handed_dated(s, fleet, moves, params, round, (k - 1) as nat, p);
        let before = bundle_round::all_handed(s, fleet, moves, params, round, (k - 1) as nat);
        let mv = moves[k - 1];
        assert(0 <= mv.from < s.nodes.len());
        lemma_bundles_handed_dated(before, mv, params, round, mv.ids.len(), p);
        let batch = bundle_round::bundles_handed(before, mv, params, round, mv.ids.len()).0;
        let after = bundle_round::all_handed(s, fleet, moves, params, round, k);
        assert(after.nodes == batch.nodes);
        assert forall|i: int| 0 <= i < s.nodes.len() implies (
        #[trigger] after.nodes[i]).next_bundle_round == s.nodes[i].next_bundle_round by {
            assert(batch.nodes[i].next_bundle_round == before.nodes[i].next_bundle_round);
        }
    }
}

/// The traffic of a round, before anything new is originated, keeps to dates
/// that a test admits and that are within the age limit.
proof fn lemma_moved_dated(
    s: RoundState,
    fleet: Seq<Balloon>,
    topo: Topology,
    params: DvDtnParams,
    awake: Seq<usize>,
    round: u64,
    p: spec_fn(u64) -> bool,
)
    requires
        forall|j: int| 0 <= j < awake.len() ==> (#[trigger] awake[j]) < s.nodes.len(),
        bundles_dated(s.nodes, p),
        acks_dated(s.nodes, p),
    ensures
        ({
            let opened = bundle_round::round_opened(s, topo, params, round);
            let acked = bundle_round::acks_forwarded(opened, fleet, topo, params, awake, round);
            let used = bundle_round::slots_spent(opened, topo, awake);
            let moved = bundle_round::bundles_forwarded(
                acked,
                fleet,
                topo,
                params,
                used,
                awake,
                round,
            );
            let q = recent_and(round, params.bundle_max_age_rounds, p);
            &&& moved.nodes.len() == s.nodes.len()
            &&& bundles_dated(moved.nodes, q)
            &&& acks_dated(moved.nodes, q)
        }),
{
    let q = recent_and(round, params.bundle_max_age_rounds, p);
    let opened = bundle_round::round_opened(s, topo, params, round);
    lemma_opening(s, topo, params, round);
    lemma_opening_dated(s, topo, params, round, p);
    let acked = bundle_round::acks_forwarded(opened, fleet, topo, params, awake, round);
    lemma_acks_forwarded(opened, fleet, topo, params, awake, round);
    lemma_tame_dated(opened.nodes, acked.nodes, params, q);
    let ag0 = bundle_round::ack_gather_start(opened.nodes);
    let ag = bundle_round::acks_taken(ag0, topo, awake, awake.len());
    lemma_acks_taken_dated(ag0, topo, awake, awake.len(), q);
    let a = RoundState { nodes: ag.nodes, ..opened };
    lemma_acks_handed_dated(a, fleet, ag.moves, ag.moves.len(), params, q);
    let b = bundle_round::acks_handed(a, fleet, params, ag.moves, ag.moves.len());
    lemma_acks_received_dated(b, ag.resolved, round, ag.resolved.len(), q);
    let used = bundle_round::slots_spent(opened, topo, awake);
    let g0 = Gather { s: acked, moves: Seq::empty() };
    lemma_slots_dated(g0, fleet, topo, params, used, round, awake, awake.len(), q);
    lemma_slots_tame(g0, fleet, topo, params, used, round, awake, awake.len());
    let g = bundle_round::slots_taken(g0, fleet, topo, params, used, round, awake, awake.len());
    lemma_all_handed_dated(g.s, fleet, g.moves, params, round, g.moves.len(), q);
}

proof fn lemma_originations_dated(
    s: RoundState,
    fleet: Seq<Balloon>,
    params: DvDtnParams,
    round: u64,
    awake: Seq<usize>,
    k: nat,
    p: spec_fn(u64) -> bool,
)
    requires
        k <= awake.len(),
        forall|j: int| 0 <= j < awake.len() ==> (#[trigger] awake[j]) < s.nodes.len(),
        bundles_dated(s.nodes, p),
        acks_dated(s.nodes, p),
        p(round),
    ensures
        ({
            let after = bundle_round::originations(s, fleet, params, round, awake, k).nodes;
            &&& after.len() == s.nodes.len()
            &&& bundles_dated(after, p)
            &&& acks_dated(after, p)
        }),
    decreases k,
{
    if k > 0 {
        lemma_originations_dated(s, fleet, params, round, awake, (k - 1) as nat, p);
        let before = bundle_round::originations(s, fleet, params, round, awake, (k - 1) as nat);
        let after = bundle_round::originations(s, fleet, params, round, awake, k);
        let i = awake[k - 1] as int;
        let n = before.nodes[i];
        if bundle_round::may_originate(n, fleet[i].id, params, round) {
            let more = bundle_round::originating(n, fleet[i], params, round);
            lemma_kept_dated(before.nodes, i, more, p);
            assert forall|x: int, j: int|
                0 <= x < after.nodes.len() && 0 <= j < after.nodes[x].queue.len() implies p(
                (#[trigger] after.nodes[x].queue[j]).created_at_round,
            ) by {
                if x != i || j < n.queue.len() {
                    assert(p(before.nodes[x].queue[j].created_at_round));
                }
            }
        }
    }
}

/// Whether no node holds an ack of a bundle older than a bundle may be.
pub open spec fn all_acks_in_time(nodes: Seq<NodeModel>, round: u64, max_age: u64) -> bool {
    forall|i: int, j: int|
        0 <= i < nodes.len() && 0 <= j < nodes[i].ack_queue.len() ==> bundle::rounds_since(
            (#[trigger] nodes[i].ack_queue[j]).created_at_round,
            round,
        ) <= max_age
}

/// Nothing outstays its time: after a round every bundle held, and every ack
/// under way, dates from within the age limit, whatever state the round began
/// in.
pub proof fn nothing_outstays_its_time(
    s: RoundState,
    fleet: Seq<Balloon>,
    topo: Topology,
    params: DvDtnParams,
    awake: Seq<usize>,
    round: u64,
)
    requires
        forall|j: int| 0 <= j < awake.len() ==> (#[trigger] awake[j]) < s.nodes.len(),
    ensures
        all_in_time(
            bundle_round::bundle_round(s, fleet, topo, params, awake, round).nodes,
            round,
            params.bundle_max_age_rounds,
        ),
        all_acks_in_time(
            bundle_round::bundle_round(s, fleet, topo, params, awake, round).nodes,
            round,
            params.bundle_max_age_rounds,
        ),
{
    let any = |c: u64| true;
    let q = recent_and(round, params.bundle_max_age_rounds, any);
    lemma_moved_dated(s, fleet, topo, params, awake, round, any);
    let opened = bundle_round::round_opened(s, topo, params, round);
    let acked = bundle_round::acks_forwarded(opened, fleet, topo, params, awake, round);
    let used = bundle_round::slots_spent(opened, topo, awake);
    let moved = bundle_round::bundles_forwarded(acked, fleet, topo, params, used, awake, round);
    lemma_originations_dated(moved, fleet, params, round, awake, awake.len(), q);
    let after = bundle_round::bundle_round(s, fleet, topo, params, awake, round).nodes;
    assert forall|i: int, j: int| 0 <= i < after.len() && 0 <= j < after[i].queue.len() implies (
    #[trigger] after[i].queue[j]).age(round) <= params.bundle_max_age_rounds by {
        assert(q(after[i].queue[j].created_at_round));
    }
    assert forall|i: int, j: int|
        0 <= i < after.len() && 0 <= j < after[i].ack_queue.len() implies bundle::rounds_since(
        (#[trigger] after[i].ack_queue[j]).created_at_round,
        round,
    ) <= params.bundle_max_age_rounds by {
        assert(q(after[i].ack_queue[j].created_at_round));
    }
}

/// Whether every bundle held, and every ack under way, dates from no later
/// than a round.
pub open spec fn dated_by(nodes: Seq<NodeModel>, last: u64) -> bool {
    &&& forall|i: int, j: int|
        0 <= i < nodes.len() && 0 <= j < nodes[i].queue.len() ==> (
        #[trigger] nodes[i].queue[j]).created_at_round <= last
    &&& forall|i: int, j: int|
        0 <= i < nodes.len() && 0 <= j < nodes[i].ack_queue.len() ==> (
        #[trigger] nodes[i].ack_queue[j]).created_at_round <= last
}

/// Whether no node is due to originate anything up to a round.
pub open spec fn none_due(nodes: Seq<NodeModel>, round: u64) -> bool {
    forall|i: int| 0 <= i < nodes.len() ==> (#[trigger] nodes[i]).next_bundle_round > round
}

/// Whether no node holds a bundle or an ack.
pub open spec fn all_empty(nodes: Seq<NodeModel>) -> bool {
    forall|i: int|
        0 <= i < nodes.len() ==> (#[trigger] nodes[i]).queue.len() == 0
            && nodes[i].ack_queue.len() == 0
}

/// Whether every node's next origination is when it was.
pub open spec fn same_plans(a: Seq<NodeModel>, b: Seq<NodeModel>) -> bool {
    &&& a.len() == b.len()
    &&& forall|i: int|
        0 <= i < a.len() ==> (#[trigger] b[i]).next_bundle_round == a[i].next_bundle_round
}

/// Everything drains: a round in which nothing is originated adds nothing
/// newer, and once the age limit has passed it leaves no bundle held and no
/// ack under way, towers or none.
pub proof fn everything_drains(
    s: RoundState,
    fleet: Seq<Balloon>,
    topo: Topology,
    params: DvDtnParams,
    awake: Seq<usize>,
    round: u64,
    last: u64,
)
    requires
        forall|j: int| 0 <= j < awake.len() ==> (#[trigger] awake[j]) < s.nodes.len(),
        dated_by(s.nodes, last),
        none_due(s.nodes, round),
    ensures
        ({
            let after = bundle_round::bundle_round(s, fleet, topo, params, awake, round).nodes;
            &&& dated_by(after, last)
            &&& same_plans(s.nodes, after)
            &&& round > last + params.bundle_max_age_rounds ==> all_empty(after)
        }),
{
    let p = |c: u64| c <= last;
    let q = recent_and(round, params.bundle_max_age_rounds, p);
    lemma_moved_dated(s, fleet, topo, params, awake, round, p);
    let opened = bundle_round::round_opened(s, topo, params, round);
    lemma_opening(s, topo, params, round);
    let acked = bundle_round::acks_forwarded(opened, fleet, topo, params, awake, round);
    lemma_acks_forwarded(opened, fleet, topo, params, awake, round);
    let used = bundle_round::slots_spent(opened, topo, awake);
    let g0 = Gather { s: acked, moves: Seq::empty() };
    lemma_slots_tame(g0, fleet, topo, params, used, round, awake, awake.len());
    let g = bundle_round::slots_taken(g0, fleet, topo, params, used, round, awake, awake.len());
    lemma_all_tame_on(s.nodes, opened.nodes, acked.nodes, params);
    lemma_all_tame_on(s.nodes, acked.nodes, g.s.nodes, params);
    let any = |c: u64| true;
    lemma_all_handed_dated(g.s, fleet, g.moves, params, round, g.moves.len(), any);
    let moved = bundle_round::bundles_forwarded(acked, fleet, topo, params, used, awake, round);
    assert forall|i: int| 0 <= i < moved.nodes.len() implies (
    #[trigger] moved.nodes[i]).next_bundle_round == s.nodes[i].next_bundle_round by {
        assert(tame(s.nodes[i], g.s.nodes[i], params));
    }
    lemma_none_originate(moved, fleet, params, round, awake, awake.len());
    let after = bundle_round::bundle_round(s, fleet, topo, params, awake, round).nodes;
    assert(after == moved.nodes);
    assert forall|i: int, j: int| 0 <= i < after.len() && 0 <= j < after[i].queue.len() implies (
    #[trigger] after[i].queue[j]).created_at_round <= last by {
        assert(q(after[i].queue[j].created_at_round));
    }
    assert forall|i: int, j: int|
        0 <= i < after.len() && 0 <= j < after[i].ack_queue.len() implies (
    #[trigger] after[i].ack_queue[j]).created_at_round <= last by {
        assert(q(after[i].ack_queue[j].created_at_round));
    }
    if round > last + params.bundle_max_age_rounds {
        assert forall|i: int| 0 <= i < after.len() implies (#[trigger] after[i]).queue.len() == 0
            && after[i].ack_queue.len() == 0 by {
            if after[i].queue.len() > 0 {
                assert(q(after[i].queue[0].created_at_round));
            }
            if after[i].ack_queue.len() > 0 {
                assert(q(after[i].ack_queue[0].created_at_round));
            }
        }
    }
}

proof fn lemma_none_originate(
    s: RoundState,
    fleet: Seq<Balloon>,
    params: DvDtnParams,
    round: u64,
    awake: Seq<usize>,
    k: nat,
)
    requires
        k <= awake.len(),
        forall|j: int| 0 <= j < awake.len() ==> (#[trigger] awake[j]) < s.nodes.len(),
        forall|i: int| 0 <= i < s.nodes.len() ==> (#[trigger] s.nodes[i]).next_bundle_round > round,
    ensures
        bundle_round::originations(s, fleet, params, round, awake, k) == s,
    decreases k,
{
    if k > 0 {
        lemma_none_originate(s, fleet, params, round, awake, (k - 1) as nat);
        assert(s.nodes[awake[k - 1] as int].next_bundle_round > round);
    }
}
} // verus!
