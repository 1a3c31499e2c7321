//! What a round of delivery gets done: what every wake slot comes to, what lands
//! at a tower, and what moves on.
use vstd::prelude::*;

use crate::balloon::Balloon;
use crate::mesh_adjacency::Topology;
use crate::telemetry;

use super::beacon::RouteBelief;
use super::bundle;
use super::bundle::{AckModel, BundleModel, Channel};
use super::bundle_laws;
use super::bundle_order;
use super::bundle_paths;
use super::bundle_round;
use super::bundle_round::{AckGather, AckMove, Gather, Handoff, RoundState};
use super::bundle_stats::Tally;
use super::params::{DvDtnParams, QueueDiscipline};
use super::NodeModel;

verus! {

/// The bundles of a queue that still have time left.
pub open spec fn alive(q: Seq<BundleModel>, round: u64, max_age: u64) -> Seq<BundleModel> {
    q.filter(|b: BundleModel| round <= b.created_at_round + max_age)
}

/// The acks of a queue that still have time left.
pub open spec fn acks_alive(q: Seq<AckModel>, round: u64, max_age: u64) -> Seq<AckModel> {
    q.filter(|a: AckModel| round <= a.created_at_round + max_age)
}

proof fn lemma_alive(q: Seq<BundleModel>, k: nat, round: u64, max_age: u64)
    requires
        k <= q.len(),
    ensures
        bundle_round::live_bundles(q, k, round, max_age) == alive(
            q.take(k as int),
            round,
            max_age,
        ),
    decreases k,
{
    reveal(Seq::filter);
    if k > 0 {
        lemma_alive(q, (k - 1) as nat, round, max_age);
        assert(q.take(k as int).drop_last() =~= q.take(k - 1));
    } else {
        assert(q.take(0).len() == 0);
    }
}

proof fn lemma_acks_alive(q: Seq<AckModel>, k: nat, round: u64, max_age: u64)
    requires
        k <= q.len(),
    ensures
        bundle_round::live_acks(q, k, round, max_age) == acks_alive(
            q.take(k as int),
            round,
            max_age,
        ),
    decreases k,
{
    reveal(Seq::filter);
    if k > 0 {
        lemma_acks_alive(q, (k - 1) as nat, round, max_age);
        assert(q.take(k as int).drop_last() =~= q.take(k - 1));
    } else {
        assert(q.take(0).len() == 0);
    }
}

// ---------------------------------------------------------------------------
// What leaves queues and counters alone
// ---------------------------------------------------------------------------

/// Whether every node has the same bundles, beliefs and numbers.
spec fn same_load(a: Seq<NodeModel>, b: Seq<NodeModel>) -> bool {
    &&& a.len() == b.len()
    &&& forall|j: int|
        0 <= j < a.len() ==> {
            &&& (#[trigger] b[j]).queue == a[j].queue
            &&& b[j].belief == a[j].belief
            &&& b[j].bundle_seq == a[j].bundle_seq
            &&& b[j].next_bundle_round == a[j].next_bundle_round
        }
}

/// Whether the counters of what wake slots come to are the same.
pub(crate) open spec fn same_work(a: Tally, b: Tally) -> bool {
    &&& b.delivered == a.delivered
    &&& b.stall_no_belief == a.stall_no_belief
    &&& b.stall_tower_gone == a.stall_tower_gone
    &&& b.stall_stale_next_hop == a.stall_stale_next_hop
    &&& b.slots_with_bundle == a.slots_with_bundle
}

proof fn lemma_same_load_on(a: Seq<NodeModel>, b: Seq<NodeModel>, c: Seq<NodeModel>)
    requires
        same_load(a, b),
        same_load(b, c),
    ensures
        same_load(a, c),
{
    assert forall|j: int| 0 <= j < a.len() implies {
        &&& (#[trigger] c[j]).queue == a[j].queue
        &&& c[j].belief == a[j].belief
        &&& c[j].bundle_seq == a[j].bundle_seq
        &&& c[j].next_bundle_round == a[j].next_bundle_round
    } by {
        assert(b[j].queue == a[j].queue);
    }
}

proof fn lemma_sent_up(nodes: Seq<NodeModel>, list: Seq<BundleModel>, k: nat)
    ensures
        same_load(nodes, bundle_round::all_noted_sent_up(nodes, list, k)),
        forall|j: int|
            0 <= j < nodes.len() ==> (#[trigger] bundle_round::all_noted_sent_up(
                nodes,
                list,
                k,
            )[j]).ack_queue == nodes[j].ack_queue,
    decreases k,
{
    if k > 0 {
        lemma_sent_up(nodes, list, (k - 1) as nat);
    }
}

proof fn lemma_lost(nodes: Seq<NodeModel>, list: Seq<AckModel>, k: nat)
    ensures
        same_load(nodes, bundle_round::all_noted_lost(nodes, list, k)),
        forall|j: int|
            0 <= j < nodes.len() ==> (#[trigger] bundle_round::all_noted_lost(
                nodes,
                list,
                k,
            )[j]).ack_queue == nodes[j].ack_queue,
    decreases k,
{
    if k > 0 {
        lemma_lost(nodes, list, (k - 1) as nat);
    }
}

/// Opening a round takes away what is too old and nothing else.
pub(crate) proof fn lemma_opened(s: RoundState, topo: Topology, params: DvDtnParams, round: u64)
    ensures
        ({
            let b = bundle_round::round_opened(s, topo, params, round);
            &&& b.nodes.len() == s.nodes.len()
            &&& same_work(s.tally, b.tally)
            &&& forall|j: int|
                0 <= j < s.nodes.len() ==> {
                    &&& (#[trigger] b.nodes[j]).queue == alive(
                        s.nodes[j].queue,
                        round,
                        params.bundle_max_age_rounds,
                    )
                    &&& b.nodes[j].ack_queue == acks_alive(
                        s.nodes[j].ack_queue,
                        round,
                        params.bundle_max_age_rounds,
                    )
                    &&& b.nodes[j].belief == s.nodes[j].belief
                    &&& b.nodes[j].bundle_seq == s.nodes[j].bundle_seq
                    &&& b.nodes[j].next_bundle_round == s.nodes[j].next_bundle_round
                }
        }),
{
    let max_age = params.bundle_max_age_rounds;
    let late = bundle_round::all_late_bundles(s.nodes, s.nodes.len(), round, max_age);
    let kept = Seq::new(
        s.nodes.len(),
        |i: int| bundle_round::bundles_trimmed(s.nodes[i], round, max_age),
    );
    let a = bundle_round::bundles_expired(s, round, max_age);
    lemma_sent_up(kept, late, late.len());
    let late_acks = bundle_round::all_late_acks(a.nodes, a.nodes.len(), round, max_age);
    let kept_acks = Seq::new(
        a.nodes.len(),
        |i: int| bundle_round::acks_trimmed(a.nodes[i], round, max_age),
    );
    let c = bundle_round::acks_expired(a, round, max_age);
    lemma_lost(kept_acks, late_acks, late_acks.len());
    let b = bundle_round::round_opened(s, topo, params, round);
    assert forall|j: int| 0 <= j < s.nodes.len() implies {
        &&& (#[trigger] b.nodes[j]).queue == alive(s.nodes[j].queue, round, max_age)
        &&& b.nodes[j].ack_queue == acks_alive(s.nodes[j].ack_queue, round, max_age)
        &&& b.nodes[j].belief == s.nodes[j].belief
        &&& b.nodes[j].bundle_seq == s.nodes[j].bundle_seq
        &&& b.nodes[j].next_bundle_round == s.nodes[j].next_bundle_round
    } by {
        let q = s.nodes[j].queue;
        lemma_alive(q, q.len(), round, max_age);
        assert(q.take(q.len() as int) =~= q);
        assert(a.nodes[j].queue == kept[j].queue);
        assert(a.nodes[j].ack_queue == s.nodes[j].ack_queue);
        let k = a.nodes[j].ack_queue;
        lemma_acks_alive(k, k.len(), round, max_age);
        assert(k.take(k.len() as int) =~= k);
        assert(c.nodes[j].queue == kept_acks[j].queue);
        assert(c.nodes[j].ack_queue == kept_acks[j].ack_queue);
        assert(b.nodes[j] == bundle_round::timed_out(c.nodes[j], round, max_age));
    }
}

/// Whether a node has an ack whose next stop it hears.
pub open spec fn passes_ack(acks: Seq<AckModel>, near: Seq<u32>) -> bool {
    acks.len() > 0 && acks[0].remaining.len() > 0 && near.contains(acks[0].remaining[0])
}

proof fn lemma_acks_taken(g: AckGather, topo: Topology, awake: Seq<usize>, k: nat)
    requires
        k <= awake.len(),
        g.used.len() == g.nodes.len(),
        forall|j: int| 0 <= j < awake.len() ==> (#[trigger] awake[j]) < g.nodes.len(),
        awake.no_duplicates(),
        forall|j: int| 0 <= j < g.used.len() ==> !#[trigger] g.used[j],
    ensures
        ({
            let b = bundle_round::acks_taken(g, topo, awake, k);
            &&& same_load(g.nodes, b.nodes)
            &&& b.used.len() == g.used.len()
            &&& forall|j: int|
                0 <= j < g.nodes.len() && (forall|x: int| 0 <= x < k ==> #[trigger] awake[x] != j)
                    ==> (#[trigger] b.nodes[j]).ack_queue == g.nodes[j].ack_queue && !b.used[j]
            &&& forall|x: int|
                0 <= x < k ==> b.used[(#[trigger] awake[x]) as int] == passes_ack(
                    g.nodes[awake[x] as int].ack_queue,
                    topo.neighbors_of(awake[x] as int),
                )
        }),
    decreases k,
{
    if k > 0 {
        lemma_acks_taken(g, topo, awake, (k - 1) as nat);
        let a = bundle_round::acks_taken(g, topo, awake, (k - 1) as nat);
        let b = bundle_round::acks_taken(g, topo, awake, k);
        let i = awake[k - 1] as int;
        assert(awake[k - 1] < g.nodes.len());
        assert forall|x: int| 0 <= x < k - 1 implies #[trigger] awake[x] != i by {
            assert(awake[x] != awake[k - 1]);
        }
        assert(a.nodes[i].ack_queue == g.nodes[i].ack_queue);
        assert forall|j: int|
            0 <= j < g.nodes.len() && (forall|x: int|
                0 <= x < k ==> #[trigger] awake[x] != j) implies (#[trigger] b.nodes[j]).ack_queue
            == g.nodes[j].ack_queue && !b.used[j] by {
            assert(awake[k - 1] != j);
            assert(a.nodes[j].ack_queue == g.nodes[j].ack_queue);
        }
        assert forall|x: int| 0 <= x < k implies b.used[(#[trigger] awake[x]) as int]
            == passes_ack(
            g.nodes[awake[x] as int].ack_queue,
            topo.neighbors_of(awake[x] as int),
        ) by {
            if x < k - 1 {
                assert(awake[x] != awake[k - 1]);
                assert(awake[x] < g.nodes.len());
            }
        }
    }
}

proof fn lemma_acks_handed(
    s: RoundState,
    fleet: Seq<Balloon>,
    params: DvDtnParams,
    moves: Seq<AckMove>,
    k: nat,
)
    requires
        k <= moves.len(),
    ensures
        same_load(s.nodes, bundle_round::acks_handed(s, fleet, params, moves, k).nodes),
        same_work(s.tally, bundle_round::acks_handed(s, fleet, params, moves, k).tally),
    decreases k,
{
    if k > 0 {
        lemma_acks_handed(s, fleet, params, moves, (k - 1) as nat);
    }
}

proof fn lemma_acks_received(s: RoundState, resolved: Seq<(u32, u64)>, round: u64, k: nat)
    requires
        k <= resolved.len(),
    ensures
        same_load(s.nodes, bundle_round::acks_received(s, resolved, round, k).nodes),
        same_work(s.tally, bundle_round::acks_received(s, resolved, round, k).tally),
    decreases k,
{
    if k > 0 {
        lemma_acks_received(s, resolved, round, (k - 1) as nat);
    }
}

/// Acks take up slots, and touch no bundle.
proof fn lemma_acked(
    s: RoundState,
    fleet: Seq<Balloon>,
    topo: Topology,
    params: DvDtnParams,
    awake: Seq<usize>,
    round: u64,
)
    requires
        forall|j: int| 0 <= j < awake.len() ==> (#[trigger] awake[j]) < s.nodes.len(),
        awake.no_duplicates(),
    ensures
        ({
            let b = bundle_round::acks_forwarded(s, fleet, topo, params, awake, round);
            let used = bundle_round::slots_spent(s, topo, awake);
            &&& same_load(s.nodes, b.nodes)
            &&& same_work(s.tally, b.tally)
            &&& forall|x: int|
                0 <= x < awake.len() ==> used[(#[trigger] awake[x]) as int] == passes_ack(
                    s.nodes[awake[x] as int].ack_queue,
                    topo.neighbors_of(awake[x] as int),
                )
        }),
{
    let g0 = bundle_round::ack_gather_start(s.nodes);
    lemma_acks_taken(g0, topo, awake, awake.len());
    let g = bundle_round::acks_taken(g0, topo, awake, awake.len());
    let a = RoundState { nodes: g.nodes, ..s };
    lemma_acks_handed(a, fleet, params, g.moves, g.moves.len());
    let b = bundle_round::acks_handed(a, fleet, params, g.moves, g.moves.len());
    lemma_acks_received(b, g.resolved, round, g.resolved.len());
    let c = bundle_round::acks_received(b, g.resolved, round, g.resolved.len());
    lemma_same_load_on(s.nodes, a.nodes, b.nodes);
    lemma_same_load_on(s.nodes, b.nodes, c.nodes);
}

// ---------------------------------------------------------------------------
// One wake slot
// ---------------------------------------------------------------------------

/// Whether only node `i` has other bundles than before.
pub(crate) open spec fn only_at(a: Seq<NodeModel>, b: Seq<NodeModel>, i: int) -> bool {
    &&& a.len() == b.len()
    &&& forall|j: int|
        0 <= j < a.len() ==> {
            &&& j != i ==> (#[trigger] b[j]).queue == a[j].queue
            &&& b[j].belief == a[j].belief
            &&& b[j].bundle_seq == a[j].bundle_seq
            &&& b[j].next_bundle_round == a[j].next_bundle_round
        }
}

/// What a queue is left with once `k` bundles have been sent, in the order in
/// which bundles are sent: the oldest first, or the newest.
pub open spec fn left_behind(q: Seq<BundleModel>, d: QueueDiscipline, k: int) -> Seq<BundleModel> {
    match d {
        QueueDiscipline::Fifo => q.skip(k),
        QueueDiscipline::Lifo => q.take(q.len() - k),
    }
}

pub(crate) proof fn lemma_delivered(
    s: RoundState,
    i: int,
    tower_id: u32,
    params: DvDtnParams,
    round: u64,
    k: nat,
)
    requires
        0 <= i < s.nodes.len(),
        k <= s.nodes[i].queue.len(),
    ensures
        ({
            let b = bundle_round::bundles_delivered(s, i, tower_id, params, round, k);
            &&& only_at(s.nodes, b.nodes, i)
            &&& b.nodes[i].queue == left_behind(
                s.nodes[i].queue,
                params.queue_discipline,
                k as int,
            )
            &&& b.tally.delivered == s.tally.delivered + k
            &&& same_work(Tally { delivered: b.tally.delivered, ..s.tally }, b.tally)
        }),
    decreases k,
{
    let b = bundle_round::bundles_delivered(s, i, tower_id, params, round, k);
    if k > 0 {
        lemma_delivered(s, i, tower_id, params, round, (k - 1) as nat);
        let a = bundle_round::bundles_delivered(s, i, tower_id, params, round, (k - 1) as nat);
        let q = a.nodes[i].queue;
        let place = bundle::nth_place(q.len() as int, params.queue_discipline, 0);
        assert(q.remove(place) =~= left_behind(
            s.nodes[i].queue,
            params.queue_discipline,
            k as int,
        ));
        assert(b.nodes[i].queue == q.remove(place));
        assert(only_at(a.nodes, b.nodes, i));
    } else {
        assert(left_behind(s.nodes[i].queue, params.queue_discipline, 0) =~= s.nodes[i].queue);
    }
}

proof fn lemma_batch(
    s: RoundState,
    i: int,
    next: u32,
    params: DvDtnParams,
    ids: Seq<(u32, u64)>,
)
    requires
        0 <= i < s.nodes.len(),
    ensures
        only_at(s.nodes, bundle_round::batch_filled(s, i, next, params, ids).0.nodes, i),
        same_work(s.tally, bundle_round::batch_filled(s, i, next, params, ids).0.tally),
    decreases params.batch.mesh_hop - ids.len(),
{
    let q = s.nodes[i].queue;
    let k = ids.len();
    let place = bundle::nth_place(q.len() as int, params.queue_discipline, k as int);
    if k >= params.batch.mesh_hop || k >= q.len() {
    } else if q[place].path.contains(next) {
    } else if q[place].path.len() >= params.bundle_max_hops {
    } else {
        lemma_batch(s, i, next, params, ids.push((q[place].origin_id, q[place].seq)));
    }
}

/// Whether a balloon believes that it hears a tower itself.
pub open spec fn at_last_hop(belief: Option<RouteBelief>) -> bool {
    belief matches Some(b) && b.next_hop is None
}

/// How many of so many bundles a balloon awake leaves at a tower: as many as the
/// contact takes, if it believes that it hears a tower and any tower is in range.
pub open spec fn landing(
    held: nat,
    belief: Option<RouteBelief>,
    topo: Topology,
    params: DvDtnParams,
    i: int,
) -> nat {
    if at_last_hop(belief) && topo.tower_of(i) is Some {
        if held < params.batch.tower_contact {
            held
        } else {
            params.batch.tower_contact as nat
        }
    } else {
        0
    }
}

/// Whether a balloon awake is kept from delivering because the tower it believes
/// in is gone, and no other is in range.
pub open spec fn tower_gone(
    held: nat,
    belief: Option<RouteBelief>,
    topo: Topology,
    i: int,
) -> bool {
    held > 0 && at_last_hop(belief) && topo.tower_of(i) is None
}

/// Whether a balloon awake is kept from sending for want of a route.
pub open spec fn no_route(held: nat, belief: Option<RouteBelief>) -> bool {
    held > 0 && belief is None
}

/// Whether a balloon awake, with its slot to itself, is kept from sending because
/// its next hop is out of range.
pub open spec fn hop_gone(
    held: nat,
    belief: Option<RouteBelief>,
    topo: Topology,
    spent: bool,
    i: int,
) -> bool {
    held > 0 && !spent && (belief matches Some(b) && b.next_hop matches Some(next)
        && !topo.neighbors_of(i).contains(next))
}

/// One, if so.
pub open spec fn one_if(b: bool) -> nat {
    if b {
        1
    } else {
        0
    }
}

proof fn lemma_slot(
    g: Gather,
    fleet: Seq<Balloon>,
    topo: Topology,
    params: DvDtnParams,
    used: Seq<bool>,
    round: u64,
    i: int,
)
    requires
        0 <= i < g.s.nodes.len(),
    ensures
        ({
            let r = bundle_round::slot_taken(g, fleet, topo, params, used, round, i);
            let n = g.s.nodes[i];
            let held = n.queue.len();
            &&& only_at(g.s.nodes, r.s.nodes, i)
            &&& g.moves.is_prefix_of(r.moves)
            &&& r.s.tally.delivered == g.s.tally.delivered + landing(
                held,
                n.belief,
                topo,
                params,
                i,
            )
            &&& r.s.tally.stall_tower_gone == g.s.tally.stall_tower_gone + one_if(
                tower_gone(held, n.belief, topo, i),
            )
            &&& r.s.tally.stall_no_belief == g.s.tally.stall_no_belief + one_if(
                no_route(held, n.belief),
            )
            &&& r.s.tally.stall_stale_next_hop == g.s.tally.stall_stale_next_hop + one_if(
                hop_gone(held, n.belief, topo, used[i], i),
            )
            &&& at_last_hop(n.belief) && topo.tower_of(i) is Some ==> r.s.nodes[i].queue
                == left_behind(
                n.queue,
                params.queue_discipline,
                landing(held, n.belief, topo, params, i) as int,
            )
        }),
{
    let n = g.s.nodes[i];
    if let Some(belief) = n.belief {
        let sampled = RoundState {
            tally: Tally {
                belief_hops: super::bundle_stats::bumped(
                    g.s.tally.belief_hops,
                    belief.hop_count as int,
                ),
                ..g.s.tally
            },
            ..g.s
        };
        let slot = RoundState {
            tally: Tally {
                slots_with_bundle: sampled.tally.slots_with_bundle + 1,
                ..sampled.tally
            },
            ..sampled
        };
        if n.queue.len() > 0 {
            match belief.next_hop {
                None => {
                    if let Some(tower_id) = topo.tower_of(i) {
                        let k = bundle_round::contact_size(slot.nodes[i], params);
                        let after = bundle_round::tower_contact(
                            slot,
                            fleet,
                            i,
                            tower_id,
                            params,
                            round,
                        );
                        lemma_contact(slot, fleet, i, tower_id, params, round);
                    }
                },
                Some(next) => {
                    if !used[i] && topo.neighbors_of(i).contains(next) {
                        lemma_batch(slot, i, next, params, Seq::empty());
                    }
                },
            }
        } else {
            assert(left_behind(n.queue, params.queue_discipline, 0) =~= n.queue);
        }
    }
}

proof fn lemma_contact(
    s: RoundState,
    fleet: Seq<Balloon>,
    i: int,
    tower_id: u32,
    params: DvDtnParams,
    round: u64,
)
    requires
        0 <= i < s.nodes.len(),
    ensures
        ({
            let b = bundle_round::tower_contact(s, fleet, i, tower_id, params, round);
            let k = bundle_round::contact_size(s.nodes[i], params);
            &&& only_at(s.nodes, b.nodes, i)
            &&& b.nodes[i].queue == left_behind(
                s.nodes[i].queue,
                params.queue_discipline,
                k as int,
            )
            &&& b.tally.delivered == s.tally.delivered + k
            &&& same_work(Tally { delivered: b.tally.delivered, ..s.tally }, b.tally)
        }),
{
    let k = bundle_round::contact_size(s.nodes[i], params);
    let announced = if k > 0 {
        RoundState {
            events: s.events.push(
                crate::protocol::CommsEvent {
                    kind: crate::protocol::EventKind::Bundle,
                    from: crate::link_detection::NodeKey::Balloon(fleet[i].id),
                    to: crate::link_detection::NodeKey::Tower(tower_id),
                    payload: (k as usize) as u32,
                    tower_id: Some(tower_id),
                    hop_count: Some(0),
                    epoch: None,
                },
            ),
            ..s
        }
    } else {
        s
    };
    lemma_delivered(announced, i, tower_id, params, round, k);
}

// ---------------------------------------------------------------------------
// All wake slots
// ---------------------------------------------------------------------------

/// A sum over the first `k` of those awake.
pub open spec fn sum_over(awake: Seq<usize>, f: spec_fn(int) -> nat, k: nat) -> nat
    decreases k,
{
    if k == 0 {
        0
    } else {
        sum_over(awake, f, (k - 1) as nat) + f(awake[k - 1] as int)
    }
}

pub(crate) proof fn lemma_sum_same(
    awake: Seq<usize>,
    f: spec_fn(int) -> nat,
    h: spec_fn(int) -> nat,
    k: nat,
)
    requires
        k <= awake.len(),
        forall|x: int| 0 <= x < k ==> f((#[trigger] awake[x]) as int) == h(awake[x] as int),
    ensures
        sum_over(awake, f, k) == sum_over(awake, h, k),
    decreases k,
{
    if k > 0 {
        lemma_sum_same(awake, f, h, (k - 1) as nat);
        assert(f(awake[k - 1] as int) == h(awake[k - 1] as int));
    }
}

proof fn lemma_slots(
    g: Gather,
    fleet: Seq<Balloon>,
    topo: Topology,
    params: DvDtnParams,
    used: Seq<bool>,
    round: u64,
    awake: Seq<usize>,
    k: nat,
)
    requires
        k <= awake.len(),
        forall|j: int| 0 <= j < awake.len() ==> (#[trigger] awake[j]) < g.s.nodes.len(),
        awake.no_duplicates(),
    ensures
        ({
            let r = bundle_round::slots_taken(g, fleet, topo, params, used, round, awake, k);
            let base = g.s.nodes;
            &&& r.s.nodes.len() == base.len()
            &&& forall|j: int|
                0 <= j < base.len() ==> {
                    &&& (#[trigger] r.s.nodes[j]).belief == base[j].belief
                    &&& r.s.nodes[j].bundle_seq == base[j].bundle_seq
                    &&& r.s.nodes[j].next_bundle_round == base[j].next_bundle_round
                }
            &&& forall|j: int|
                0 <= j < base.len() && (forall|x: int| 0 <= x < k ==> #[trigger] awake[x] != j)
                    ==> (#[trigger] r.s.nodes[j]).queue == base[j].queue
            &&& forall|x: int|
                0 <= x < k && at_last_hop(base[awake[x] as int].belief) && topo.tower_of(
                    awake[x] as int,
                ) is Some ==> r.s.nodes[(#[trigger] awake[x]) as int].queue == left_behind(
                    base[awake[x] as int].queue,
                    params.queue_discipline,
                    landing(
                        base[awake[x] as int].queue.len(),
                        base[awake[x] as int].belief,
                        topo,
                        params,
                        awake[x] as int,
                    ) as int,
                )
            &&& r.s.tally.delivered == g.s.tally.delivered + sum_over(
                awake,
                |i: int| landing(base[i].queue.len(), base[i].belief, topo, params, i),
                k,
            )
            &&& r.s.tally.stall_tower_gone == g.s.tally.stall_tower_gone + sum_over(
                awake,
                |i: int| one_if(tower_gone(base[i].queue.len(), base[i].belief, topo, i)),
                k,
            )
            &&& r.s.tally.stall_no_belief == g.s.tally.stall_no_belief + sum_over(
                awake,
                |i: int| one_if(no_route(base[i].queue.len(), base[i].belief)),
                k,
            )
            &&& r.s.tally.stall_stale_next_hop == g.s.tally.stall_stale_next_hop + sum_over(
                awake,
                |i: int| one_if(hop_gone(base[i].queue.len(), base[i].belief, topo, used[i], i)),
                k,
            )
        }),
    decreases k,
{
    if k > 0 {
        lemma_slots(g, fleet, topo, params, used, round, awake, (k - 1) as nat);
        let base = g.s.nodes;
        let a = bundle_round::slots_taken(
            g,
            fleet,
            topo,
            params,
            used,
            round,
            awake,
            (k - 1) as nat,
        );
        let r = bundle_round::slots_taken(g, fleet, topo, params, used, round, awake, k);
        let i = awake[k - 1] as int;
        assert(awake[k - 1] < base.len());
        assert forall|x: int| 0 <= x < k - 1 implies #[trigger] awake[x] != i by {
            assert(awake[x] != awake[k - 1]);
        }
        assert(a.s.nodes[i].queue == base[i].queue);
        assert(a.s.nodes[i].belief == base[i].belief);
        lemma_slot(a, fleet, topo, params, used, round, i);
        assert forall|j: int|
            0 <= j < base.len() && (forall|x: int| 0 <= x < k ==> #[trigger] awake[x] != j) implies (
        #[trigger] r.s.nodes[j]).queue == base[j].queue by {
            assert(awake[k - 1] != j);
            assert(a.s.nodes[j].queue == base[j].queue);
        }
        assert forall|x: int|
            0 <= x < k && at_last_hop(base[awake[x] as int].belief) && topo.tower_of(
                awake[x] as int,
            ) is Some implies r.s.nodes[(#[trigger] awake[x]) as int].queue == left_behind(
            base[awake[x] as int].queue,
            params.queue_discipline,
            landing(
                base[awake[x] as int].queue.len(),
                base[awake[x] as int].belief,
                topo,
                params,
                awake[x] as int,
            ) as int,
        ) by {
            if x < k - 1 {
                assert(awake[x] != awake[k - 1]);
                assert(awake[x] < base.len());
            }
        }
        assert forall|j: int| 0 <= j < base.len() implies {
            &&& (#[trigger] r.s.nodes[j]).belief == base[j].belief
            &&& r.s.nodes[j].bundle_seq == base[j].bundle_seq
            &&& r.s.nodes[j].next_bundle_round == base[j].next_bundle_round
        } by {
            assert(a.s.nodes[j].belief == base[j].belief);
        }
    }
}

proof fn lemma_handed(s: RoundState, mv: Handoff, params: DvDtnParams, round: u64, k: nat)
    ensures
        same_work(s.tally, bundle_round::bundles_handed(s, mv, params, round, k).0.tally),
    decreases k,
{
    if k > 0 {
        lemma_handed(s, mv, params, round, (k - 1) as nat);
    }
}

proof fn lemma_all_handed(
    s: RoundState,
    fleet: Seq<Balloon>,
    moves: Seq<Handoff>,
    params: DvDtnParams,
    round: u64,
    k: nat,
)
    requires
        k <= moves.len(),
    ensures
        same_work(
            s.tally,
            bundle_round::all_handed(s, fleet, moves, params, round, k).tally,
        ),
    decreases k,
{
    if k > 0 {
        lemma_all_handed(s, fleet, moves, params, round, (k - 1) as nat);
        lemma_handed(
            bundle_round::all_handed(s, fleet, moves, params, round, (k - 1) as nat),
            moves[k - 1],
            params,
            round,
            moves[k - 1].ids.len(),
        );
    }
}

proof fn lemma_originated(
    s: RoundState,
    fleet: Seq<Balloon>,
    params: DvDtnParams,
    round: u64,
    awake: Seq<usize>,
    k: nat,
)
    ensures
        same_work(
            s.tally,
            bundle_round::originations(s, fleet, params, round, awake, k).tally,
        ),
    decreases k,
{
    if k > 0 {
        lemma_originated(s, fleet, params, round, awake, (k - 1) as nat);
    }
}

/// How many bundles with time left a node holds.
pub open spec fn held_alive(n: NodeModel, params: DvDtnParams, round: u64) -> nat {
    alive(n.queue, round, params.bundle_max_age_rounds).len()
}

/// Whether a node that wakes spends its slot on an ack.
pub open spec fn slot_spent(
    n: NodeModel,
    topo: Topology,
    params: DvDtnParams,
    round: u64,
    i: int,
) -> bool {
    passes_ack(
        acks_alive(n.ack_queue, round, params.bundle_max_age_rounds),
        topo.neighbors_of(i),
    )
}

/// Every wake slot comes to what it should. Over a round, the deliveries are all
/// that the balloons awake can leave at the towers: one that believes it hears a
/// tower leaves what a contact takes at whichever tower is in range, whatever
/// tower it believes in. A slot is lost to a tower that is gone only where none
/// is in range, to the want of a route only where there is none, and to a next
/// hop that is gone only where that is out of range and the slot was not spent on
/// an ack; and only where there was something to send.
pub proof fn every_slot_comes_to_what_it_should(
    s: RoundState,
    fleet: Seq<Balloon>,
    topo: Topology,
    params: DvDtnParams,
    awake: Seq<usize>,
    round: u64,
)
    requires
        forall|j: int| 0 <= j < awake.len() ==> (#[trigger] awake[j]) < s.nodes.len(),
        awake.no_duplicates(),
    ensures
        ({
            let before = s.tally;
            let after = bundle_round::bundle_round(s, fleet, topo, params, awake, round).tally;
            let n = awake.len();
            &&& after.delivered == before.delivered + sum_over(
                awake,
                |i: int|
                    landing(
                        held_alive(s.nodes[i], params, round),
                        s.nodes[i].belief,
                        topo,
                        params,
                        i,
                    ),
                n,
            )
            &&& after.stall_tower_gone == before.stall_tower_gone + sum_over(
                awake,
                |i: int|
                    one_if(
                        tower_gone(
                            held_alive(s.nodes[i], params, round),
                            s.nodes[i].belief,
                            topo,
                            i,
                        ),
                    ),
                n,
            )
            &&& after.stall_no_belief == before.stall_no_belief + sum_over(
                awake,
                |i: int|
                    one_if(no_route(held_alive(s.nodes[i], params, round), s.nodes[i].belief)),
                n,
            )
            &&& after.stall_stale_next_hop == before.stall_stale_next_hop + sum_over(
                awake,
                |i: int|
                    one_if(
                        hop_gone(
                            held_alive(s.nodes[i], params, round),
                            s.nodes[i].belief,
                            topo,
                            slot_spent(s.nodes[i], topo, params, round, i),
                            i,
                        ),
                    ),
                n,
            )
        }),
{
    let opened = bundle_round::round_opened(s, topo, params, round);
    lemma_opened(s, topo, params, round);
    let acked = bundle_round::acks_forwarded(opened, fleet, topo, params, awake, round);
    lemma_acked(opened, fleet, topo, params, awake, round);
    let used = bundle_round::slots_spent(opened, topo, awake);
    let g0 = Gather { s: acked, moves: Seq::empty() };
    lemma_slots(g0, fleet, topo, params, used, round, awake, awake.len());
    let g = bundle_round::slots_taken(g0, fleet, topo, params, used, round, awake, awake.len());
    lemma_all_handed(g.s, fleet, g.moves, params, round, g.moves.len());
    let moved = bundle_round::all_handed(g.s, fleet, g.moves, params, round, g.moves.len());
    lemma_originated(moved, fleet, params, round, awake, awake.len());
    let base = acked.nodes;
    assert forall|x: int| 0 <= x < awake.len() implies {
        let i = (#[trigger] awake[x]) as int;
        &&& base[i].queue.len() == held_alive(s.nodes[i], params, round)
        &&& base[i].belief == s.nodes[i].belief
        &&& used[i] == slot_spent(s.nodes[i], topo, params, round, i)
    } by {
        let i = awake[x] as int;
        assert(awake[x] < s.nodes.len());
        assert(base[i].queue == opened.nodes[i].queue);
    }
    lemma_sum_same(
        awake,
        |i: int| landing(base[i].queue.len(), base[i].belief, topo, params, i),
        |i: int|
            landing(held_alive(s.nodes[i], params, round), s.nodes[i].belief, topo, params, i),
        awake.len(),
    );
    lemma_sum_same(
        awake,
        |i: int| one_if(tower_gone(base[i].queue.len(), base[i].belief, topo, i)),
        |i: int|
            one_if(
                tower_gone(held_alive(s.nodes[i], params, round), s.nodes[i].belief, topo, i),
            ),
        awake.len(),
    );
    lemma_sum_same(
        awake,
        |i: int| one_if(no_route(base[i].queue.len(), base[i].belief)),
        |i: int| one_if(no_route(held_alive(s.nodes[i], params, round), s.nodes[i].belief)),
        awake.len(),
    );
    lemma_sum_same(
        awake,
        |i: int| one_if(hop_gone(base[i].queue.len(), base[i].belief, topo, used[i], i)),
        |i: int|
            one_if(
                hop_gone(
                    held_alive(s.nodes[i], params, round),
                    s.nodes[i].belief,
                    topo,
                    slot_spent(s.nodes[i], topo, params, round, i),
                    i,
                ),
            ),
        awake.len(),
    );
}

// ---------------------------------------------------------------------------
// What lands
// ---------------------------------------------------------------------------

/// Whether nobody holds a bundle of this identity.
pub open spec fn held_by_none(nodes: Seq<NodeModel>, origin_id: u32, seq: u64) -> bool {
    forall|i: int, j: int|
        0 <= i < nodes.len() && 0 <= j < nodes[i].queue.len() ==> !((
        #[trigger] nodes[i].queue[j]).origin_id == origin_id && nodes[i].queue[j].seq == seq)
}

/// Whether the books of a bundle's origin, as far as they are still about that
/// bundle, have it as landed at a tower, by radio and the way it went.
pub open spec fn noted_landed(nodes: Seq<NodeModel>, b: BundleModel, tower_id: u32) -> bool {
    b.origin_id < nodes.len() ==> ((nodes[b.origin_id as int].outstanding matches Some(o) && o.seq
        == b.seq) ==> {
        let o = nodes[b.origin_id as int].outstanding->Some_0;
        &&& o.channel == Some(Channel::Radio)
        &&& o.tower_id == Some(tower_id)
        &&& o.path == Some(b.path)
    })
}

/// A delivery is noted, and no other is forgotten for it.
proof fn lemma_delivery_notes(
    s: RoundState,
    i: int,
    tower_id: u32,
    params: DvDtnParams,
    round: u64,
    c: BundleModel,
    t: u32,
)
    requires
        0 <= i < s.nodes.len(),
        s.nodes[i].queue.len() > 0,
        ({
            let q = s.nodes[i].queue;
            let b = q[bundle::nth_place(q.len() as int, params.queue_discipline, 0)];
            (c == b && t == tower_id) || (noted_landed(s.nodes, c, t) && (c.origin_id
                != b.origin_id || c.seq != b.seq))
        }),
    ensures
        noted_landed(
            bundle_round::bundle_delivered(s, i, tower_id, params, round).nodes,
            c,
            t,
        ),
{
    let q = s.nodes[i].queue;
    let place = bundle::nth_place(q.len() as int, params.queue_discipline, 0);
    let b = q[place];
    let taken = s.nodes.update(i, NodeModel { queue: q.remove(place), ..s.nodes[i] });
    let arrived = bundle_round::note_landed(taken, b, tower_id);
    assert(noted_landed(arrived, c, t));
}

proof fn lemma_deliveries_note(
    s: RoundState,
    i: int,
    tower_id: u32,
    params: DvDtnParams,
    round: u64,
    k: nat,
    m: int,
)
    requires
        0 <= i < s.nodes.len(),
        bundle_paths::all_distinct(s.nodes),
        0 <= m < k <= s.nodes[i].queue.len(),
    ensures
        noted_landed(
            bundle_round::bundles_delivered(s, i, tower_id, params, round, k).nodes,
            s.nodes[i].queue[bundle::nth_place(
                s.nodes[i].queue.len() as int,
                params.queue_discipline,
                m,
            )],
            tower_id,
        ),
    decreases k,
{
    let q = s.nodes[i].queue;
    let d = params.queue_discipline;
    lemma_delivered(s, i, tower_id, params, round, (k - 1) as nat);
    let a = bundle_round::bundles_delivered(s, i, tower_id, params, round, (k - 1) as nat);
    let rest = a.nodes[i].queue;
    let c = q[bundle::nth_place(q.len() as int, d, m)];
    let b = rest[bundle::nth_place(rest.len() as int, d, 0)];
    assert(b == q[bundle::nth_place(q.len() as int, d, k - 1)]);
    if m < k - 1 {
        lemma_deliveries_note(s, i, tower_id, params, round, (k - 1) as nat, m);
        if c.origin_id == b.origin_id && c.seq == b.seq {
            bundle_paths::an_identity_is_one_bundle(
                s.nodes,
                i,
                bundle::nth_place(q.len() as int, d, m),
                i,
                bundle::nth_place(q.len() as int, d, k - 1),
            );
        }
    }
    lemma_delivery_notes(a, i, tower_id, params, round, c, tower_id);
}

/// What a contact took is held by none.
proof fn lemma_taken_is_gone(a: Seq<NodeModel>, b: Seq<NodeModel>, i: int, d: QueueDiscipline, k: int, m: int)
    requires
        bundle_paths::all_distinct(a),
        only_at(a, b, i),
        0 <= i < a.len(),
        0 <= m < k <= a[i].queue.len(),
        b[i].queue == left_behind(a[i].queue, d, k),
    ensures
        ({
            let c = a[i].queue[bundle::nth_place(a[i].queue.len() as int, d, m)];
            held_by_none(b, c.origin_id, c.seq)
        }),
{
    let q = a[i].queue;
    let p = bundle::nth_place(q.len() as int, d, m);
    let c = q[p];
    assert forall|x: int, y: int| 0 <= x < b.len() && 0 <= y < b[x].queue.len() implies !((
    #[trigger] b[x].queue[y]).origin_id == c.origin_id && b[x].queue[y].seq == c.seq) by {
        if b[x].queue[y].origin_id == c.origin_id && b[x].queue[y].seq == c.seq {
            if x == i {
                let z = match d {
                    QueueDiscipline::Fifo => y + k,
                    QueueDiscipline::Lifo => y,
                };
                assert(b[x].queue[y] == q[z]);
                bundle_paths::an_identity_is_one_bundle(a, i, z, i, p);
            } else {
                assert(b[x].queue == a[x].queue);
                bundle_paths::an_identity_is_one_bundle(a, x, y, i, p);
            }
        }
    }
}

/// Whether a bundle has landed for good: nobody holds it, and its origin has it
/// as landed.
spec fn landed_for_good(nodes: Seq<NodeModel>, c: BundleModel, t: u32) -> bool {
    held_by_none(nodes, c.origin_id, c.seq) && noted_landed(nodes, c, t)
}

proof fn lemma_contact_keeps(
    s: RoundState,
    i: int,
    tower_id: u32,
    params: DvDtnParams,
    round: u64,
    k: nat,
    c: BundleModel,
    t: u32,
)
    requires
        0 <= i < s.nodes.len(),
        k <= s.nodes[i].queue.len(),
        landed_for_good(s.nodes, c, t),
    ensures
        landed_for_good(
            bundle_round::bundles_delivered(s, i, tower_id, params, round, k).nodes,
            c,
            t,
        ),
    decreases k,
{
    if k > 0 {
        lemma_contact_keeps(s, i, tower_id, params, round, (k - 1) as nat, c, t);
        lemma_delivered(s, i, tower_id, params, round, (k - 1) as nat);
        lemma_delivered(s, i, tower_id, params, round, k);
        let a = bundle_round::bundles_delivered(s, i, tower_id, params, round, (k - 1) as nat);
        let b = bundle_round::bundles_delivered(s, i, tower_id, params, round, k);
        let rest = a.nodes[i].queue;
        let p = bundle::nth_place(rest.len() as int, params.queue_discipline, 0);
        assert(!(a.nodes[i].queue[p].origin_id == c.origin_id && a.nodes[i].queue[p].seq
            == c.seq));
        lemma_delivery_notes(a, i, tower_id, params, round, c, t);
        assert forall|x: int, y: int|
            0 <= x < b.nodes.len() && 0 <= y < b.nodes[x].queue.len() implies !((
        #[trigger] b.nodes[x].queue[y]).origin_id == c.origin_id && b.nodes[x].queue[y].seq
            == c.seq) by {
            if x == i {
                let z = match params.queue_discipline {
                    QueueDiscipline::Fifo => y + k,
                    QueueDiscipline::Lifo => y,
                };
                assert(b.nodes[x].queue[y] == s.nodes[i].queue[z]);
            } else {
                assert(b.nodes[x].queue == s.nodes[x].queue);
            }
        }
    }
}

proof fn lemma_batch_keeps(
    s: RoundState,
    i: int,
    next: u32,
    params: DvDtnParams,
    ids: Seq<(u32, u64)>,
    c: BundleModel,
    t: u32,
)
    requires
        0 <= i < s.nodes.len(),
        landed_for_good(s.nodes, c, t),
    ensures
        landed_for_good(bundle_round::batch_filled(s, i, next, params, ids).0.nodes, c, t),
    decreases params.batch.mesh_hop - ids.len(),
{
    let q = s.nodes[i].queue;
    let k = ids.len();
    let place = bundle::nth_place(q.len() as int, params.queue_discipline, k as int);
    if k >= params.batch.mesh_hop || k >= q.len() {
    } else if q[place].path.contains(next) {
        lemma_drop_keeps(s, i, place, bundle_round::Loss::Loop, c, t);
    } else if q[place].path.len() >= params.bundle_max_hops {
        lemma_drop_keeps(s, i, place, bundle_round::Loss::HopBudget, c, t);
    } else {
        lemma_batch_keeps(
            s,
            i,
            next,
            params,
            ids.push((q[place].origin_id, q[place].seq)),
            c,
            t,
        );
    }
}

proof fn lemma_drop_keeps(
    s: RoundState,
    i: int,
    place: int,
    why: bundle_round::Loss,
    c: BundleModel,
    t: u32,
)
    requires
        0 <= i < s.nodes.len(),
        0 <= place < s.nodes[i].queue.len(),
        landed_for_good(s.nodes, c, t),
    ensures
        landed_for_good(bundle_round::bundle_dropped(s, i, place, why).nodes, c, t),
{
    let q = s.nodes[i].queue;
    let b = bundle_round::bundle_dropped(s, i, place, why).nodes;
    assert(!(s.nodes[i].queue[place].origin_id == c.origin_id && s.nodes[i].queue[place].seq
        == c.seq));
    assert forall|x: int, y: int| 0 <= x < b.len() && 0 <= y < b[x].queue.len() implies !((
    #[trigger] b[x].queue[y]).origin_id == c.origin_id && b[x].queue[y].seq == c.seq) by {
        if x == i {
            let z = if y < place {
                y
            } else {
                y + 1
            };
            assert(b[x].queue[y] == s.nodes[i].queue[z]);
        } else {
            assert(b[x].queue == s.nodes[x].queue);
        }
    }
}

proof fn lemma_slot_keeps(
    g: Gather,
    fleet: Seq<Balloon>,
    topo: Topology,
    params: DvDtnParams,
    used: Seq<bool>,
    round: u64,
    i: int,
    c: BundleModel,
    t: u32,
)
    requires
        0 <= i < g.s.nodes.len(),
        landed_for_good(g.s.nodes, c, t),
    ensures
        landed_for_good(
            bundle_round::slot_taken(g, fleet, topo, params, used, round, i).s.nodes,
            c,
            t,
        ),
{
    let n = g.s.nodes[i];
    if let Some(belief) = n.belief {
        let sampled = RoundState {
            tally: Tally {
                belief_hops: super::bundle_stats::bumped(
                    g.s.tally.belief_hops,
                    belief.hop_count as int,
                ),
                ..g.s.tally
            },
            ..g.s
        };
        let slot = RoundState {
            tally: Tally {
                slots_with_bundle: sampled.tally.slots_with_bundle + 1,
                ..sampled.tally
            },
            ..sampled
        };
        if n.queue.len() > 0 {
            match belief.next_hop {
                None => {
                    if let Some(tower_id) = topo.tower_of(i) {
                        let k = bundle_round::contact_size(slot.nodes[i], params);
                        let announced = announced(slot, fleet, i, tower_id, k);
                        lemma_contact_keeps(announced, i, tower_id, params, round, k, c, t);
                    }
                },
                Some(next) => {
                    if !used[i] && topo.neighbors_of(i).contains(next) {
                        lemma_batch_keeps(slot, i, next, params, Seq::empty(), c, t);
                    }
                },
            }
        }
    }
}

/// A round as a contact with a tower is seen, if it takes anything.
pub(crate) open spec fn announced(
    s: RoundState,
    fleet: Seq<Balloon>,
    i: int,
    tower_id: u32,
    k: nat,
) -> RoundState {
    if k > 0 {
        RoundState {
            events: s.events.push(
                crate::protocol::CommsEvent {
                    kind: crate::protocol::EventKind::Bundle,
                    from: crate::link_detection::NodeKey::Balloon(fleet[i].id),
                    to: crate::link_detection::NodeKey::Tower(tower_id),
                    payload: (k as usize) as u32,
                    tower_id: Some(tower_id),
                    hop_count: Some(0),
                    epoch: None,
                },
            ),
            ..s
        }
    } else {
        s
    }
}

/// What a slot with a tower in range takes has landed for good.
proof fn lemma_slot_lands(
    g: Gather,
    fleet: Seq<Balloon>,
    topo: Topology,
    params: DvDtnParams,
    used: Seq<bool>,
    round: u64,
    i: int,
    m: int,
)
    requires
        0 <= i < g.s.nodes.len(),
        bundle_paths::all_distinct(g.s.nodes),
        at_last_hop(g.s.nodes[i].belief),
        topo.tower_of(i) is Some,
        0 <= m < landing(
            g.s.nodes[i].queue.len(),
            g.s.nodes[i].belief,
            topo,
            params,
            i,
        ),
    ensures
        landed_for_good(
            bundle_round::slot_taken(g, fleet, topo, params, used, round, i).s.nodes,
            g.s.nodes[i].queue[bundle::nth_place(
                g.s.nodes[i].queue.len() as int,
                params.queue_discipline,
                m,
            )],
            topo.tower_of(i)->Some_0,
        ),
{
    let n = g.s.nodes[i];
    let belief = n.belief->Some_0;
    let tower_id = topo.tower_of(i)->Some_0;
    let sampled = RoundState {
        tally: Tally {
            belief_hops: super::bundle_stats::bumped(
                g.s.tally.belief_hops,
                belief.hop_count as int,
            ),
            ..g.s.tally
        },
        ..g.s
    };
    let slot = RoundState {
        tally: Tally {
            slots_with_bundle: sampled.tally.slots_with_bundle + 1,
            ..sampled.tally
        },
        ..sampled
    };
    let k = bundle_round::contact_size(slot.nodes[i], params);
    assert(m < k);
    let told = announced(slot, fleet, i, tower_id, k);
    lemma_deliveries_note(told, i, tower_id, params, round, k, m);
    lemma_delivered(told, i, tower_id, params, round, k);
    let b = bundle_round::bundles_delivered(told, i, tower_id, params, round, k);
    lemma_taken_is_gone(told.nodes, b.nodes, i, params.queue_discipline, k as int, m);
}

proof fn lemma_slots_keep(
    g: Gather,
    fleet: Seq<Balloon>,
    topo: Topology,
    params: DvDtnParams,
    used: Seq<bool>,
    round: u64,
    awake: Seq<usize>,
    s: nat,
    k: nat,
    c: BundleModel,
    t: u32,
)
    requires
        s <= k <= awake.len(),
        forall|j: int| 0 <= j < awake.len() ==> (#[trigger] awake[j]) < g.s.nodes.len(),
        awake.no_duplicates(),
        landed_for_good(
            bundle_round::slots_taken(g, fleet, topo, params, used, round, awake, s).s.nodes,
            c,
            t,
        ),
    ensures
        landed_for_good(
            bundle_round::slots_taken(g, fleet, topo, params, used, round, awake, k).s.nodes,
            c,
            t,
        ),
    decreases k - s,
{
    if s < k {
        lemma_slots_keep(g, fleet, topo, params, used, round, awake, s, (k - 1) as nat, c, t);
        lemma_slots(g, fleet, topo, params, used, round, awake, (k - 1) as nat);
        assert(awake[k - 1] < g.s.nodes.len());
        lemma_slot_keeps(
            bundle_round::slots_taken(
                g,
                fleet,
                topo,
                params,
                used,
                round,
                awake,
                (k - 1) as nat,
            ),
            fleet,
            topo,
            params,
            used,
            round,
            awake[k - 1] as int,
            c,
            t,
        );
    }
}

proof fn lemma_one_handed_keeps(
    s: RoundState,
    from: int,
    to: u32,
    id: (u32, u64),
    params: DvDtnParams,
    round: u64,
    c: BundleModel,
    t: u32,
)
    requires
        0 <= from < s.nodes.len(),
        landed_for_good(s.nodes, c, t),
    ensures
        landed_for_good(
            bundle_round::bundle_handed(s, from, to, id, params, round).0.nodes,
            c,
            t,
        ),
        bundle_round::bundle_handed(s, from, to, id, params, round).0.nodes.len()
            == s.nodes.len(),
{
    let b = bundle_round::bundle_handed(s, from, to, id, params, round).0.nodes;
    let q = s.nodes[from].queue;
    bundle_paths::lemma_place_is_it(q, 0, id.0, id.1);
    if bundle_round::has_room(s, to, params) && bundle::place_of(q, 0, id.0, id.1) is Some {
        let p = bundle::place_of(q, 0, id.0, id.1)->Some_0;
        assert(!(s.nodes[from].queue[p].origin_id == c.origin_id && s.nodes[from].queue[p].seq
            == c.seq));
        let less = q.remove(p);
        assert forall|x: int, y: int| 0 <= x < b.len() && 0 <= y < b[x].queue.len() implies !((
        #[trigger] b[x].queue[y]).origin_id == c.origin_id && b[x].queue[y].seq == c.seq) by {
            let was = if x == from {
                less
            } else {
                s.nodes[x].queue
            };
            if y < was.len() {
                assert(b[x].queue[y] == was[y]);
                if x == from {
                    let z = if y < p {
                        y
                    } else {
                        y + 1
                    };
                    assert(less[y] == s.nodes[from].queue[z]);
                } else {
                    assert(was[y] == s.nodes[x].queue[y]);
                }
            }
        }
    }
}

proof fn lemma_batch_handed_keeps(
    s: RoundState,
    mv: Handoff,
    params: DvDtnParams,
    round: u64,
    k: nat,
    c: BundleModel,
    t: u32,
)
    requires
        0 <= mv.from < s.nodes.len(),
        landed_for_good(s.nodes, c, t),
    ensures
        landed_for_good(bundle_round::bundles_handed(s, mv, params, round, k).0.nodes, c, t),
        bundle_round::bundles_handed(s, mv, params, round, k).0.nodes.len() == s.nodes.len(),
    decreases k,
{
    if k > 0 {
        lemma_batch_handed_keeps(s, mv, params, round, (k - 1) as nat, c, t);
        lemma_one_handed_keeps(
            bundle_round::bundles_handed(s, mv, params, round, (k - 1) as nat).0,
            mv.from,
            mv.to,
            mv.ids[k - 1],
            params,
            round,
            c,
            t,
        );
    }
}

proof fn lemma_all_handed_keeps(
    s: RoundState,
    fleet: Seq<Balloon>,
    moves: Seq<Handoff>,
    params: DvDtnParams,
    round: u64,
    k: nat,
    c: BundleModel,
    t: u32,
)
    requires
        k <= moves.len(),
        bundle_order::from_known(moves, s.nodes.len()),
        landed_for_good(s.nodes, c, t),
    ensures
        landed_for_good(
            bundle_round::all_handed(s, fleet, moves, params, round, k).nodes,
            c,
            t,
        ),
        bundle_round::all_handed(s, fleet, moves, params, round, k).nodes.len() == s.nodes.len(),
    decreases k,
{
    if k > 0 {
        lemma_all_handed_keeps(s, fleet, moves, params, round, (k - 1) as nat, c, t);
        assert(0 <= moves[k - 1].from < s.nodes.len());
        lemma_batch_handed_keeps(
            bundle_round::all_handed(s, fleet, moves, params, round, (k - 1) as nat),
            moves[k - 1],
            params,
            round,
            moves[k - 1].ids.len(),
            c,
            t,
        );
    }
}

/// Whether every balloon's id is its place.
pub open spec fn by_place(fleet: Seq<Balloon>) -> bool {
    forall|i: int| 0 <= i < fleet.len() ==> (#[trigger] fleet[i]).id == i
}

proof fn lemma_originations_keep(
    s: RoundState,
    fleet: Seq<Balloon>,
    params: DvDtnParams,
    round: u64,
    awake: Seq<usize>,
    k: nat,
    c: BundleModel,
    t: u32,
)
    requires
        k <= awake.len(),
        forall|j: int| 0 <= j < awake.len() ==> (#[trigger] awake[j]) < s.nodes.len(),
        fleet.len() == s.nodes.len(),
        by_place(fleet),
        landed_for_good(s.nodes, c, t),
        c.origin_id < s.nodes.len() ==> c.seq < s.nodes[c.origin_id as int].bundle_seq
            && s.nodes[c.origin_id as int].bundle_seq + awake.len() <= u64::MAX,
    ensures
        ({
            let b = bundle_round::originations(s, fleet, params, round, awake, k).nodes;
            &&& b.len() == s.nodes.len()
            &&& landed_for_good(b, c, t)
            &&& c.origin_id < s.nodes.len() ==> s.nodes[c.origin_id as int].bundle_seq
                <= b[c.origin_id as int].bundle_seq <= s.nodes[c.origin_id as int].bundle_seq + k
        }),
    decreases k,
{
    if k > 0 {
        lemma_originations_keep(s, fleet, params, round, awake, (k - 1) as nat, c, t);
        let a = bundle_round::originations(s, fleet, params, round, awake, (k - 1) as nat).nodes;
        let b = bundle_round::originations(s, fleet, params, round, awake, k).nodes;
        let i = awake[k - 1] as int;
        assert(awake[k - 1] < s.nodes.len());
        assert(fleet[i].id == i);
        assert forall|x: int, y: int| 0 <= x < b.len() && 0 <= y < b[x].queue.len() implies !((
        #[trigger] b[x].queue[y]).origin_id == c.origin_id && b[x].queue[y].seq == c.seq) by {
            if y < a[x].queue.len() {
                assert(b[x].queue[y] == a[x].queue[y]);
            }
        }
    }
}

/// What lands stays landed. Every bundle that a balloon awake leaves at a tower
/// this round, which are those whose turn it is, is held by nobody at the end of
/// it, and its origin's books have it, if they are still about it, as landed by
/// radio at the tower that was in range and by the way it went.
pub proof fn what_lands_is_gone_and_noted(
    s: RoundState,
    fleet: Seq<Balloon>,
    topo: Topology,
    params: DvDtnParams,
    awake: Seq<usize>,
    round: u64,
    i: int,
    m: int,
)
    requires
        bundle_paths::well_kept(s.nodes, params),
        fleet.len() == s.nodes.len(),
        by_place(fleet),
        forall|j: int| 0 <= j < awake.len() ==> (#[trigger] awake[j]) < s.nodes.len(),
        awake.no_duplicates(),
        bundle_round::round_fits(s, params, awake, round),
        0 <= i < s.nodes.len() <= usize::MAX,
        awake.contains(i as usize),
        at_last_hop(s.nodes[i].belief),
        topo.tower_of(i) is Some,
        0 <= m < landing(
            held_alive(s.nodes[i], params, round),
            s.nodes[i].belief,
            topo,
            params,
            i,
        ),
    ensures
        ({
            let live = alive(s.nodes[i].queue, round, params.bundle_max_age_rounds);
            let b = match params.queue_discipline {
                QueueDiscipline::Fifo => live[m],
                QueueDiscipline::Lifo => live[live.len() - 1 - m],
            };
            let after = bundle_round::bundle_round(s, fleet, topo, params, awake, round).nodes;
            &&& held_by_none(after, b.origin_id, b.seq)
            &&& noted_landed(after, b, topo.tower_of(i)->Some_0)
        }),
{
    let opened = bundle_round::round_opened(s, topo, params, round);
    lemma_opened(s, topo, params, round);
    bundle_order::lemma_opening(s, topo, params, round);
    let acked = bundle_round::acks_forwarded(opened, fleet, topo, params, awake, round);
    lemma_acked(opened, fleet, topo, params, awake, round);
    bundle_order::lemma_acks_forwarded(opened, fleet, topo, params, awake, round);
    bundle_order::lemma_all_tame_on(s.nodes, opened.nodes, acked.nodes, params);
    bundle_paths::lemma_tame_kept(s.nodes, acked.nodes, params);
    let used = bundle_round::slots_spent(opened, topo, awake);
    let g0 = Gather { s: acked, moves: Seq::empty() };
    let x = awake.index_of(i as usize);
    assert(awake[x] == i);
    let a = bundle_round::slots_taken(g0, fleet, topo, params, used, round, awake, x as nat);
    lemma_slots(g0, fleet, topo, params, used, round, awake, x as nat);
    bundle_order::lemma_slots_tame(g0, fleet, topo, params, used, round, awake, x as nat);
    bundle_paths::lemma_tame_kept(acked.nodes, a.s.nodes, params);
    assert forall|y: int| 0 <= y < x implies #[trigger] awake[y] != i by {
        assert(awake[y] != awake[x]);
    }
    assert(a.s.nodes[i].queue == acked.nodes[i].queue);
    assert(acked.nodes[i].queue == opened.nodes[i].queue);
    let live = alive(s.nodes[i].queue, round, params.bundle_max_age_rounds);
    assert(a.s.nodes[i].queue == live);
    assert(a.s.nodes[i].belief == s.nodes[i].belief) by {
        assert(acked.nodes[i].belief == opened.nodes[i].belief);
    }
    let t = topo.tower_of(i)->Some_0;
    let p = bundle::nth_place(live.len() as int, params.queue_discipline, m);
    let b = live[p];
    assert(a.s.nodes[i].queue[p] == b);
    lemma_slot_lands(a, fleet, topo, params, used, round, i, m);
    lemma_slots_keep(
        g0,
        fleet,
        topo,
        params,
        used,
        round,
        awake,
        (x + 1) as nat,
        awake.len(),
        b,
        t,
    );
    let g = bundle_round::slots_taken(g0, fleet, topo, params, used, round, awake, awake.len());
    lemma_slots(g0, fleet, topo, params, used, round, awake, awake.len());
    bundle_order::lemma_slots_tame(g0, fleet, topo, params, used, round, awake, awake.len());
    lemma_all_handed_keeps(g.s, fleet, g.moves, params, round, g.moves.len(), b, t);
    let moved = bundle_round::all_handed(g.s, fleet, g.moves, params, round, g.moves.len());
    bundle_order::lemma_handed_numbers(g.s, fleet, g.moves, params, round, g.moves.len());
    let o = b.origin_id as int;
    assert(b.origin_id < s.nodes.len() && b.seq < a.s.nodes[o].bundle_seq);
    assert(a.s.nodes[o].bundle_seq == acked.nodes[o].bundle_seq);
    assert(acked.nodes[o].bundle_seq == opened.nodes[o].bundle_seq);
    assert(opened.nodes[o].bundle_seq == s.nodes[o].bundle_seq);
    assert(g.s.nodes[o].bundle_seq == acked.nodes[o].bundle_seq);
    assert(moved.nodes[o].bundle_seq == g.s.nodes[o].bundle_seq);
    assert(s.nodes[o].bundle_seq + awake.len() <= u64::MAX);
    lemma_originations_keep(moved, fleet, params, round, awake, awake.len(), b, t);
}

// ---------------------------------------------------------------------------
// What moves on
// ---------------------------------------------------------------------------

/// What is in a transmission stays in it, and the bundle whose turn it is first
/// stays with its sender for now.
proof fn lemma_first_stays(
    s: RoundState,
    i: int,
    next: u32,
    params: DvDtnParams,
    ids: Seq<(u32, u64)>,
)
    requires
        0 <= i < s.nodes.len(),
        1 <= ids.len() <= s.nodes[i].queue.len(),
    ensures
        ({
            let r = bundle_round::batch_filled(s, i, next, params, ids);
            let q = s.nodes[i].queue;
            &&& ids.is_prefix_of(r.1)
            &&& r.0.nodes[i].queue.contains(
                q[bundle::nth_place(q.len() as int, params.queue_discipline, 0)],
            )
        }),
    decreases params.batch.mesh_hop - ids.len(),
{
    let r = bundle_round::batch_filled(s, i, next, params, ids);
    let q = s.nodes[i].queue;
    let d = params.queue_discipline;
    let k = ids.len();
    let place = bundle::nth_place(q.len() as int, d, k as int);
    let first = bundle::nth_place(q.len() as int, d, 0);
    if k >= params.batch.mesh_hop || k >= q.len() {
        assert(q.contains(q[first]));
    } else if q[place].path.contains(next) || q[place].path.len() >= params.bundle_max_hops {
        let left = q.remove(place);
        assert(r.0.nodes[i].queue == left);
        let z = if first < place {
            first
        } else {
            first - 1
        };
        assert(left[z] == q[first]);
    } else {
        let more = ids.push((q[place].origin_id, q[place].seq));
        lemma_first_stays(s, i, next, params, more);
        assert(ids =~= r.1.subrange(0, ids.len() as int)) by {
            assert forall|x: int| 0 <= x < ids.len() implies ids[x] == r.1[x] by {
                assert(more[x] == r.1[x]);
            }
        }
    }
}

/// Every transmission gathered comes from somebody awake.
proof fn lemma_moves_from(
    g: Gather,
    fleet: Seq<Balloon>,
    topo: Topology,
    params: DvDtnParams,
    used: Seq<bool>,
    round: u64,
    awake: Seq<usize>,
    s: nat,
    k: nat,
    i: int,
)
    requires
        s <= k <= awake.len(),
        forall|y: int| s <= y < k ==> #[trigger] awake[y] != i,
    ensures
        ({
            let a = bundle_round::slots_taken(g, fleet, topo, params, used, round, awake, s);
            let b = bundle_round::slots_taken(g, fleet, topo, params, used, round, awake, k);
            &&& a.moves.is_prefix_of(b.moves)
            &&& forall|m: int|
                a.moves.len() <= m < b.moves.len() ==> (#[trigger] b.moves[m]).from != i
        }),
    decreases k - s,
{
    if s < k {
        lemma_moves_from(g, fleet, topo, params, used, round, awake, s, (k - 1) as nat, i);
        let a = bundle_round::slots_taken(g, fleet, topo, params, used, round, awake, s);
        let c = bundle_round::slots_taken(
            g,
            fleet,
            topo,
            params,
            used,
            round,
            awake,
            (k - 1) as nat,
        );
        let b = bundle_round::slots_taken(g, fleet, topo, params, used, round, awake, k);
        assert(awake[k - 1] != i);
        assert(c.moves.is_prefix_of(b.moves));
        assert(b.moves.len() <= c.moves.len() + 1);
        assert(a.moves =~= b.moves.subrange(0, a.moves.len() as int));
        assert forall|m: int| a.moves.len() <= m < b.moves.len() implies (
        #[trigger] b.moves[m]).from != i by {
            if m < c.moves.len() {
                assert(b.moves[m] == c.moves[m]);
            }
        }
    }
}

/// Handing something else on leaves a bundle where it is.
proof fn lemma_other_handed(
    s: RoundState,
    from: int,
    to: u32,
    id: (u32, u64),
    params: DvDtnParams,
    round: u64,
    at: int,
    e: BundleModel,
)
    requires
        0 <= from < s.nodes.len(),
        0 <= at < s.nodes.len(),
        s.nodes[at].queue.contains(e),
        (e.origin_id, e.seq) != id,
    ensures
        bundle_round::bundle_handed(s, from, to, id, params, round).0.nodes.len()
            == s.nodes.len(),
        bundle_round::bundle_handed(s, from, to, id, params, round).0.nodes[at].queue.contains(e),
{
    let b = bundle_round::bundle_handed(s, from, to, id, params, round).0.nodes;
    let q = s.nodes[from].queue;
    bundle_paths::lemma_place_is_it(q, 0, id.0, id.1);
    if bundle_round::has_room(s, to, params) && bundle::place_of(q, 0, id.0, id.1) is Some {
        let p = bundle::place_of(q, 0, id.0, id.1)->Some_0;
        let z = s.nodes[at].queue.index_of(e);
        let left = if at == from {
            q.remove(p)
        } else {
            s.nodes[at].queue
        };
        let w = if at == from && z > p {
            z - 1
        } else {
            z
        };
        assert(left[w] == e);
        assert(b[at].queue[w] == e);
    }
}

proof fn lemma_others_handed(
    s: RoundState,
    mv: Handoff,
    params: DvDtnParams,
    round: u64,
    k: nat,
    at: int,
    e: BundleModel,
)
    requires
        k <= mv.ids.len(),
        0 <= mv.from < s.nodes.len(),
        0 <= at < s.nodes.len(),
        s.nodes[at].queue.contains(e),
        forall|x: int| 0 <= x < k ==> #[trigger] mv.ids[x] != (e.origin_id, e.seq),
    ensures
        bundle_round::bundles_handed(s, mv, params, round, k).0.nodes.len() == s.nodes.len(),
        bundle_round::bundles_handed(s, mv, params, round, k).0.nodes[at].queue.contains(e),
    decreases k,
{
    if k > 0 {
        lemma_others_handed(s, mv, params, round, (k - 1) as nat, at, e);
        assert(mv.ids[k - 1] != (e.origin_id, e.seq));
        lemma_other_handed(
            bundle_round::bundles_handed(s, mv, params, round, (k - 1) as nat).0,
            mv.from,
            mv.to,
            mv.ids[k - 1],
            params,
            round,
            at,
            e,
        );
    }
}

proof fn lemma_all_others_handed(
    s: RoundState,
    fleet: Seq<Balloon>,
    moves: Seq<Handoff>,
    params: DvDtnParams,
    round: u64,
    lo: nat,
    k: nat,
    at: int,
    e: BundleModel,
)
    requires
        lo <= k <= moves.len(),
        bundle_order::from_known(moves, s.nodes.len()),
        0 <= at < s.nodes.len(),
        bundle_round::all_handed(s, fleet, moves, params, round, lo).nodes.len()
            == s.nodes.len(),
        bundle_round::all_handed(s, fleet, moves, params, round, lo).nodes[at].queue.contains(e),
        forall|m: int, x: int|
            lo <= m < k && 0 <= x < moves[m].ids.len() ==> #[trigger] moves[m].ids[x] != (
                e.origin_id,
                e.seq,
            ),
    ensures
        bundle_round::all_handed(s, fleet, moves, params, round, k).nodes.len() == s.nodes.len(),
        bundle_round::all_handed(s, fleet, moves, params, round, k).nodes[at].queue.contains(e),
    decreases k - lo,
{
    if lo < k {
        lemma_all_others_handed(
            s,
            fleet,
            moves,
            params,
            round,
            lo,
            (k - 1) as nat,
            at,
            e,
        );
        assert(0 <= moves[k - 1].from < s.nodes.len());
        lemma_others_handed(
            bundle_round::all_handed(s, fleet, moves, params, round, (k - 1) as nat),
            moves[k - 1],
            params,
            round,
            moves[k - 1].ids.len(),
            at,
            e,
        );
    }
}

/// Handing on makes no bundles.
proof fn lemma_handed_total(
    s: RoundState,
    from: int,
    to: u32,
    id: (u32, u64),
    params: DvDtnParams,
    round: u64,
)
    requires
        0 <= from < s.nodes.len(),
    ensures
        ({
            let b = bundle_round::bundle_handed(s, from, to, id, params, round).0.nodes;
            b.len() == s.nodes.len() && bundle_round::queued(b, b.len()) == bundle_round::queued(
                s.nodes,
                s.nodes.len(),
            )
        }),
{
    let q = s.nodes[from].queue;
    bundle_paths::lemma_place_is_it(q, 0, id.0, id.1);
    if bundle_round::has_room(s, to, params) && bundle::place_of(q, 0, id.0, id.1) is Some {
        let p = bundle::place_of(q, 0, id.0, id.1)->Some_0;
        let less = NodeModel { queue: q.remove(p), ..s.nodes[from] };
        let taken = s.nodes.update(from, less);
        let more = NodeModel {
            queue: taken[to as int].queue.push(BundleModel { path: q[p].path.push(to), ..q[p] }),
            ..taken[to as int]
        };
        bundle_laws::lemma_update_counts(s.nodes, from, less, s.nodes.len());
        bundle_laws::lemma_update_counts(taken, to as int, more, taken.len());
    }
}

proof fn lemma_batch_total(s: RoundState, mv: Handoff, params: DvDtnParams, round: u64, k: nat)
    requires
        0 <= mv.from < s.nodes.len(),
    ensures
        ({
            let b = bundle_round::bundles_handed(s, mv, params, round, k).0.nodes;
            b.len() == s.nodes.len() && bundle_round::queued(b, b.len()) == bundle_round::queued(
                s.nodes,
                s.nodes.len(),
            )
        }),
    decreases k,
{
    if k > 0 {
        lemma_batch_total(s, mv, params, round, (k - 1) as nat);
        lemma_handed_total(
            bundle_round::bundles_handed(s, mv, params, round, (k - 1) as nat).0,
            mv.from,
            mv.to,
            mv.ids[k - 1],
            params,
            round,
        );
    }
}

proof fn lemma_all_total(
    s: RoundState,
    fleet: Seq<Balloon>,
    moves: Seq<Handoff>,
    params: DvDtnParams,
    round: u64,
    k: nat,
)
    requires
        k <= moves.len(),
        bundle_order::from_known(moves, s.nodes.len()),
    ensures
        ({
            let b = bundle_round::all_handed(s, fleet, moves, params, round, k).nodes;
            b.len() == s.nodes.len() && bundle_round::queued(b, b.len()) == bundle_round::queued(
                s.nodes,
                s.nodes.len(),
            )
        }),
    decreases k,
{
    if k > 0 {
        lemma_all_total(s, fleet, moves, params, round, (k - 1) as nat);
        assert(0 <= moves[k - 1].from < s.nodes.len());
        lemma_batch_total(
            bundle_round::all_handed(s, fleet, moves, params, round, (k - 1) as nat),
            moves[k - 1],
            params,
            round,
            moves[k - 1].ids.len(),
        );
    }
}

proof fn lemma_fewer_queued(a: Seq<NodeModel>, b: Seq<NodeModel>, params: DvDtnParams, k: nat)
    requires
        bundle_order::all_tame(a, b, params),
        k <= a.len(),
    ensures
        bundle_round::queued(b, k) <= bundle_round::queued(a, k),
    decreases k,
{
    if k > 0 {
        lemma_fewer_queued(a, b, params, (k - 1) as nat);
        assert(bundle_order::tame(a[k - 1], b[k - 1], params));
    }
}

/// What one holds is within what all hold, less what another holds.
proof fn lemma_share_of_queued(nodes: Seq<NodeModel>, i: int, j: int, k: nat)
    requires
        0 <= i < k <= nodes.len(),
        0 <= j < k,
        i != j,
    ensures
        nodes[i].queue.len() + nodes[j].queue.len() <= bundle_round::queued(nodes, k),
    decreases k,
{
    if i < k - 1 && j < k - 1 {
        lemma_share_of_queued(nodes, i, j, (k - 1) as nat);
    } else if i < k - 1 {
        lemma_one_of_queued(nodes, i, (k - 1) as nat);
    } else {
        lemma_one_of_queued(nodes, j, (k - 1) as nat);
    }
}

proof fn lemma_one_of_queued(nodes: Seq<NodeModel>, i: int, k: nat)
    requires
        0 <= i < k <= nodes.len(),
    ensures
        nodes[i].queue.len() <= bundle_round::queued(nodes, k),
    decreases k,
{
    if i < k - 1 {
        lemma_one_of_queued(nodes, i, (k - 1) as nat);
    }
}

/// A transmission with a bundle at its head hands that over, where there is room.
proof fn lemma_head_handed(
    s: RoundState,
    mv: Handoff,
    params: DvDtnParams,
    round: u64,
    k: nat,
    c: BundleModel,
)
    requires
        1 <= k <= mv.ids.len(),
        0 <= mv.from < s.nodes.len(),
        mv.to < s.nodes.len(),
        mv.to != mv.from,
        bundle_paths::all_distinct(s.nodes),
        s.nodes[mv.from].queue.contains(c),
        s.nodes[mv.to as int].queue.len() < params.relay_queue_capacity,
        mv.ids[0] == (c.origin_id, c.seq),
        forall|x: int| 1 <= x < mv.ids.len() ==> #[trigger] mv.ids[x] != mv.ids[0],
    ensures
        bundle_round::bundles_handed(s, mv, params, round, k).0.nodes.len() == s.nodes.len(),
        bundle_round::bundles_handed(s, mv, params, round, k).0.nodes[mv.to as int].queue.contains(
            BundleModel { path: c.path.push(mv.to), ..c },
        ),
    decreases k,
{
    let moved = BundleModel { path: c.path.push(mv.to), ..c };
    if k == 1 {
        let q = s.nodes[mv.from].queue;
        let z = q.index_of(c);
        bundle_paths::lemma_place_is_it(q, 0, c.origin_id, c.seq);
        lemma_found(q, 0, z);
        let p = bundle::place_of(q, 0, c.origin_id, c.seq)->Some_0;
        bundle_paths::an_identity_is_one_bundle(s.nodes, mv.from, p, mv.from, z);
        let before = bundle_round::bundles_handed(s, mv, params, round, 0).0;
        assert(before == s);
        let b = bundle_round::bundles_handed(s, mv, params, round, 1).0;
        let t = mv.to as int;
        assert(b == bundle_round::bundle_handed(
            s,
            mv.from,
            mv.to,
            mv.ids[0],
            params,
            round,
        ).0) by {
            reveal_with_fuel(bundle_round::bundles_handed, 2);
        }
        assert(b.nodes[t].queue == s.nodes[t].queue.push(moved));
        assert(b.nodes[t].queue[s.nodes[t].queue.len() as int] == moved);
    } else {
        lemma_head_handed(s, mv, params, round, (k - 1) as nat, c);
        assert(mv.ids[k - 1] != mv.ids[0]);
        lemma_other_handed(
            bundle_round::bundles_handed(s, mv, params, round, (k - 1) as nat).0,
            mv.from,
            mv.to,
            mv.ids[k - 1],
            params,
            round,
            mv.to as int,
            moved,
        );
    }
}

proof fn lemma_found(q: Seq<BundleModel>, k: int, z: int)
    requires
        0 <= k <= z < q.len(),
    ensures
        bundle::place_of(q, k, q[z].origin_id, q[z].seq) is Some,
    decreases z - k,
{
    if k < z {
        lemma_found(q, k + 1, z);
    }
}

proof fn lemma_originations_push(
    s: RoundState,
    fleet: Seq<Balloon>,
    params: DvDtnParams,
    round: u64,
    awake: Seq<usize>,
    k: nat,
    at: int,
    e: BundleModel,
)
    requires
        k <= awake.len(),
        forall|j: int| 0 <= j < awake.len() ==> (#[trigger] awake[j]) < s.nodes.len(),
        0 <= at < s.nodes.len(),
        s.nodes[at].queue.contains(e),
    ensures
        bundle_round::originations(s, fleet, params, round, awake, k).nodes.len()
            == s.nodes.len(),
        bundle_round::originations(s, fleet, params, round, awake, k).nodes[at].queue.contains(e),
    decreases k,
{
    if k > 0 {
        lemma_originations_push(s, fleet, params, round, awake, (k - 1) as nat, at, e);
        let a = bundle_round::originations(s, fleet, params, round, awake, (k - 1) as nat).nodes;
        let b = bundle_round::originations(s, fleet, params, round, awake, k).nodes;
        assert(awake[k - 1] < s.nodes.len());
        let z = a[at].queue.index_of(e);
        assert(b[at].queue[z] == e);
    }
}

/// Whether a bundle is still with its sender, at the head of one transmission and
/// in no other.
spec fn about_to_go(g: Gather, m: int, i: int, next: u32, c: BundleModel) -> bool {
    &&& 0 <= m < g.moves.len()
    &&& 0 <= i < g.s.nodes.len()
    &&& g.moves[m].from == i
    &&& g.moves[m].to == next
    &&& g.s.nodes[i].queue.contains(c)
    &&& g.moves[m].ids.len() > 0
    &&& g.moves[m].ids[0] == (c.origin_id, c.seq)
    &&& forall|z: int|
        1 <= z < g.moves[m].ids.len() ==> #[trigger] g.moves[m].ids[z] != g.moves[m].ids[0]
    &&& forall|l: int, z: int|
        0 <= l < g.moves.len() && l != m && 0 <= z < g.moves[l].ids.len()
            ==> #[trigger] g.moves[l].ids[z] != (c.origin_id, c.seq)
}

/// What a slot gathers, if the bundle whose turn it is may go.
proof fn lemma_slot_gathers(
    a: Gather,
    fleet: Seq<Balloon>,
    topo: Topology,
    params: DvDtnParams,
    used: Seq<bool>,
    round: u64,
    i: int,
    next: u32,
    first: int,
)
    requires
        0 <= i < a.s.nodes.len(),
        bundle_paths::all_distinct(a.s.nodes),
        !used[i],
        a.s.nodes[i].belief matches Some(b) && b.next_hop == Some(next),
        topo.neighbors_of(i).contains(next),
        params.batch.mesh_hop >= 1,
        a.s.nodes[i].queue.len() > 0,
        first == bundle::nth_place(
            a.s.nodes[i].queue.len() as int,
            params.queue_discipline,
            0,
        ),
        !a.s.nodes[i].queue[first].path.contains(next),
        a.s.nodes[i].queue[first].path.len() < params.bundle_max_hops,
    ensures
        ({
            let c = a.s.nodes[i].queue[first];
            let r = bundle_round::slot_taken(a, fleet, topo, params, used, round, i);
            let mv = r.moves.last();
            &&& r.moves == a.moves.push(mv)
            &&& mv.from == i
            &&& mv.to == next
            &&& mv.ids.len() > 0
            &&& mv.ids[0] == (c.origin_id, c.seq)
            &&& r.s.nodes[i].queue.contains(c)
            &&& forall|z: int| 1 <= z < mv.ids.len() ==> #[trigger] mv.ids[z] != mv.ids[0]
        }),
{
    let r = bundle_round::slot_taken(a, fleet, topo, params, used, round, i);
    let q = a.s.nodes[i].queue;
    let c = q[first];
    let id = (c.origin_id, c.seq);
    let belief = a.s.nodes[i].belief->Some_0;
    let sampled = RoundState {
        tally: Tally {
            belief_hops: super::bundle_stats::bumped(
                a.s.tally.belief_hops,
                belief.hop_count as int,
            ),
            ..a.s.tally
        },
        ..a.s
    };
    let slot = RoundState {
        tally: Tally {
            slots_with_bundle: sampled.tally.slots_with_bundle + 1,
            ..sampled.tally
        },
        ..sampled
    };
    let none = Seq::<(u32, u64)>::empty();
    let filled = bundle_round::batch_filled(slot, i, next, params, none);
    let head = none.push(id);
    assert(filled == bundle_round::batch_filled(slot, i, next, params, head));
    lemma_first_stays(slot, i, next, params, head);
    assert(filled.1[0] == head[0]);
    assert(filled.1.len() > 0);
    bundle_paths::lemma_batch(slot, i, next, params, none);
    bundle_paths::lemma_batch_bound(slot, i, next, params, filled.0.nodes, filled.1);
    assert(r.moves == a.moves.push(r.moves.last()));
    assert(r.moves.last().ids == filled.1);
    assert(r.s.nodes == filled.0.nodes);
}

/// Once all slots are taken, the bundle whose turn it was is about to go.
proof fn lemma_gathered(
    g0: Gather,
    fleet: Seq<Balloon>,
    topo: Topology,
    params: DvDtnParams,
    used: Seq<bool>,
    round: u64,
    awake: Seq<usize>,
    x: int,
    i: int,
    next: u32,
    first: int,
) -> (m: int)
    requires
        g0.moves.len() == 0,
        bundle_paths::all_distinct(g0.s.nodes),
        forall|j: int| 0 <= j < awake.len() ==> (#[trigger] awake[j]) < g0.s.nodes.len(),
        awake.no_duplicates(),
        0 <= x < awake.len(),
        awake[x] == i,
        0 <= i < g0.s.nodes.len(),
        !used[i],
        g0.s.nodes[i].belief matches Some(b) && b.next_hop == Some(next),
        topo.neighbors_of(i).contains(next),
        params.batch.mesh_hop >= 1,
        g0.s.nodes[i].queue.len() > 0,
        first == bundle::nth_place(
            g0.s.nodes[i].queue.len() as int,
            params.queue_discipline,
            0,
        ),
        !g0.s.nodes[i].queue[first].path.contains(next),
        g0.s.nodes[i].queue[first].path.len() < params.bundle_max_hops,
    ensures
        about_to_go(
            bundle_round::slots_taken(g0, fleet, topo, params, used, round, awake, awake.len()),
            m,
            i,
            next,
            g0.s.nodes[i].queue[first],
        ),
{
    let c = g0.s.nodes[i].queue[first];
    let id = (c.origin_id, c.seq);
    let a = bundle_round::slots_taken(g0, fleet, topo, params, used, round, awake, x as nat);
    let y1 = (x + 1) as nat;
    let r = bundle_round::slots_taken(g0, fleet, topo, params, used, round, awake, y1);
    let g = bundle_round::slots_taken(g0, fleet, topo, params, used, round, awake, awake.len());
    assert forall|y: int| 0 <= y < x implies #[trigger] awake[y] != i by {
        assert(awake[y] != awake[x]);
    }
    assert forall|y: int| y1 <= y < awake.len() implies #[trigger] awake[y] != i by {
        assert(awake[y] != awake[x]);
    }
    lemma_slots(g0, fleet, topo, params, used, round, awake, x as nat);
    bundle_paths::lemma_slots(g0, fleet, topo, params, used, round, awake, x as nat);
    assert(a.s.nodes[i].queue == g0.s.nodes[i].queue);
    assert(a.s.nodes[i].belief == g0.s.nodes[i].belief);
    lemma_slot_gathers(a, fleet, topo, params, used, round, i, next, first);
    assert(r == bundle_round::slot_taken(a, fleet, topo, params, used, round, i));
    let m = a.moves.len() as int;
    lemma_moves_from(g0, fleet, topo, params, used, round, awake, 0, x as nat, i);
    lemma_moves_from(g0, fleet, topo, params, used, round, awake, y1, awake.len(), i);
    lemma_queue_stays(g0, fleet, topo, params, used, round, awake, y1, awake.len(), i);
    assert(g.moves[m] == r.moves[m]);
    assert(g.moves[m] == r.moves.last());
    bundle_paths::lemma_slots(g0, fleet, topo, params, used, round, awake, awake.len());
    assert forall|l: int, z: int|
        0 <= l < g.moves.len() && l != m && 0 <= z < g.moves[l].ids.len() implies #[trigger] g.moves[l].ids[z]
        != id by {
        assert(g.moves[m].ids[0] == id);
        assert(g.moves[l].from != i) by {
            if l < m {
                assert(g.moves[l] == r.moves[l]);
                assert(r.moves[l] == a.moves[l]);
                assert(a.moves[l].from != i);
            }
        }
        if g.moves[l].ids[z] == id {
            assert(g.moves[l].ids[z] == g.moves[m].ids[0]);
        }
    }
    m
}

/// A bundle about to go is with the next balloon once all is handed on, where
/// there is room for it.
proof fn lemma_goes(
    g: Gather,
    fleet: Seq<Balloon>,
    params: DvDtnParams,
    round: u64,
    m: int,
    i: int,
    next: u32,
    c: BundleModel,
)
    requires
        about_to_go(g, m, i, next, c),
        next < g.s.nodes.len(),
        !c.path.contains(next),
        bundle_paths::well_kept(g.s.nodes, params),
        bundle_order::from_known(g.moves, g.s.nodes.len()),
        bundle_paths::one_sender(g.moves),
        bundle_paths::all_bound(g.s.nodes, g.moves, params),
        bundle_round::queued(g.s.nodes, g.s.nodes.len()) <= params.relay_queue_capacity,
    ensures
        ({
            let done = bundle_round::all_handed(
                g.s,
                fleet,
                g.moves,
                params,
                round,
                g.moves.len(),
            );
            &&& done.nodes.len() == g.s.nodes.len()
            &&& done.nodes[next as int].queue.contains(
                BundleModel { path: c.path.push(next), ..c },
            )
        }),
{
    let h = bundle_round::all_handed(g.s, fleet, g.moves, params, round, m as nat);
    assert(bundle_paths::still_bound(g.s.nodes, g.moves, 0, 0, params)) by {
        assert forall|l: int, z: int|
            0 <= l < g.moves.len() && 0 <= z < g.moves[l].ids.len() && (l > 0 || l == 0 && z >= 0)
            implies bundle_paths::may_leave(
            g.s.nodes,
            g.moves[l].from,
            g.moves[l].to,
            #[trigger] g.moves[l].ids[z],
            params,
        ) by {
            assert(bundle_paths::bound_for(
                g.s.nodes,
                g.moves[l].from,
                g.moves[l].to,
                g.moves[l].ids[z],
                params,
            ));
            assert(0 <= g.moves[l].from < g.s.nodes.len());
        }
    }
    bundle_paths::lemma_all_handed(g.s, fleet, g.moves, params, round, m as nat);
    lemma_all_others_handed(g.s, fleet, g.moves, params, round, 0, m as nat, i, c);
    assert(h.nodes[i].queue.contains(c));
    let w = h.nodes[i].queue.index_of(c);
    assert(next != i) by {
        assert(h.nodes[i].queue[w].path.last() == i);
        assert(c.path.contains(c.path.last()));
    }
    lemma_all_total(g.s, fleet, g.moves, params, round, m as nat);
    lemma_share_of_queued(h.nodes, i, next as int, h.nodes.len());
    assert(h.nodes[next as int].queue.len() < params.relay_queue_capacity);
    let mv = g.moves[m];
    lemma_head_handed(h, mv, params, round, mv.ids.len(), c);
    let moved = BundleModel { path: c.path.push(next), ..c };
    let after = bundle_round::all_handed(g.s, fleet, g.moves, params, round, (m + 1) as nat);
    assert(after.nodes == bundle_round::bundles_handed(
        h,
        mv,
        params,
        round,
        mv.ids.len(),
    ).0.nodes);
    assert(after.nodes[next as int].queue.contains(moved));
    assert forall|l: int, z: int|
        m + 1 <= l < g.moves.len() && 0 <= z < g.moves[l].ids.len() implies #[trigger] g.moves[l].ids[z]
        != (moved.origin_id, moved.seq) by {}
    lemma_all_others_handed(
        g.s,
        fleet,
        g.moves,
        params,
        round,
        (m + 1) as nat,
        g.moves.len(),
        next as int,
        moved,
    );
}

/// A bundle moves on. If a balloon awake, with its slot to itself, hears the
/// balloon that it believes to be its next hop, the bundle whose turn it is is
/// with that balloon at the end of the round, with its path one longer; unless it
/// has been there before or is out of hops, or there may be no room for it.
pub proof fn a_bundle_moves_on(
    s: RoundState,
    fleet: Seq<Balloon>,
    topo: Topology,
    params: DvDtnParams,
    awake: Seq<usize>,
    round: u64,
    i: int,
    next: u32,
)
    requires
        bundle_paths::well_kept(s.nodes, params),
        fleet.len() == s.nodes.len(),
        by_place(fleet),
        forall|j: int| 0 <= j < awake.len() ==> (#[trigger] awake[j]) < s.nodes.len(),
        awake.no_duplicates(),
        0 <= i < s.nodes.len() <= usize::MAX,
        awake.contains(i as usize),
        s.nodes[i].belief matches Some(b) && b.next_hop == Some(next),
        topo.neighbors_of(i).contains(next),
        next < s.nodes.len(),
        !slot_spent(s.nodes[i], topo, params, round, i),
        params.batch.mesh_hop >= 1,
        bundle_round::queued(s.nodes, s.nodes.len()) <= params.relay_queue_capacity,
        ({
            let live = alive(s.nodes[i].queue, round, params.bundle_max_age_rounds);
            let c = match params.queue_discipline {
                QueueDiscipline::Fifo => live[0],
                QueueDiscipline::Lifo => live[live.len() - 1],
            };
            live.len() > 0 && !c.path.contains(next) && c.path.len() < params.bundle_max_hops
        }),
    ensures
        ({
            let live = alive(s.nodes[i].queue, round, params.bundle_max_age_rounds);
            let c = match params.queue_discipline {
                QueueDiscipline::Fifo => live[0],
                QueueDiscipline::Lifo => live[live.len() - 1],
            };
            bundle_round::bundle_round(
                s,
                fleet,
                topo,
                params,
                awake,
                round,
            ).nodes[next as int].queue.contains(BundleModel { path: c.path.push(next), ..c })
        }),
{
    let opened = bundle_round::round_opened(s, topo, params, round);
    lemma_opened(s, topo, params, round);
    bundle_order::lemma_opening(s, topo, params, round);
    let acked = bundle_round::acks_forwarded(opened, fleet, topo, params, awake, round);
    lemma_acked(opened, fleet, topo, params, awake, round);
    bundle_order::lemma_acks_forwarded(opened, fleet, topo, params, awake, round);
    bundle_order::lemma_all_tame_on(s.nodes, opened.nodes, acked.nodes, params);
    bundle_paths::lemma_tame_kept(s.nodes, acked.nodes, params);
    let used = bundle_round::slots_spent(opened, topo, awake);
    let g0 = Gather { s: acked, moves: Seq::empty() };
    let x = awake.index_of(i as usize);
    let live = alive(s.nodes[i].queue, round, params.bundle_max_age_rounds);
    assert(acked.nodes[i].queue == live);
    assert(acked.nodes[i].belief == s.nodes[i].belief);
    assert(!used[i]);
    let first = bundle::nth_place(live.len() as int, params.queue_discipline, 0);
    let c = live[first];
    let m = lemma_gathered(
        g0,
        fleet,
        topo,
        params,
        used,
        round,
        awake,
        x,
        i,
        next,
        first,
    );
    let g = bundle_round::slots_taken(g0, fleet, topo, params, used, round, awake, awake.len());
    bundle_paths::lemma_slots(g0, fleet, topo, params, used, round, awake, awake.len());
    bundle_paths::lemma_tame_kept(acked.nodes, g.s.nodes, params);
    bundle_order::lemma_all_tame_on(s.nodes, acked.nodes, g.s.nodes, params);
    lemma_fewer_queued(s.nodes, g.s.nodes, params, s.nodes.len());
    lemma_goes(g, fleet, params, round, m, i, next, c);
    let done = bundle_round::all_handed(g.s, fleet, g.moves, params, round, g.moves.len());
    lemma_originations_push(
        done,
        fleet,
        params,
        round,
        awake,
        awake.len(),
        next as int,
        BundleModel { path: c.path.push(next), ..c },
    );
}

/// The slots of others leave a queue alone.
proof fn lemma_queue_stays(
    g: Gather,
    fleet: Seq<Balloon>,
    topo: Topology,
    params: DvDtnParams,
    used: Seq<bool>,
    round: u64,
    awake: Seq<usize>,
    s: nat,
    k: nat,
    i: int,
)
    requires
        s <= k <= awake.len(),
        forall|j: int| 0 <= j < awake.len() ==> (#[trigger] awake[j]) < g.s.nodes.len(),
        awake.no_duplicates(),
        0 <= i < g.s.nodes.len(),
        forall|y: int| s <= y < k ==> #[trigger] awake[y] != i,
    ensures
        bundle_round::slots_taken(
            g,
            fleet,
            topo,
            params,
            used,
            round,
            awake,
            k,
        ).s.nodes[i].queue == bundle_round::slots_taken(
            g,
            fleet,
            topo,
            params,
            used,
            round,
            awake,
            s,
        ).s.nodes[i].queue,
    decreases k - s,
{
    if s < k {
        lemma_queue_stays(g, fleet, topo, params, used, round, awake, s, (k - 1) as nat, i);
        lemma_slots(g, fleet, topo, params, used, round, awake, (k - 1) as nat);
        assert(awake[k - 1] < g.s.nodes.len());
        lemma_slot(
            bundle_round::slots_taken(
                g,
                fleet,
                topo,
                params,
                used,
                round,
                awake,
                (k - 1) as nat,
            ),
            fleet,
            topo,
            params,
            used,
            round,
            awake[k - 1] as int,
        );
        assert(awake[k - 1] != i);
    }
}

// ---------------------------------------------------------------------------
// What is new
// ---------------------------------------------------------------------------

/// A balloon originates a bundle exactly when its time has come, it has room, and
/// none of its own is still in hand: it then holds one new bundle in the last
/// place, measured now, with the next number and a path of itself alone; it waits
/// to hear of it, has the record in its log, and is due again an interval later.
pub proof fn a_bundle_is_originated_when_due(
    s: RoundState,
    fleet: Seq<Balloon>,
    params: DvDtnParams,
    round: u64,
    i: int,
)
    requires
        0 <= i < s.nodes.len(),
        s.nodes[i].bundle_seq < u64::MAX,
        round + params.bundle_interval_rounds <= u64::MAX,
    ensures
        ({
            let n = s.nodes[i];
            let id = fleet[i].id;
            let after = bundle_round::origination(s, fleet, params, round, i);
            let now = round >= n.next_bundle_round && n.queue.len() < params.relay_queue_capacity
                && forall|x: int|
                0 <= x < n.queue.len() ==> (#[trigger] n.queue[x]).origin_id != id;
            &&& !now ==> after == s
            &&& now ==> {
                let m = after.nodes[i];
                &&& m.queue == n.queue.push(
                    BundleModel {
                        origin_id: id,
                        seq: n.bundle_seq,
                        created_at_round: round,
                        record: telemetry::fresh_record(id, fleet[i].reading, n.bundle_seq, round),
                        path: seq![id],
                    },
                )
                &&& m.bundle_seq == n.bundle_seq + 1
                &&& m.next_bundle_round == round + params.bundle_interval_rounds
                &&& after.tally.originated == s.tally.originated + 1
                &&& m.outstanding matches Some(o) && o.seq == n.bundle_seq && o.created_at_round
                    == round && o.state == bundle::AckState::Pending
                &&& m.log.len() > 0 && m.log.last() == m.queue.last().record
                &&& n.log.len() < params.comms_log_capacity ==> m.log.drop_last() == n.log
                &&& n.log.len() >= params.comms_log_capacity && n.log.len() > 0
                    ==> m.log.drop_last() == n.log.skip(1)
                &&& m.last_resolved == n.last_resolved
                &&& m.ack_queue == n.ack_queue
            }
        }),
{
    let n = s.nodes[i];
    let m = bundle_round::origination(s, fleet, params, round, i).nodes[i];
    if m.log.len() > 0 {
        if n.log.len() > 0 {
            assert(n.log.skip(1) =~= n.log.subrange(1, n.log.len() as int));
            assert(n.log.skip(1).push(m.log.last()).drop_last() =~= n.log.skip(1));
        }
        assert(n.log.push(m.log.last()).drop_last() =~= n.log);
    }
    assert(bundle_round::holds_own(n.queue, fleet[i].id) <==> !(forall|x: int|
        0 <= x < n.queue.len() ==> (#[trigger] n.queue[x]).origin_id != fleet[i].id));
}

} // verus!
