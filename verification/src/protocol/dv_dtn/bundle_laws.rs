//! What the delivery logic keeps true over a round.
use vstd::prelude::*;

use crate::balloon::Balloon;
use crate::mesh_adjacency::Topology;

use super::bundle;
use super::bundle::{AckModel, BundleModel};
use super::bundle_round;
use super::bundle_round::{AckGather, AckMove, Gather, Handoff, RoundState};
use super::bundle_stats::Tally;
use super::params::{AckPolicy, DvDtnParams};
use super::NodeModel;

verus! {

// ---------------------------------------------------------------------------
// Counting what is held
// ---------------------------------------------------------------------------

pub(crate) proof fn lemma_update_counts(nodes: Seq<NodeModel>, i: int, n: NodeModel, k: nat)
    requires
        0 <= i < nodes.len(),
        k <= nodes.len(),
    ensures
        bundle_round::queued(nodes.update(i, n), k) == bundle_round::queued(nodes, k) + (if i < k {
            n.queue.len() - nodes[i].queue.len()
        } else {
            0
        }),
        bundle_round::acks_held(nodes.update(i, n), k) == bundle_round::acks_held(nodes, k) + (
        if i < k {
            n.ack_queue.len() - nodes[i].ack_queue.len()
        } else {
            0
        }),
    decreases k,
{
    if k > 0 {
        lemma_update_counts(nodes, i, n, (k - 1) as nat);
    }
}

/// Bundles held by a list of nodes.
pub open spec fn in_flight(nodes: Seq<NodeModel>) -> int {
    bundle_round::queued(nodes, nodes.len()) as int
}

/// Acks held by a list of nodes.
pub open spec fn acks_in_flight(nodes: Seq<NodeModel>) -> int {
    bundle_round::acks_held(nodes, nodes.len()) as int
}

/// What is missing from the bundles' books: of all bundles ever originated,
/// those that neither left circulation nor are held.
pub open spec fn bundles_missing(s: RoundState) -> int {
    s.tally.originated - s.tally.resolved() - in_flight(s.nodes)
}

/// What is missing from the receipts' books: of all deliveries, those whose
/// receipt neither arrived nor was lost nor is held.
pub open spec fn receipts_missing(s: RoundState) -> int {
    s.tally.delivered - s.tally.acked - s.tally.ack_lost - acks_in_flight(s.nodes)
}

/// Whether the books of two states agree.
spec fn balanced(a: RoundState, b: RoundState) -> bool {
    &&& bundles_missing(a) == bundles_missing(b)
    &&& receipts_missing(a) == receipts_missing(b)
    &&& a.nodes.len() == b.nodes.len()
}

/// The same, but for receipts under a policy that sends none.
spec fn balanced_under(a: RoundState, b: RoundState, params: DvDtnParams) -> bool {
    &&& bundles_missing(a) == bundles_missing(b)
    &&& params.ack_policy != AckPolicy::Digest ==> receipts_missing(a) == receipts_missing(b)
    &&& a.nodes.len() == b.nodes.len()
}

proof fn lemma_parted_bundles(q: Seq<BundleModel>, k: nat, round: u64, max_age: u64)
    requires
        k <= q.len(),
    ensures
        bundle_round::live_bundles(q, k, round, max_age).len() + bundle_round::late_bundles(
            q,
            k,
            round,
            max_age,
        ).len() == k,
    decreases k,
{
    if k > 0 {
        lemma_parted_bundles(q, (k - 1) as nat, round, max_age);
    }
}

proof fn lemma_parted_acks(q: Seq<AckModel>, k: nat, round: u64, max_age: u64)
    requires
        k <= q.len(),
    ensures
        bundle_round::live_acks(q, k, round, max_age).len() + bundle_round::late_acks(
            q,
            k,
            round,
            max_age,
        ).len() == k,
    decreases k,
{
    if k > 0 {
        lemma_parted_acks(q, (k - 1) as nat, round, max_age);
    }
}

proof fn lemma_trimming_counts(
    nodes: Seq<NodeModel>,
    kept: Seq<NodeModel>,
    k: nat,
    round: u64,
    max_age: u64,
)
    requires
        k <= nodes.len(),
        kept.len() == nodes.len(),
        forall|j: int|
            0 <= j < nodes.len() ==> #[trigger] kept[j] == bundle_round::bundles_trimmed(
                nodes[j],
                round,
                max_age,
            ),
    ensures
        bundle_round::queued(kept, k) + bundle_round::all_late_bundles(
            nodes,
            k,
            round,
            max_age,
        ).len() == bundle_round::queued(nodes, k),
        bundle_round::acks_held(kept, k) == bundle_round::acks_held(nodes, k),
    decreases k,
{
    if k > 0 {
        lemma_trimming_counts(nodes, kept, (k - 1) as nat, round, max_age);
        lemma_parted_bundles(nodes[k - 1].queue, nodes[k - 1].queue.len(), round, max_age);
        assert(kept[k - 1] == bundle_round::bundles_trimmed(nodes[k - 1], round, max_age));
    }
}

proof fn lemma_ack_trimming_counts(
    nodes: Seq<NodeModel>,
    kept: Seq<NodeModel>,
    k: nat,
    round: u64,
    max_age: u64,
)
    requires
        k <= nodes.len(),
        kept.len() == nodes.len(),
        forall|j: int|
            0 <= j < nodes.len() ==> #[trigger] kept[j] == bundle_round::acks_trimmed(
                nodes[j],
                round,
                max_age,
            ),
    ensures
        bundle_round::acks_held(kept, k) + bundle_round::all_late_acks(
            nodes,
            k,
            round,
            max_age,
        ).len() == bundle_round::acks_held(nodes, k),
        bundle_round::queued(kept, k) == bundle_round::queued(nodes, k),
    decreases k,
{
    if k > 0 {
        lemma_ack_trimming_counts(nodes, kept, (k - 1) as nat, round, max_age);
        lemma_parted_acks(nodes[k - 1].ack_queue, nodes[k - 1].ack_queue.len(), round, max_age);
        assert(kept[k - 1] == bundle_round::acks_trimmed(nodes[k - 1], round, max_age));
    }
}

proof fn lemma_same_lengths(a: Seq<NodeModel>, b: Seq<NodeModel>, k: nat)
    requires
        a.len() == b.len(),
        k <= a.len(),
        forall|j: int|
            0 <= j < a.len() ==> (#[trigger] b[j]).queue.len() == a[j].queue.len()
                && b[j].ack_queue.len() == a[j].ack_queue.len(),
    ensures
        bundle_round::queued(a, k) == bundle_round::queued(b, k),
        bundle_round::acks_held(a, k) == bundle_round::acks_held(b, k),
    decreases k,
{
    if k > 0 {
        lemma_same_lengths(a, b, (k - 1) as nat);
        assert(b[k - 1].queue.len() == a[k - 1].queue.len());
    }
}

/// Whether two lists of nodes hold the same bundles and acks.
spec fn same_holdings(a: Seq<NodeModel>, b: Seq<NodeModel>) -> bool {
    &&& a.len() == b.len()
    &&& forall|j: int|
        0 <= j < a.len() ==> (#[trigger] b[j]).queue == a[j].queue && b[j].ack_queue
            == a[j].ack_queue
}

proof fn lemma_noted_sent_up(nodes: Seq<NodeModel>, list: Seq<BundleModel>, k: nat)
    requires
        k <= list.len(),
    ensures
        same_holdings(nodes, bundle_round::all_noted_sent_up(nodes, list, k)),
    decreases k,
{
    if k > 0 {
        lemma_noted_sent_up(nodes, list, (k - 1) as nat);
    }
}

proof fn lemma_noted_lost(nodes: Seq<NodeModel>, list: Seq<AckModel>, k: nat)
    requires
        k <= list.len(),
    ensures
        same_holdings(nodes, bundle_round::all_noted_lost(nodes, list, k)),
    decreases k,
{
    if k > 0 {
        lemma_noted_lost(nodes, list, (k - 1) as nat);
    }
}

// ---------------------------------------------------------------------------
// The books balance
// ---------------------------------------------------------------------------

proof fn lemma_opening_balances(s: RoundState, topo: Topology, params: DvDtnParams, round: u64)
    ensures
        balanced(s, bundle_round::round_opened(s, topo, params, round)),
{
    let max_age = params.bundle_max_age_rounds;
    let n = s.nodes.len();
    let kept = Seq::new(n, |i: int| bundle_round::bundles_trimmed(s.nodes[i], round, max_age));
    let late = bundle_round::all_late_bundles(s.nodes, n, round, max_age);
    lemma_trimming_counts(s.nodes, kept, n, round, max_age);
    lemma_noted_sent_up(kept, late, late.len());
    let s1 = bundle_round::bundles_expired(s, round, max_age);
    lemma_same_lengths(kept, s1.nodes, n);
    assert(balanced(s, s1));
    let kept_acks = Seq::new(n, |i: int| bundle_round::acks_trimmed(s1.nodes[i], round, max_age));
    let late_acks = bundle_round::all_late_acks(s1.nodes, n, round, max_age);
    lemma_ack_trimming_counts(s1.nodes, kept_acks, n, round, max_age);
    lemma_noted_lost(kept_acks, late_acks, late_acks.len());
    let s2 = bundle_round::acks_expired(s1, round, max_age);
    lemma_same_lengths(kept_acks, s2.nodes, n);
    assert(balanced(s1, s2));
    let s3 = bundle_round::waits_ended(s2, round, max_age);
    assert forall|j: int| 0 <= j < n implies (#[trigger] s3.nodes[j]).queue.len()
        == s2.nodes[j].queue.len() && s3.nodes[j].ack_queue.len() == s2.nodes[j].ack_queue.len() by {
        assert(s3.nodes[j] == bundle_round::timed_out(s2.nodes[j], round, max_age));
    }
    lemma_same_lengths(s2.nodes, s3.nodes, n);
}

/// Acks gathered or still held.
spec fn acks_around(g: AckGather) -> int {
    acks_in_flight(g.nodes) + g.moves.len() + g.resolved.len()
}

proof fn lemma_taking_acks_counts(g: AckGather, topo: Topology, awake: Seq<usize>, k: nat)
    requires
        k <= awake.len(),
        forall|j: int| 0 <= j < awake.len() ==> (#[trigger] awake[j]) < g.nodes.len(),
    ensures
        bundle_round::acks_taken(g, topo, awake, k).nodes.len() == g.nodes.len(),
        acks_around(bundle_round::acks_taken(g, topo, awake, k)) == acks_around(g),
        in_flight(bundle_round::acks_taken(g, topo, awake, k).nodes) == in_flight(g.nodes),
    decreases k,
{
    if k > 0 {
        lemma_taking_acks_counts(g, topo, awake, (k - 1) as nat);
        let before = bundle_round::acks_taken(g, topo, awake, (k - 1) as nat);
        let i = awake[k - 1] as int;
        let q = before.nodes[i].ack_queue;
        if q.len() > 0 {
            lemma_update_counts(
                before.nodes,
                i,
                NodeModel { ack_queue: q.subrange(1, q.len() as int), ..before.nodes[i] },
                before.nodes.len(),
            );
        }
    }
}

proof fn lemma_handing_acks_balances(
    s: RoundState,
    fleet: Seq<Balloon>,
    params: DvDtnParams,
    moves: Seq<AckMove>,
    k: nat,
)
    requires
        k <= moves.len(),
    ensures
        bundles_missing(bundle_round::acks_handed(s, fleet, params, moves, k)) == bundles_missing(
            s,
        ),
        receipts_missing(bundle_round::acks_handed(s, fleet, params, moves, k))
            == receipts_missing(s) - k,
        bundle_round::acks_handed(s, fleet, params, moves, k).nodes.len() == s.nodes.len(),
    decreases k,
{
    if k > 0 {
        lemma_handing_acks_balances(s, fleet, params, moves, (k - 1) as nat);
        let before = bundle_round::acks_handed(s, fleet, params, moves, (k - 1) as nat);
        let mv = moves[k - 1];
        if mv.to < before.nodes.len() {
            let to = mv.to as int;
            lemma_update_counts(
                before.nodes,
                to,
                NodeModel {
                    ack_queue: before.nodes[to].ack_queue.push(mv.ack),
                    ..before.nodes[to]
                },
                before.nodes.len(),
            );
        }
        let o = mv.ack.origin_id as int;
        if o < before.nodes.len() {
            lemma_update_counts(
                before.nodes,
                o,
                bundle_round::receipt_lost(
                    before.nodes[o],
                    mv.ack.seq,
                    mv.ack.hops_completed(),
                ),
                before.nodes.len(),
            );
        }
    }
}

proof fn lemma_receiving_acks_balances(
    s: RoundState,
    resolved: Seq<(u32, u64)>,
    round: u64,
    k: nat,
)
    requires
        k <= resolved.len(),
    ensures
        bundles_missing(bundle_round::acks_received(s, resolved, round, k)) == bundles_missing(s),
        receipts_missing(bundle_round::acks_received(s, resolved, round, k)) == receipts_missing(s)
            - k,
        bundle_round::acks_received(s, resolved, round, k).nodes.len() == s.nodes.len(),
    decreases k,
{
    if k > 0 {
        lemma_receiving_acks_balances(s, resolved, round, (k - 1) as nat);
        let before = bundle_round::acks_received(s, resolved, round, (k - 1) as nat);
        let o = resolved[k - 1].0 as int;
        if o < before.nodes.len() {
            lemma_update_counts(
                before.nodes,
                o,
                bundle_round::told(before.nodes[o], resolved[k - 1].1),
                before.nodes.len(),
            );
        }
    }
}

proof fn lemma_forwarding_acks_balances(
    s: RoundState,
    fleet: Seq<Balloon>,
    topo: Topology,
    params: DvDtnParams,
    awake: Seq<usize>,
    round: u64,
)
    requires
        forall|j: int| 0 <= j < awake.len() ==> (#[trigger] awake[j]) < s.nodes.len(),
    ensures
        balanced(s, bundle_round::acks_forwarded(s, fleet, topo, params, awake, round)),
{
    let g0 = bundle_round::ack_gather_start(s.nodes);
    lemma_taking_acks_counts(g0, topo, awake, awake.len());
    let g = bundle_round::acks_taken(g0, topo, awake, awake.len());
    let s1 = RoundState { nodes: g.nodes, ..s };
    lemma_handing_acks_balances(s1, fleet, params, g.moves, g.moves.len());
    let s2 = bundle_round::acks_handed(s1, fleet, params, g.moves, g.moves.len());
    lemma_receiving_acks_balances(s2, g.resolved, round, g.resolved.len());
}

proof fn lemma_delivery_balances(
    s: RoundState,
    i: int,
    tower_id: u32,
    params: DvDtnParams,
    round: u64,
)
    requires
        0 <= i < s.nodes.len(),
        s.nodes[i].queue.len() > 0,
    ensures
        balanced_under(s, bundle_round::bundle_delivered(s, i, tower_id, params, round), params),
        bundle_round::bundle_delivered(s, i, tower_id, params, round).nodes[i].queue.len()
            == s.nodes[i].queue.len() - 1,
{
    let n = s.nodes.len();
    let q = s.nodes[i].queue;
    let place = bundle::nth_place(q.len() as int, params.queue_discipline, 0);
    let b = q[place];
    let lessened = NodeModel { queue: q.remove(place), ..s.nodes[i] };
    let taken = s.nodes.update(i, lessened);
    lemma_update_counts(s.nodes, i, lessened, n);
    let o = b.origin_id as int;
    if o < n {
        lemma_update_counts(taken, o, bundle_round::landed(taken[o], b, tower_id), n);
    }
    let noted = bundle_round::note_landed(taken, b, tower_id);
    let back = bundle_round::way_back(b.path);
    if back.len() == 0 {
        lemma_update_counts(noted, i, bundle_round::told(noted[i], b.seq), n);
    } else {
        lemma_update_counts(
            noted,
            i,
            NodeModel { ack_queue: noted[i].ack_queue.push(bundle_round::receipt(b)), ..noted[i] },
            n,
        );
        if o < n {
            lemma_update_counts(noted, o, bundle_round::receipt_lost(noted[o], b.seq, 0), n);
        }
    }
}

proof fn lemma_deliveries_balance(
    s: RoundState,
    i: int,
    tower_id: u32,
    params: DvDtnParams,
    round: u64,
    k: nat,
)
    requires
        0 <= i < s.nodes.len(),
        k <= s.nodes[i].queue.len(),
    ensures
        balanced_under(
            s,
            bundle_round::bundles_delivered(s, i, tower_id, params, round, k),
            params,
        ),
        bundle_round::bundles_delivered(s, i, tower_id, params, round, k).nodes[i].queue.len()
            == s.nodes[i].queue.len() - k,
    decreases k,
{
    if k > 0 {
        lemma_deliveries_balance(s, i, tower_id, params, round, (k - 1) as nat);
        let before = bundle_round::bundles_delivered(
            s,
            i,
            tower_id,
            params,
            round,
            (k - 1) as nat,
        );
        lemma_delivery_balances(before, i, tower_id, params, round);
    }
}

proof fn lemma_drop_balances(s: RoundState, i: int, place: int, why: bundle_round::Loss)
    requires
        0 <= i < s.nodes.len(),
        0 <= place < s.nodes[i].queue.len(),
    ensures
        balanced(s, bundle_round::bundle_dropped(s, i, place, why)),
{
    let n = s.nodes.len();
    let q = s.nodes[i].queue;
    let lessened = NodeModel { queue: q.remove(place), ..s.nodes[i] };
    lemma_update_counts(s.nodes, i, lessened, n);
    let taken = s.nodes.update(i, lessened);
    let o = q[place].origin_id as int;
    if o < n {
        lemma_update_counts(
            taken,
            o,
            bundle_round::dead_ended(taken[o], q[place].seq, q[place].path),
            n,
        );
    }
}

proof fn lemma_batch_balances(
    s: RoundState,
    i: int,
    next: u32,
    params: DvDtnParams,
    ids: Seq<(u32, u64)>,
)
    requires
        0 <= i < s.nodes.len(),
    ensures
        balanced(s, bundle_round::batch_filled(s, i, next, params, ids).0),
    decreases params.batch.mesh_hop - ids.len(),
{
    let q = s.nodes[i].queue;
    let k = ids.len();
    let place = bundle::nth_place(q.len() as int, params.queue_discipline, k as int);
    if k >= params.batch.mesh_hop || k >= q.len() {
    } else if q[place].path.contains(next) {
        lemma_drop_balances(s, i, place, bundle_round::Loss::Loop);
    } else if q[place].path.len() >= params.bundle_max_hops {
        lemma_drop_balances(s, i, place, bundle_round::Loss::HopBudget);
    } else {
        lemma_batch_balances(s, i, next, params, ids.push((q[place].origin_id, q[place].seq)));
    }
}

proof fn lemma_slots_balance(
    g: Gather,
    fleet: Seq<Balloon>,
    topo: Topology,
    params: DvDtnParams,
    used: Seq<bool>,
    round: u64,
    awake: Seq<usize>,
    k: nat,
)
    requires
        k <= awake.len(),
        forall|j: int| 0 <= j < awake.len() ==> (#[trigger] awake[j]) < g.s.nodes.len(),
        g.moves.len() == 0,
    ensures
        balanced_under(
            g.s,
            bundle_round::slots_taken(g, fleet, topo, params, used, round, awake, k).s,
            params,
        ),
        forall|j: int|
            0 <= j < bundle_round::slots_taken(
                g,
                fleet,
                topo,
                params,
                used,
                round,
                awake,
                k,
            ).moves.len() ==> 0 <= (#[trigger] bundle_round::slots_taken(
                g,
                fleet,
                topo,
                params,
                used,
                round,
                awake,
                k,
            ).moves[j]).from < g.s.nodes.len(),
    decreases k,
{
    if k > 0 {
        lemma_slots_balance(g, fleet, topo, params, used, round, awake, (k - 1) as nat);
        let before = bundle_round::slots_taken(
            g,
            fleet,
            topo,
            params,
            used,
            round,
            awake,
            (k - 1) as nat,
        );
        let i = awake[k - 1] as int;
        let node = before.s.nodes[i];
        if node.belief is Some && node.queue.len() > 0 {
            let belief = node.belief->Some_0;
            let sampled = RoundState {
                tally: Tally {
                    belief_hops: super::bundle_stats::bumped(
                        before.s.tally.belief_hops,
                        belief.hop_count as int,
                    ),
                    ..before.s.tally
                },
                ..before.s
            };
            let slot = RoundState {
                tally: Tally {
                    slots_with_bundle: sampled.tally.slots_with_bundle + 1,
                    ..sampled.tally
                },
                ..sampled
            };
            match belief.next_hop {
                None => {
                    if let Some(tower_id) = topo.tower_of(i) {
                        lemma_contact_balances(slot, fleet, i, tower_id, params, round);
                    }
                },
                Some(next) => {
                    lemma_batch_balances(slot, i, next, params, Seq::empty());
                },
            }
        }
    }
}

proof fn lemma_contact_balances(
    s: RoundState,
    fleet: Seq<Balloon>,
    i: int,
    tower_id: u32,
    params: DvDtnParams,
    round: u64,
)
    requires
        0 <= i < s.nodes.len(),
    ensures
        balanced_under(
            s,
            bundle_round::tower_contact(s, fleet, i, tower_id, params, round),
            params,
        ),
{
    let n = bundle_round::contact_size(s.nodes[i], params);
    let announced = RoundState {
        events: s.events.push(
            crate::protocol::CommsEvent {
                kind: crate::protocol::EventKind::Bundle,
                from: crate::link_detection::NodeKey::Balloon(fleet[i].id),
                to: crate::link_detection::NodeKey::Tower(tower_id),
                payload: (n as usize) as u32,
                tower_id: Some(tower_id),
                hop_count: Some(0),
                epoch: None,
            },
        ),
        ..s
    };
    lemma_deliveries_balance(announced, i, tower_id, params, round, n);
    lemma_deliveries_balance(s, i, tower_id, params, round, n);
}

proof fn lemma_place_in_range(q: Seq<BundleModel>, k: int, origin_id: u32, seq: u64)
    requires
        0 <= k,
    ensures
        bundle::place_of(q, k, origin_id, seq) matches Some(p) ==> k <= p < q.len(),
    decreases q.len() - k,
{
    if k < q.len() {
        lemma_place_in_range(q, k + 1, origin_id, seq);
    }
}

proof fn lemma_handoff_balances(
    s: RoundState,
    mv: Handoff,
    params: DvDtnParams,
    round: u64,
    k: nat,
)
    requires
        0 <= mv.from < s.nodes.len(),
        k <= mv.ids.len(),
    ensures
        balanced(s, bundle_round::bundles_handed(s, mv, params, round, k).0),
    decreases k,
{
    if k > 0 {
        lemma_handoff_balances(s, mv, params, round, (k - 1) as nat);
        let before = bundle_round::bundles_handed(s, mv, params, round, (k - 1) as nat).0;
        let id = mv.ids[k - 1];
        let n = before.nodes.len();
        lemma_place_in_range(before.nodes[mv.from].queue, 0, id.0, id.1);
        if bundle_round::has_room(before, mv.to, params) {
            if let Some(p) = bundle::place_of(before.nodes[mv.from].queue, 0, id.0, id.1) {
                let q = before.nodes[mv.from].queue;
                let lessened = NodeModel { queue: q.remove(p), ..before.nodes[mv.from] };
                let taken = before.nodes.update(mv.from, lessened);
                lemma_update_counts(before.nodes, mv.from, lessened, n);
                lemma_update_counts(
                    taken,
                    mv.to as int,
                    NodeModel {
                        queue: taken[mv.to as int].queue.push(
                            BundleModel { path: q[p].path.push(mv.to), ..q[p] },
                        ),
                        ..taken[mv.to as int]
                    },
                    n,
                );
            }
        }
    }
}

proof fn lemma_handoffs_balance(
    s: RoundState,
    fleet: Seq<Balloon>,
    moves: Seq<Handoff>,
    params: DvDtnParams,
    round: u64,
    k: nat,
)
    requires
        k <= moves.len(),
        forall|j: int| 0 <= j < moves.len() ==> 0 <= (#[trigger] moves[j]).from < s.nodes.len(),
    ensures
        balanced(s, bundle_round::all_handed(s, fleet, moves, params, round, k)),
    decreases k,
{
    if k > 0 {
        lemma_handoffs_balance(s, fleet, moves, params, round, (k - 1) as nat);
        let before = bundle_round::all_handed(s, fleet, moves, params, round, (k - 1) as nat);
        assert(0 <= moves[k - 1].from < s.nodes.len());
        lemma_handoff_balances(before, moves[k - 1], params, round, moves[k - 1].ids.len());
    }
}

proof fn lemma_originations_balance(
    s: RoundState,
    fleet: Seq<Balloon>,
    params: DvDtnParams,
    round: u64,
    awake: Seq<usize>,
    k: nat,
)
    requires
        k <= awake.len(),
        forall|j: int| 0 <= j < awake.len() ==> (#[trigger] awake[j]) < s.nodes.len(),
    ensures
        balanced(s, bundle_round::originations(s, fleet, params, round, awake, k)),
    decreases k,
{
    if k > 0 {
        lemma_originations_balance(s, fleet, params, round, awake, (k - 1) as nat);
        let before = bundle_round::originations(s, fleet, params, round, awake, (k - 1) as nat);
        let i = awake[k - 1] as int;
        lemma_update_counts(
            before.nodes,
            i,
            bundle_round::originating(before.nodes[i], fleet[i], params, round),
            before.nodes.len(),
        );
    }
}

/// Nothing vanishes: over a round, what is missing from the books does not
/// change. Every bundle ever originated has been delivered, dropped for one of
/// two reasons, handed to satellite, or is still held by exactly as many
/// places as it should be; and where receipts travel as packets, every
/// delivery's receipt has arrived, been lost, or is still held.
pub proof fn nothing_vanishes(
    s: RoundState,
    fleet: Seq<Balloon>,
    topo: Topology,
    params: DvDtnParams,
    awake: Seq<usize>,
    round: u64,
)
    requires
        forall|j: int| 0 <= j < awake.len() ==> (#[trigger] awake[j]) < s.nodes.len(),
    ensures
        bundle_round::bundle_round(s, fleet, topo, params, awake, round).nodes.len()
            == s.nodes.len(),
        bundles_missing(bundle_round::bundle_round(s, fleet, topo, params, awake, round))
            == bundles_missing(s),
        params.ack_policy == AckPolicy::SourceRouted ==> receipts_missing(
            bundle_round::bundle_round(s, fleet, topo, params, awake, round),
        ) == receipts_missing(s),
{
    let opened = bundle_round::round_opened(s, topo, params, round);
    lemma_opening_balances(s, topo, params, round);
    let acked = bundle_round::acks_forwarded(opened, fleet, topo, params, awake, round);
    lemma_forwarding_acks_balances(opened, fleet, topo, params, awake, round);
    let used = bundle_round::slots_spent(opened, topo, awake);
    let g0 = Gather { s: acked, moves: Seq::empty() };
    lemma_slots_balance(g0, fleet, topo, params, used, round, awake, awake.len());
    let g = bundle_round::slots_taken(
        g0,
        fleet,
        topo,
        params,
        used,
        round,
        awake,
        awake.len(),
    );
    lemma_handoffs_balance(g.s, fleet, g.moves, params, round, g.moves.len());
    let moved = bundle_round::all_handed(g.s, fleet, g.moves, params, round, g.moves.len());
    lemma_originations_balance(moved, fleet, params, round, awake, awake.len());
}

} // verus!
