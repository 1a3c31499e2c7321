//! What a round of delivery does to what it finds: who goes to satellite, who
//! stops waiting, who holds on, and what bounds it keeps.
use vstd::prelude::*;

use crate::balloon::Balloon;
use crate::mesh_adjacency::Topology;

use super::bundle;
use super::bundle::{AckModel, AckState, BundleModel};
use super::bundle_order;
use super::bundle_round;
use super::bundle_round::{AckGather, AckMove, Gather, Handoff, RoundState};
use super::params::DvDtnParams;
use super::NodeModel;

verus! {

// ---------------------------------------------------------------------------
// What moving things about leaves alone
// ---------------------------------------------------------------------------

/// Whether a node has stopped waiting for a record.
pub open spec fn gave_up_on(n: NodeModel, seq: u64) -> bool {
    n.outstanding matches Some(o) && o.seq == seq && o.state == AckState::TimedOut
}

/// Whether a node's beliefs and numbers are as they were, and it still does not
/// wait for what it had stopped waiting for.
spec fn steady(a: NodeModel, b: NodeModel) -> bool {
    &&& b.belief == a.belief
    &&& b.next_beacon_round == a.next_beacon_round
    &&& b.bundle_seq == a.bundle_seq
    &&& a.outstanding matches Some(o) ==> (o.state == AckState::TimedOut ==> gave_up_on(b, o.seq))
}

/// Whether that holds of every node, and as many bundles went to satellite.
spec fn all_steady(a: RoundState, b: RoundState) -> bool {
    &&& a.nodes.len() == b.nodes.len()
    &&& b.tally.satellite == a.tally.satellite
    &&& forall|i: int| 0 <= i < a.nodes.len() ==> steady(a.nodes[i], #[trigger] b.nodes[i])
}

proof fn lemma_steady_on(a: RoundState, b: RoundState, c: RoundState)
    requires
        all_steady(a, b),
        all_steady(b, c),
    ensures
        all_steady(a, c),
{
    assert forall|i: int| 0 <= i < a.nodes.len() implies steady(
        a.nodes[i],
        #[trigger] c.nodes[i],
    ) by {
        assert(steady(a.nodes[i], b.nodes[i]));
        assert(steady(b.nodes[i], c.nodes[i]));
    }
}

proof fn lemma_acks_taken(g: AckGather, topo: Topology, awake: Seq<usize>, k: nat)
    requires
        k <= awake.len(),
        forall|j: int| 0 <= j < awake.len() ==> (#[trigger] awake[j]) < g.nodes.len(),
    ensures
        ({
            let r = bundle_round::acks_taken(g, topo, awake, k);
            &&& r.nodes.len() == g.nodes.len()
            &&& forall|i: int|
                0 <= i < g.nodes.len() ==> steady(g.nodes[i], #[trigger] r.nodes[i])
            &&& forall|i: int|
                0 <= i < g.nodes.len() ==> (#[trigger] r.nodes[i]).queue == g.nodes[i].queue
        }),
    decreases k,
{
    if k > 0 {
        lemma_acks_taken(g, topo, awake, (k - 1) as nat);
        assert(awake[k - 1] < g.nodes.len());
    }
}

/// Whether every queue is as it was.
spec fn same_queues(a: Seq<NodeModel>, b: Seq<NodeModel>) -> bool {
    &&& a.len() == b.len()
    &&& forall|i: int| 0 <= i < a.len() ==> (#[trigger] b[i]).queue == a[i].queue
}

proof fn lemma_acks_handed(
    s: RoundState,
    fleet: Seq<Balloon>,
    params: DvDtnParams,
    moves: Seq<AckMove>,
    k: nat,
)
    ensures
        all_steady(s, bundle_round::acks_handed(s, fleet, params, moves, k)),
        same_queues(s.nodes, bundle_round::acks_handed(s, fleet, params, moves, k).nodes),
    decreases k,
{
    if k > 0 {
        lemma_acks_handed(s, fleet, params, moves, (k - 1) as nat);
    }
}

proof fn lemma_acks_received(s: RoundState, resolved: Seq<(u32, u64)>, round: u64, k: nat)
    ensures
        all_steady(s, bundle_round::acks_received(s, resolved, round, k)),
        same_queues(s.nodes, bundle_round::acks_received(s, resolved, round, k).nodes),
    decreases k,
{
    if k > 0 {
        lemma_acks_received(s, resolved, round, (k - 1) as nat);
    }
}

proof fn lemma_acks(
    s: RoundState,
    fleet: Seq<Balloon>,
    topo: Topology,
    params: DvDtnParams,
    awake: Seq<usize>,
    round: u64,
)
    requires
        forall|j: int| 0 <= j < awake.len() ==> (#[trigger] awake[j]) < s.nodes.len(),
    ensures
        all_steady(s, bundle_round::acks_forwarded(s, fleet, topo, params, awake, round)),
        same_queues(
            s.nodes,
            bundle_round::acks_forwarded(s, fleet, topo, params, awake, round).nodes,
        ),
{
    let ag0 = bundle_round::ack_gather_start(s.nodes);
    let ag = bundle_round::acks_taken(ag0, topo, awake, awake.len());
    lemma_acks_taken(ag0, topo, awake, awake.len());
    let a = RoundState { nodes: ag.nodes, ..s };
    lemma_acks_handed(a, fleet, params, ag.moves, ag.moves.len());
    let b = bundle_round::acks_handed(a, fleet, params, ag.moves, ag.moves.len());
    lemma_acks_received(b, ag.resolved, round, ag.resolved.len());
    let c = bundle_round::acks_forwarded(s, fleet, topo, params, awake, round);
    assert(all_steady(s, a));
    lemma_steady_on(s, a, b);
    lemma_steady_on(s, b, c);
    assert forall|i: int| 0 <= i < s.nodes.len() implies (#[trigger] c.nodes[i]).queue
        == s.nodes[i].queue by {
        assert(b.nodes[i].queue == a.nodes[i].queue);
    }
}

/// Whether the queues of all nodes but one are as they were.
spec fn others_queues(a: Seq<NodeModel>, b: Seq<NodeModel>, i: int) -> bool {
    forall|j: int| 0 <= j < a.len() && j != i ==> (#[trigger] b[j]).queue == a[j].queue
}

proof fn lemma_delivered(
    s: RoundState,
    i: int,
    tower_id: u32,
    params: DvDtnParams,
    round: u64,
    k: nat,
)
    requires
        0 <= i < s.nodes.len(),
    ensures
        all_steady(s, bundle_round::bundles_delivered(s, i, tower_id, params, round, k)),
        others_queues(
            s.nodes,
            bundle_round::bundles_delivered(s, i, tower_id, params, round, k).nodes,
            i,
        ),
    decreases k,
{
    if k > 0 {
        lemma_delivered(s, i, tower_id, params, round, (k - 1) as nat);
        let a = bundle_round::bundles_delivered(s, i, tower_id, params, round, (k - 1) as nat);
        lemma_one_delivered(a, i, tower_id, params, round);
        let b = bundle_round::bundle_delivered(a, i, tower_id, params, round);
        lemma_steady_on(s, a, b);
        assert forall|j: int| 0 <= j < s.nodes.len() && j != i implies (
        #[trigger] b.nodes[j]).queue == s.nodes[j].queue by {
            assert(a.nodes[j].queue == s.nodes[j].queue);
        }
    }
}

proof fn lemma_one_delivered(
    s: RoundState,
    i: int,
    tower_id: u32,
    params: DvDtnParams,
    round: u64,
)
    requires
        0 <= i < s.nodes.len(),
    ensures
        all_steady(s, bundle_round::bundle_delivered(s, i, tower_id, params, round)),
        others_queues(
            s.nodes,
            bundle_round::bundle_delivered(s, i, tower_id, params, round).nodes,
            i,
        ),
{
}

proof fn lemma_contact(
    s: RoundState,
    fleet: Seq<Balloon>,
    i: int,
    tower_id: u32,
    params: DvDtnParams,
    round: u64,
)
    requires
        0 <= i < s.nodes.len(),
    ensures
        all_steady(s, bundle_round::tower_contact(s, fleet, i, tower_id, params, round)),
        others_queues(
            s.nodes,
            bundle_round::tower_contact(s, fleet, i, tower_id, params, round).nodes,
            i,
        ),
{
    let n = bundle_round::contact_size(s.nodes[i], params);
    assert forall|a: RoundState| a.nodes == s.nodes && a.tally == s.tally implies all_steady(
        s,
        #[trigger] bundle_round::bundles_delivered(a, i, tower_id, params, round, n),
    ) && others_queues(
        s.nodes,
        bundle_round::bundles_delivered(a, i, tower_id, params, round, n).nodes,
        i,
    ) by {
        lemma_delivered(a, i, tower_id, params, round, n);
    }
}

proof fn lemma_batch(
    s: RoundState,
    i: int,
    next: u32,
    params: DvDtnParams,
    ids: Seq<(u32, u64)>,
)
    requires
        0 <= i < s.nodes.len(),
    ensures
        all_steady(s, bundle_round::batch_filled(s, i, next, params, ids).0),
        others_queues(
            s.nodes,
            bundle_round::batch_filled(s, i, next, params, ids).0.nodes,
            i,
        ),
    decreases params.batch.mesh_hop - ids.len(),
{
    let q = s.nodes[i].queue;
    let k = ids.len();
    let place = bundle::nth_place(q.len() as int, params.queue_discipline, k as int);
    if k >= params.batch.mesh_hop || k >= q.len() {
    } else if q[place].path.contains(next) {
    } else if q[place].path.len() >= params.bundle_max_hops {
    } else {
        lemma_batch(s, i, next, params, ids.push((q[place].origin_id, q[place].seq)));
    }
}

/// Whether a node believes in a next hop that is out of its reach.
pub open spec fn misled(n: NodeModel, topo: Topology, i: int) -> bool {
    n.belief matches Some(b) && b.next_hop matches Some(next) && !topo.neighbors_of(i).contains(
        next,
    )
}

proof fn lemma_slot(
    g: Gather,
    fleet: Seq<Balloon>,
    topo: Topology,
    params: DvDtnParams,
    used: Seq<bool>,
    round: u64,
    i: int,
)
    requires
        0 <= i < g.s.nodes.len(),
    ensures
        ({
            let r = bundle_round::slot_taken(g, fleet, topo, params, used, round, i);
            &&& all_steady(g.s, r.s)
            &&& others_queues(g.s.nodes, r.s.nodes, i)
            &&& misled(g.s.nodes[i], topo, i) ==> r.s.nodes[i].queue == g.s.nodes[i].queue
                && r.moves == g.moves
            &&& forall|m: int|
                0 <= m < r.moves.len() ==> (#[trigger] r.moves[m]).from == i || m < g.moves.len()
                    && r.moves[m] == g.moves[m]
        }),
{
    assert forall|s: RoundState, tower_id: u32|
        s.nodes == g.s.nodes && s.tally.satellite == g.s.tally.satellite implies all_steady(
        g.s,
        #[trigger] bundle_round::tower_contact(s, fleet, i, tower_id, params, round),
    ) && others_queues(
        g.s.nodes,
        bundle_round::tower_contact(s, fleet, i, tower_id, params, round).nodes,
        i,
    ) by {
        lemma_contact(s, fleet, i, tower_id, params, round);
    }
    assert forall|s: RoundState, next: u32|
        s.nodes == g.s.nodes && s.tally.satellite == g.s.tally.satellite implies all_steady(
        g.s,
        (#[trigger] bundle_round::batch_filled(s, i, next, params, Seq::empty())).0,
    ) && others_queues(
        g.s.nodes,
        bundle_round::batch_filled(s, i, next, params, Seq::empty()).0.nodes,
        i,
    ) by {
        lemma_batch(s, i, next, params, Seq::empty());
    }
}

proof fn lemma_slots(
    g: Gather,
    fleet: Seq<Balloon>,
    topo: Topology,
    params: DvDtnParams,
    used: Seq<bool>,
    round: u64,
    awake: Seq<usize>,
    k: nat,
    i: int,
)
    requires
        k <= awake.len(),
        forall|j: int| 0 <= j < awake.len() ==> (#[trigger] awake[j]) < g.s.nodes.len(),
        g.moves.len() == 0,
        0 <= i < g.s.nodes.len(),
    ensures
        ({
            let r = bundle_round::slots_taken(g, fleet, topo, params, used, round, awake, k);
            &&& all_steady(g.s, r.s)
            &&& misled(g.s.nodes[i], topo, i) ==> r.s.nodes[i].queue == g.s.nodes[i].queue
                && forall|m: int| 0 <= m < r.moves.len() ==> (#[trigger] r.moves[m]).from != i
        }),
    decreases k,
{
    if k > 0 {
        lemma_slots(g, fleet, topo, params, used, round, awake, (k - 1) as nat, i);
        let a = bundle_round::slots_taken(
            g,
            fleet,
            topo,
            params,
            used,
            round,
            awake,
            (k - 1) as nat,
        );
        let x = awake[k - 1] as int;
        assert(awake[k - 1] < g.s.nodes.len());
        lemma_slot(a, fleet, topo, params, used, round, x);
        let b = bundle_round::slot_taken(a, fleet, topo, params, used, round, x);
        lemma_steady_on(g.s, a.s, b.s);
        assert(steady(g.s.nodes[i], a.s.nodes[i]));
        if misled(g.s.nodes[i], topo, i) && x != i {
            assert(b.s.nodes[i].queue == a.s.nodes[i].queue);
        }
    }
}

/// Whether a queue begins with all that another holds.
spec fn begins(a: Seq<BundleModel>, b: Seq<BundleModel>) -> bool {
    a.is_prefix_of(b)
}

proof fn lemma_handed(
    s: RoundState,
    mv: Handoff,
    params: DvDtnParams,
    round: u64,
    k: nat,
    i: int,
)
    requires
        0 <= mv.from < s.nodes.len(),
        0 <= i < s.nodes.len(),
    ensures
        ({
            let r = bundle_round::bundles_handed(s, mv, params, round, k).0;
            &&& all_steady(s, r)
            &&& mv.from != i ==> begins(s.nodes[i].queue, r.nodes[i].queue)
        }),
    decreases k,
{
    if k > 0 {
        lemma_handed(s, mv, params, round, (k - 1) as nat, i);
        let a = bundle_round::bundles_handed(s, mv, params, round, (k - 1) as nat).0;
        let b = bundle_round::bundles_handed(s, mv, params, round, k).0;
        lemma_one_handed(a, mv, params, round, k - 1, i);
        lemma_steady_on(s, a, b);
    }
}

proof fn lemma_one_handed(
    s: RoundState,
    mv: Handoff,
    params: DvDtnParams,
    round: u64,
    k: int,
    i: int,
)
    requires
        0 <= mv.from < s.nodes.len(),
        0 <= i < s.nodes.len(),
    ensures
        ({
            let r = bundle_round::bundle_handed(s, mv.from, mv.to, mv.ids[k], params, round).0;
            &&& all_steady(s, r)
            &&& mv.from != i ==> begins(s.nodes[i].queue, r.nodes[i].queue)
        }),
{
    let r = bundle_round::bundle_handed(s, mv.from, mv.to, mv.ids[k], params, round).0;
    assert(mv.from != i ==> r.nodes[i].queue == s.nodes[i].queue || r.nodes[i].queue
        == s.nodes[i].queue.push(r.nodes[i].queue.last()));
}

proof fn lemma_all_handed(
    s: RoundState,
    fleet: Seq<Balloon>,
    moves: Seq<Handoff>,
    params: DvDtnParams,
    round: u64,
    k: nat,
    i: int,
)
    requires
        bundle_order::from_known(moves, s.nodes.len()),
        k <= moves.len(),
        0 <= i < s.nodes.len(),
    ensures
        ({
            let r = bundle_round::all_handed(s, fleet, moves, params, round, k);
            &&& all_steady(s, r)
            &&& (forall|m: int| 0 <= m < moves.len() ==> (#[trigger] moves[m]).from != i)
                ==> begins(s.nodes[i].queue, r.nodes[i].queue)
        }),
    decreases k,
{
    if k > 0 {
        lemma_all_handed(s, fleet, moves, params, round, (k - 1) as nat, i);
        let a = bundle_round::all_handed(s, fleet, moves, params, round, (k - 1) as nat);
        let mv = moves[k - 1];
        lemma_handed(a, mv, params, round, mv.ids.len(), i);
        let b = bundle_round::all_handed(s, fleet, moves, params, round, k);
        assert(all_steady(a, b));
        lemma_steady_on(s, a, b);
    }
}

/// What originating does to a node: nothing, or one more record.
spec fn grown(a: NodeModel, b: NodeModel) -> bool {
    &&& b.belief == a.belief
    &&& b.next_beacon_round == a.next_beacon_round
    &&& begins(a.queue, b.queue)
    &&& b == a || b.bundle_seq > a.bundle_seq
}

proof fn lemma_originated(
    s: RoundState,
    fleet: Seq<Balloon>,
    params: DvDtnParams,
    round: u64,
    awake: Seq<usize>,
    k: nat,
)
    requires
        k <= awake.len(),
        forall|j: int| 0 <= j < awake.len() ==> (#[trigger] awake[j]) < s.nodes.len(),
        forall|i: int|
            0 <= i < s.nodes.len() ==> (#[trigger] s.nodes[i]).bundle_seq + awake.len()
                <= u64::MAX,
    ensures
        ({
            let r = bundle_round::originations(s, fleet, params, round, awake, k);
            &&& r.nodes.len() == s.nodes.len()
            &&& r.tally.satellite == s.tally.satellite
            &&& forall|i: int|
                0 <= i < s.nodes.len() ==> grown(s.nodes[i], #[trigger] r.nodes[i])
                    && r.nodes[i].bundle_seq <= s.nodes[i].bundle_seq + k
        }),
    decreases k,
{
    if k > 0 {
        lemma_originated(s, fleet, params, round, awake, (k - 1) as nat);
        let a = bundle_round::originations(s, fleet, params, round, awake, (k - 1) as nat);
        let b = bundle_round::originations(s, fleet, params, round, awake, k);
        let x = awake[k - 1] as int;
        assert(awake[k - 1] < s.nodes.len());
        assert(s.nodes[x].bundle_seq + awake.len() <= u64::MAX);
        assert(a.nodes[x].bundle_seq <= s.nodes[x].bundle_seq + (k - 1));
        assert forall|i: int| 0 <= i < s.nodes.len() implies grown(
            s.nodes[i],
            #[trigger] b.nodes[i],
        ) && b.nodes[i].bundle_seq <= s.nodes[i].bundle_seq + k by {
            assert(grown(s.nodes[i], a.nodes[i]));
            if i != x {
                assert(b.nodes[i] == a.nodes[i]);
            }
        }
    } else {
        assert forall|i: int| 0 <= i < s.nodes.len() implies grown(
            s.nodes[i],
            #[trigger] s.nodes[i],
        ) by {}
    }
}

// ---------------------------------------------------------------------------
// Running out of time
// ---------------------------------------------------------------------------

/// Whether a node waits for a record for longer than one waits.
pub open spec fn overdue(n: NodeModel, round: u64, max_age: u64) -> bool {
    n.outstanding matches Some(o) && o.state == AckState::Pending && bundle::rounds_since(
        o.created_at_round,
        round,
    ) > max_age
}

/// Whether nodes believe as they did and wait for what they did.
spec fn same_waits(a: Seq<NodeModel>, b: Seq<NodeModel>) -> bool {
    &&& a.len() == b.len()
    &&& forall|i: int|
        0 <= i < a.len() ==> {
            let n = #[trigger] b[i];
            &&& n.belief == a[i].belief
            &&& n.next_beacon_round == a[i].next_beacon_round
            &&& n.bundle_seq == a[i].bundle_seq
            &&& n.outstanding is Some == a[i].outstanding is Some
            &&& a[i].outstanding matches Some(o) ==> (n.outstanding matches Some(p) && p.seq
                == o.seq && p.state == o.state && p.created_at_round == o.created_at_round)
        }
}

proof fn lemma_sent_up(nodes: Seq<NodeModel>, list: Seq<BundleModel>, k: nat)
    ensures
        same_waits(nodes, bundle_round::all_noted_sent_up(nodes, list, k)),
        same_queues(nodes, bundle_round::all_noted_sent_up(nodes, list, k)),
    decreases k,
{
    if k > 0 {
        lemma_sent_up(nodes, list, (k - 1) as nat);
    }
}

proof fn lemma_lost(nodes: Seq<NodeModel>, list: Seq<AckModel>, k: nat)
    ensures
        same_waits(nodes, bundle_round::all_noted_lost(nodes, list, k)),
        same_queues(nodes, bundle_round::all_noted_lost(nodes, list, k)),
    decreases k,
{
    if k > 0 {
        lemma_lost(nodes, list, (k - 1) as nat);
    }
}

proof fn lemma_opened(s: RoundState, topo: Topology, params: DvDtnParams, round: u64)
    ensures
        ({
            let max_age = params.bundle_max_age_rounds;
            let r = bundle_round::round_opened(s, topo, params, round);
            &&& r.nodes.len() == s.nodes.len()
            &&& r.tally.satellite == s.tally.satellite + bundle_round::all_late_bundles(
                s.nodes,
                s.nodes.len(),
                round,
                max_age,
            ).len()
            &&& forall|i: int|
                0 <= i < s.nodes.len() ==> {
                    let n = #[trigger] r.nodes[i];
                    &&& n.belief == s.nodes[i].belief
                    &&& n.next_beacon_round == s.nodes[i].next_beacon_round
                    &&& n.bundle_seq == s.nodes[i].bundle_seq
                    &&& n.queue == bundle_round::live_bundles(
                        s.nodes[i].queue,
                        s.nodes[i].queue.len(),
                        round,
                        max_age,
                    )
                    &&& overdue(s.nodes[i], round, max_age) ==> gave_up_on(
                        n,
                        s.nodes[i].outstanding->Some_0.seq,
                    )
                }
        }),
{
    let max_age = params.bundle_max_age_rounds;
    let a = bundle_round::bundles_expired(s, round, max_age);
    let late = bundle_round::all_late_bundles(s.nodes, s.nodes.len(), round, max_age);
    let kept = Seq::new(
        s.nodes.len(),
        |i: int| bundle_round::bundles_trimmed(s.nodes[i], round, max_age),
    );
    lemma_sent_up(kept, late, late.len());
    let b = bundle_round::acks_expired(a, round, max_age);
    let lost = bundle_round::all_late_acks(a.nodes, a.nodes.len(), round, max_age);
    let left = Seq::new(
        a.nodes.len(),
        |i: int| bundle_round::acks_trimmed(a.nodes[i], round, max_age),
    );
    lemma_lost(left, lost, lost.len());
    let r = bundle_round::round_opened(s, topo, params, round);
    assert forall|i: int| 0 <= i < s.nodes.len() implies {
        let n = #[trigger] r.nodes[i];
        &&& n.belief == s.nodes[i].belief
        &&& n.next_beacon_round == s.nodes[i].next_beacon_round
        &&& n.bundle_seq == s.nodes[i].bundle_seq
        &&& n.queue == bundle_round::live_bundles(
            s.nodes[i].queue,
            s.nodes[i].queue.len(),
            round,
            max_age,
        )
        &&& overdue(s.nodes[i], round, max_age) ==> gave_up_on(
            n,
            s.nodes[i].outstanding->Some_0.seq,
        )
    } by {
        let x = a.nodes[i];
        assert(x.belief == kept[i].belief);
        assert(x.queue == kept[i].queue);
        let y = b.nodes[i];
        assert(y.belief == left[i].belief);
        assert(y.queue == left[i].queue);
        assert(r.nodes[i] == bundle_round::timed_out(y, round, max_age));
    }
}

/// What a whole round of delivery does, for a node at `i`.
proof fn lemma_round(
    s: RoundState,
    fleet: Seq<Balloon>,
    topo: Topology,
    params: DvDtnParams,
    awake: Seq<usize>,
    round: u64,
    i: int,
)
    requires
        forall|j: int| 0 <= j < awake.len() ==> (#[trigger] awake[j]) < s.nodes.len(),
        bundle_round::round_fits(s, params, awake, round),
        0 <= i < s.nodes.len(),
    ensures
        ({
            let max_age = params.bundle_max_age_rounds;
            let r = bundle_round::bundle_round(s, fleet, topo, params, awake, round);
            &&& r.nodes.len() == s.nodes.len()
            &&& r.tally.satellite == s.tally.satellite + bundle_round::all_late_bundles(
                s.nodes,
                s.nodes.len(),
                round,
                max_age,
            ).len()
            &&& r.nodes[i].belief == s.nodes[i].belief
            &&& r.nodes[i].next_beacon_round == s.nodes[i].next_beacon_round
            &&& r.nodes[i].bundle_seq >= s.nodes[i].bundle_seq
            &&& overdue(s.nodes[i], round, max_age) ==> r.nodes[i].bundle_seq
                > s.nodes[i].bundle_seq || gave_up_on(
                r.nodes[i],
                s.nodes[i].outstanding->Some_0.seq,
            )
            &&& misled(s.nodes[i], topo, i) ==> begins(
                bundle_round::live_bundles(
                    s.nodes[i].queue,
                    s.nodes[i].queue.len(),
                    round,
                    max_age,
                ),
                r.nodes[i].queue,
            )
        }),
{
    let opened = bundle_round::round_opened(s, topo, params, round);
    lemma_opened(s, topo, params, round);
    let acked = bundle_round::acks_forwarded(opened, fleet, topo, params, awake, round);
    lemma_acks(opened, fleet, topo, params, awake, round);
    let used = bundle_round::slots_spent(opened, topo, awake);
    let g0 = Gather { s: acked, moves: Seq::empty() };
    lemma_slots(g0, fleet, topo, params, used, round, awake, awake.len(), i);
    bundle_order::lemma_slots_tame(g0, fleet, topo, params, used, round, awake, awake.len());
    let g = bundle_round::slots_taken(g0, fleet, topo, params, used, round, awake, awake.len());
    let moved = bundle_round::bundles_forwarded(acked, fleet, topo, params, used, awake, round);
    lemma_all_handed(g.s, fleet, g.moves, params, round, g.moves.len(), i);
    lemma_steady_on(opened, acked, g.s);
    lemma_steady_on(opened, g.s, moved);
    assert forall|x: int| 0 <= x < moved.nodes.len() implies (#[trigger] moved.nodes[x]).bundle_seq
        + awake.len() <= u64::MAX by {
        assert(steady(opened.nodes[x], moved.nodes[x]));
        assert(opened.nodes[x].bundle_seq == s.nodes[x].bundle_seq);
    }
    lemma_originated(moved, fleet, params, round, awake, awake.len());
    let r = bundle_round::bundle_round(s, fleet, topo, params, awake, round);
    assert(grown(moved.nodes[i], r.nodes[i]));
    assert(steady(opened.nodes[i], moved.nodes[i]));
    assert(opened.nodes[i].belief == s.nodes[i].belief);
    assert(steady(opened.nodes[i], acked.nodes[i]));
    assert(acked.nodes[i].queue == opened.nodes[i].queue);
}

/// The satellite takes the late, and nothing else: a round hands it exactly the
/// bundles that are past the age limit when it begins. It is silent to their
/// origins, and so is everything else: a node that has waited for a record past
/// the limit has stopped waiting after the round, unless it has just originated
/// another.
pub proof fn the_satellite_takes_the_late(
    s: RoundState,
    fleet: Seq<Balloon>,
    topo: Topology,
    params: DvDtnParams,
    awake: Seq<usize>,
    round: u64,
)
    requires
        forall|j: int| 0 <= j < awake.len() ==> (#[trigger] awake[j]) < s.nodes.len(),
        bundle_round::round_fits(s, params, awake, round),
    ensures
        ({
            let max_age = params.bundle_max_age_rounds;
            let after = bundle_round::bundle_round(s, fleet, topo, params, awake, round);
            &&& after.tally.satellite == s.tally.satellite + bundle_round::all_late_bundles(
                s.nodes,
                s.nodes.len(),
                round,
                max_age,
            ).len()
            &&& bundle_order::all_in_time(after.nodes, round, max_age)
            &&& forall|i: int|
                0 <= i < s.nodes.len() && overdue(s.nodes[i], round, max_age) ==> (
                #[trigger] after.nodes[i]).bundle_seq > s.nodes[i].bundle_seq || gave_up_on(
                    after.nodes[i],
                    s.nodes[i].outstanding->Some_0.seq,
                )
        }),
{
    let after = bundle_round::bundle_round(s, fleet, topo, params, awake, round);
    bundle_order::nothing_outstays_its_time(s, fleet, topo, params, awake, round);
    if s.nodes.len() > 0 {
        lemma_round(s, fleet, topo, params, awake, round, 0);
    } else {
        if awake.len() > 0 {
            assert(awake[0] < s.nodes.len());
        }
        let opened = bundle_round::round_opened(s, topo, params, round);
        lemma_opened(s, topo, params, round);
        lemma_acks(opened, fleet, topo, params, awake, round);
    }
    assert forall|i: int|
        0 <= i < s.nodes.len() && overdue(
            s.nodes[i],
            round,
            params.bundle_max_age_rounds,
        ) implies (#[trigger] after.nodes[i]).bundle_seq > s.nodes[i].bundle_seq || gave_up_on(
        after.nodes[i],
        s.nodes[i].outstanding->Some_0.seq,
    ) by {
        lemma_round(s, fleet, topo, params, awake, round, i);
    }
}

/// A bundle that is not too old is among those that are kept.
proof fn lemma_kept(q: Seq<BundleModel>, k: nat, round: u64, max_age: u64, j: int)
    requires
        0 <= j < k <= q.len(),
        q[j].age(round) <= max_age,
    ensures
        bundle_round::live_bundles(q, k, round, max_age).contains(q[j]),
    decreases k,
{
    let live = bundle_round::live_bundles(q, k, round, max_age);
    let before = bundle_round::live_bundles(q, (k - 1) as nat, round, max_age);
    if j == k - 1 {
        assert(live[before.len() as int] == q[j]);
    } else {
        lemma_kept(q, (k - 1) as nat, round, max_age, j);
        let x = before.index_of(q[j]);
        assert(live[x] == q[j]);
    }
}

/// A stale next hop holds: a node whose believed next hop is out of reach
/// neither drops nor hands on any bundle that is not too old, but keeps it as
/// it is.
pub proof fn a_stale_next_hop_holds(
    s: RoundState,
    fleet: Seq<Balloon>,
    topo: Topology,
    params: DvDtnParams,
    awake: Seq<usize>,
    round: u64,
    i: int,
)
    requires
        forall|j: int| 0 <= j < awake.len() ==> (#[trigger] awake[j]) < s.nodes.len(),
        bundle_round::round_fits(s, params, awake, round),
        0 <= i < s.nodes.len(),
        misled(s.nodes[i], topo, i),
    ensures
        forall|j: int|
            0 <= j < s.nodes[i].queue.len() && (#[trigger] s.nodes[i].queue[j]).age(round)
                <= params.bundle_max_age_rounds ==> bundle_round::bundle_round(
                s,
                fleet,
                topo,
                params,
                awake,
                round,
            ).nodes[i].queue.contains(s.nodes[i].queue[j]),
{
    let max_age = params.bundle_max_age_rounds;
    let q = s.nodes[i].queue;
    let live = bundle_round::live_bundles(q, q.len(), round, max_age);
    let after = bundle_round::bundle_round(s, fleet, topo, params, awake, round).nodes[i].queue;
    lemma_round(s, fleet, topo, params, awake, round, i);
    assert forall|j: int| 0 <= j < q.len() && (#[trigger] s.nodes[i].queue[j]).age(round)
        <= max_age implies after.contains(s.nodes[i].queue[j]) by {
        lemma_kept(q, q.len(), round, max_age, j);
        let x = live.index_of(q[j]);
        assert(after[x] == live[x]);
    }
}

// ---------------------------------------------------------------------------
// Bounds
// ---------------------------------------------------------------------------

/// Whether every queue and every log is within its bound.
pub open spec fn bounded(nodes: Seq<NodeModel>, params: DvDtnParams) -> bool {
    forall|i: int|
        0 <= i < nodes.len() ==> (#[trigger] nodes[i]).queue.len() <= params.relay_queue_capacity
            && nodes[i].ack_queue.len() <= params.ack_queue_capacity && nodes[i].log.len()
            <= params.comms_log_capacity
}

proof fn lemma_tame_bounded(a: Seq<NodeModel>, b: Seq<NodeModel>, params: DvDtnParams)
    requires
        bundle_order::all_tame(a, b, params),
        bounded(a, params),
    ensures
        bounded(b, params),
{
    assert forall|i: int| 0 <= i < b.len() implies (#[trigger] b[i]).queue.len()
        <= params.relay_queue_capacity && b[i].ack_queue.len() <= params.ack_queue_capacity
        && b[i].log.len() <= params.comms_log_capacity by {
        assert(bundle_order::tame(a[i], b[i], params));
        assert(a[i].queue.len() <= params.relay_queue_capacity);
    }
}

/// Whether all logs are as they were.
spec fn same_logs(a: Seq<NodeModel>, b: Seq<NodeModel>) -> bool {
    &&& a.len() == b.len()
    &&& forall|i: int| 0 <= i < a.len() ==> (#[trigger] b[i]).log == a[i].log
}

proof fn lemma_bounded_handed(
    s: RoundState,
    mv: Handoff,
    params: DvDtnParams,
    round: u64,
    k: nat,
)
    requires
        bounded(s.nodes, params),
        0 <= mv.from < s.nodes.len(),
    ensures
        bounded(bundle_round::bundles_handed(s, mv, params, round, k).0.nodes, params),
        same_logs(s.nodes, bundle_round::bundles_handed(s, mv, params, round, k).0.nodes),
    decreases k,
{
    if k > 0 {
        lemma_bounded_handed(s, mv, params, round, (k - 1) as nat);
        let a = bundle_round::bundles_handed(s, mv, params, round, (k - 1) as nat).0;
        let id = mv.ids[k - 1];
        bundle_order::lemma_place(a.nodes[mv.from].queue, 0, id.0, id.1);
        let b = bundle_round::bundle_handed(a, mv.from, mv.to, id, params, round).0;
        assert forall|i: int| 0 <= i < b.nodes.len() implies (#[trigger] b.nodes[i]).queue.len()
            <= params.relay_queue_capacity && b.nodes[i].ack_queue.len()
            <= params.ack_queue_capacity && b.nodes[i].log.len() <= params.comms_log_capacity by {
            assert(a.nodes[i].queue.len() <= params.relay_queue_capacity);
        }
    }
}

proof fn lemma_bounded_all_handed(
    s: RoundState,
    fleet: Seq<Balloon>,
    moves: Seq<Handoff>,
    params: DvDtnParams,
    round: u64,
    k: nat,
)
    requires
        bounded(s.nodes, params),
        bundle_order::from_known(moves, s.nodes.len()),
        k <= moves.len(),
    ensures
        bounded(bundle_round::all_handed(s, fleet, moves, params, round, k).nodes, params),
        same_logs(
            s.nodes,
            bundle_round::all_handed(s, fleet, moves, params, round, k).nodes,
        ),
    decreases k,
{
    if k > 0 {
        lemma_bounded_all_handed(s, fleet, moves, params, round, (k - 1) as nat);
        let a = bundle_round::all_handed(s, fleet, moves, params, round, (k - 1) as nat);
        let mv = moves[k - 1];
        lemma_bounded_handed(a, mv, params, round, mv.ids.len());
        let b = bundle_round::bundles_handed(a, mv, params, round, mv.ids.len()).0;
        let c = bundle_round::all_handed(s, fleet, moves, params, round, k);
        assert(c.nodes == b.nodes);
        assert forall|i: int| 0 <= i < s.nodes.len() implies (#[trigger] c.nodes[i]).log
            == s.nodes[i].log by {
            assert(b.nodes[i].log == a.nodes[i].log);
        }
    }
}

/// Whether a log goes on from another: the same records, or all but the oldest
/// of a full log, and the newest behind them.
pub open spec fn log_goes_on(a: NodeModel, b: NodeModel, params: DvDtnParams) -> bool {
    let shift: int = if a.log.len() >= params.comms_log_capacity && a.log.len() > 0 {
        1
    } else {
        0
    };
    if b.bundle_seq == a.bundle_seq {
        bundle_order::same_records(a.log, b.log)
    } else {
        &&& b.log.len() == a.log.len() - shift + 1
        &&& b.log.last().seq == a.bundle_seq
        &&& forall|k: int|
            0 <= k < a.log.len() - shift ==> (#[trigger] b.log[k]).origin_id == a.log[k
                + shift].origin_id && b.log[k].seq == a.log[k + shift].seq
    }
}

proof fn lemma_bounded_originated(
    s: RoundState,
    fleet: Seq<Balloon>,
    params: DvDtnParams,
    round: u64,
    awake: Seq<usize>,
    k: nat,
)
    requires
        k <= awake.len(),
        forall|j: int| 0 <= j < awake.len() ==> (#[trigger] awake[j]) < s.nodes.len(),
        forall|i: int|
            0 <= i < s.nodes.len() ==> (#[trigger] s.nodes[i]).bundle_seq + awake.len()
                <= u64::MAX,
        params.comms_log_capacity >= 1,
        bounded(s.nodes, params),
    ensures
        ({
            let r = bundle_round::originations(s, fleet, params, round, awake, k);
            &&& r.nodes.len() == s.nodes.len()
            &&& bounded(r.nodes, params)
            &&& forall|i: int|
                0 <= i < s.nodes.len() ==> log_goes_on(s.nodes[i], #[trigger] r.nodes[i], params)
            &&& forall|i: int|
                0 <= i < s.nodes.len() ==> #[trigger] r.nodes[i] == s.nodes[i]
                    || bundle_round::holds_own(r.nodes[i].queue, fleet[i].id)
        }),
    decreases k,
{
    if k > 0 {
        lemma_bounded_originated(s, fleet, params, round, awake, (k - 1) as nat);
        let a = bundle_round::originations(s, fleet, params, round, awake, (k - 1) as nat);
        let b = bundle_round::originations(s, fleet, params, round, awake, k);
        let x = awake[k - 1] as int;
        assert(awake[k - 1] < s.nodes.len());
        assert(a.nodes[x] == s.nodes[x] || bundle_round::holds_own(
            a.nodes[x].queue,
            fleet[x].id,
        ));
        assert(s.nodes[x].bundle_seq + awake.len() <= u64::MAX);
        assert(s.nodes[x].log.len() <= params.comms_log_capacity);
        assert forall|i: int| 0 <= i < s.nodes.len() implies log_goes_on(
            s.nodes[i],
            #[trigger] b.nodes[i],
            params,
        ) by {
            assert(log_goes_on(s.nodes[i], a.nodes[i], params));
        }
        assert forall|i: int| 0 <= i < b.nodes.len() implies (#[trigger] b.nodes[i]).queue.len()
            <= params.relay_queue_capacity && b.nodes[i].ack_queue.len()
            <= params.ack_queue_capacity && b.nodes[i].log.len() <= params.comms_log_capacity by {
            assert(a.nodes[i].queue.len() <= params.relay_queue_capacity);
        }
        assert forall|i: int| 0 <= i < s.nodes.len() implies #[trigger] b.nodes[i] == s.nodes[i]
            || bundle_round::holds_own(b.nodes[i].queue, fleet[i].id) by {
            assert(a.nodes[i] == s.nodes[i] || bundle_round::holds_own(
                a.nodes[i].queue,
                fleet[i].id,
            ));
            if b.nodes[i] != a.nodes[i] {
                let q = b.nodes[i].queue;
                assert(q[q.len() - 1].origin_id == fleet[i].id);
            }
        }
    }
}

/// A round of delivery keeps every queue and log within its bound, whatever is
/// in them. A full log lets go of its oldest record for the newest; no node
/// comes or goes, and none changes its mind or its next slot.
pub proof fn delivery_keeps_its_bounds(
    s: RoundState,
    fleet: Seq<Balloon>,
    topo: Topology,
    params: DvDtnParams,
    awake: Seq<usize>,
    round: u64,
)
    requires
        forall|j: int| 0 <= j < awake.len() ==> (#[trigger] awake[j]) < s.nodes.len(),
        bundle_round::round_fits(s, params, awake, round),
        params.comms_log_capacity >= 1,
        bounded(s.nodes, params),
    ensures
        ({
            let after = bundle_round::bundle_round(s, fleet, topo, params, awake, round).nodes;
            &&& after.len() == s.nodes.len()
            &&& bounded(after, params)
            &&& forall|i: int|
                0 <= i < after.len() ==> {
                    &&& (#[trigger] after[i]).belief == s.nodes[i].belief
                    &&& after[i].next_beacon_round == s.nodes[i].next_beacon_round
                    &&& log_goes_on(s.nodes[i], after[i], params)
                }
        }),
{
    let opened = bundle_round::round_opened(s, topo, params, round);
    bundle_order::lemma_opening(s, topo, params, round);
    let acked = bundle_round::acks_forwarded(opened, fleet, topo, params, awake, round);
    bundle_order::lemma_acks_forwarded(opened, fleet, topo, params, awake, round);
    let used = bundle_round::slots_spent(opened, topo, awake);
    let g0 = Gather { s: acked, moves: Seq::empty() };
    bundle_order::lemma_slots_tame(g0, fleet, topo, params, used, round, awake, awake.len());
    let g = bundle_round::slots_taken(g0, fleet, topo, params, used, round, awake, awake.len());
    bundle_order::lemma_all_tame_on(s.nodes, opened.nodes, acked.nodes, params);
    bundle_order::lemma_all_tame_on(s.nodes, acked.nodes, g.s.nodes, params);
    lemma_tame_bounded(s.nodes, g.s.nodes, params);
    lemma_bounded_all_handed(g.s, fleet, g.moves, params, round, g.moves.len());
    let moved = bundle_round::all_handed(g.s, fleet, g.moves, params, round, g.moves.len());
    bundle_order::lemma_handed_numbers(g.s, fleet, g.moves, params, round, g.moves.len());
    assert forall|i: int| 0 <= i < moved.nodes.len() implies (#[trigger] moved.nodes[i]).bundle_seq
        + awake.len() <= u64::MAX by {
        assert(bundle_order::tame(s.nodes[i], g.s.nodes[i], params));
    }
    lemma_bounded_originated(moved, fleet, params, round, awake, awake.len());
    let after = bundle_round::bundle_round(s, fleet, topo, params, awake, round).nodes;
    assert forall|i: int| 0 <= i < after.len() implies {
        &&& (#[trigger] after[i]).belief == s.nodes[i].belief
        &&& after[i].next_beacon_round == s.nodes[i].next_beacon_round
        &&& log_goes_on(s.nodes[i], after[i], params)
    } by {
        lemma_round(s, fleet, topo, params, awake, round, i);
        assert(bundle_order::tame(s.nodes[i], g.s.nodes[i], params));
        assert(moved.nodes[i].log == g.s.nodes[i].log);
        assert(moved.nodes[i].bundle_seq == g.s.nodes[i].bundle_seq);
        assert(log_goes_on(moved.nodes[i], after[i], params));
    }
}

} // verus!
