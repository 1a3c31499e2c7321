//! Delivery and belief: moving bundles about changes nobody's mind.
use vstd::prelude::*;

use crate::balloon::Balloon;
use crate::mesh_adjacency::Topology;

use super::beacon::DigestAck;
use super::bundle_order;
use super::bundle_round;
use super::bundle_round::{AckGather, AckMove, Gather, Handoff, RoundState};
use super::dv_round;
use super::dv_round::DvModel;
use super::params::DvDtnParams;
use super::{AckModel, BundleModel, NodeModel};

verus! {

/// Whether two lists of nodes believe the same.
pub open spec fn same_beliefs(a: Seq<NodeModel>, b: Seq<NodeModel>) -> bool {
    &&& a.len() == b.len()
    &&& forall|i: int| 0 <= i < a.len() ==> (#[trigger] b[i]).belief == a[i].belief
}

pub(crate) proof fn lemma_on(a: Seq<NodeModel>, b: Seq<NodeModel>, c: Seq<NodeModel>)
    requires
        same_beliefs(a, b),
        same_beliefs(b, c),
    ensures
        same_beliefs(a, c),
{
    assert forall|i: int| 0 <= i < a.len() implies (#[trigger] c[i]).belief == a[i].belief by {
        assert(b[i].belief == a[i].belief);
    }
}

proof fn lemma_sent_up(nodes: Seq<NodeModel>, list: Seq<BundleModel>, k: nat)
    ensures
        same_beliefs(nodes, bundle_round::all_noted_sent_up(nodes, list, k)),
    decreases k,
{
    if k > 0 {
        lemma_sent_up(nodes, list, (k - 1) as nat);
    }
}

proof fn lemma_lost(nodes: Seq<NodeModel>, list: Seq<AckModel>, k: nat)
    ensures
        same_beliefs(nodes, bundle_round::all_noted_lost(nodes, list, k)),
    decreases k,
{
    if k > 0 {
        lemma_lost(nodes, list, (k - 1) as nat);
    }
}

proof fn lemma_opened(s: RoundState, topo: Topology, params: DvDtnParams, round: u64)
    ensures
        same_beliefs(s.nodes, bundle_round::round_opened(s, topo, params, round).nodes),
{
    let max_age = params.bundle_max_age_rounds;
    let a = bundle_round::bundles_expired(s, round, max_age);
    let late = bundle_round::all_late_bundles(s.nodes, s.nodes.len(), round, max_age);
    let kept = Seq::new(
        s.nodes.len(),
        |i: int| bundle_round::bundles_trimmed(s.nodes[i], round, max_age),
    );
    lemma_sent_up(kept, late, late.len());
    assert(same_beliefs(s.nodes, kept));
    lemma_on(s.nodes, kept, a.nodes);
    let b = bundle_round::acks_expired(a, round, max_age);
    let late = bundle_round::all_late_acks(a.nodes, a.nodes.len(), round, max_age);
    let kept = Seq::new(
        a.nodes.len(),
        |i: int| bundle_round::acks_trimmed(a.nodes[i], round, max_age),
    );
    lemma_lost(kept, late, late.len());
    assert(same_beliefs(a.nodes, kept));
    lemma_on(a.nodes, kept, b.nodes);
    lemma_on(s.nodes, a.nodes, b.nodes);
    let c = bundle_round::waits_ended(b, round, max_age);
    assert(same_beliefs(b.nodes, c.nodes));
    lemma_on(s.nodes, b.nodes, c.nodes);
}

proof fn lemma_acks_taken(g: AckGather, topo: Topology, awake: Seq<usize>, k: nat)
    requires
        k <= awake.len(),
        forall|j: int| 0 <= j < awake.len() ==> (#[trigger] awake[j]) < g.nodes.len(),
    ensures
        same_beliefs(g.nodes, bundle_round::acks_taken(g, topo, awake, k).nodes),
    decreases k,
{
    if k > 0 {
        lemma_acks_taken(g, topo, awake, (k - 1) as nat);
        assert(awake[k - 1] < g.nodes.len());
    }
}

proof fn lemma_acks_handed(
    s: RoundState,
    fleet: Seq<Balloon>,
    params: DvDtnParams,
    moves: Seq<AckMove>,
    k: nat,
)
    ensures
        same_beliefs(s.nodes, bundle_round::acks_handed(s, fleet, params, moves, k).nodes),
    decreases k,
{
    if k > 0 {
        lemma_acks_handed(s, fleet, params, moves, (k - 1) as nat);
    }
}

proof fn lemma_acks_received(s: RoundState, resolved: Seq<(u32, u64)>, round: u64, k: nat)
    ensures
        same_beliefs(s.nodes, bundle_round::acks_received(s, resolved, round, k).nodes),
    decreases k,
{
    if k > 0 {
        lemma_acks_received(s, resolved, round, (k - 1) as nat);
    }
}

proof fn lemma_delivered(
    s: RoundState,
    i: int,
    tower_id: u32,
    params: DvDtnParams,
    round: u64,
    k: nat,
)
    requires
        0 <= i < s.nodes.len(),
    ensures
        same_beliefs(
            s.nodes,
            bundle_round::bundles_delivered(s, i, tower_id, params, round, k).nodes,
        ),
    decreases k,
{
    if k > 0 {
        lemma_delivered(s, i, tower_id, params, round, (k - 1) as nat);
    }
}

proof fn lemma_batch(
    s: RoundState,
    i: int,
    next: u32,
    params: DvDtnParams,
    ids: Seq<(u32, u64)>,
)
    requires
        0 <= i < s.nodes.len(),
    ensures
        same_beliefs(s.nodes, bundle_round::batch_filled(s, i, next, params, ids).0.nodes),
    decreases params.batch.mesh_hop - ids.len(),
{
    let q = s.nodes[i].queue;
    let k = ids.len();
    let place = super::bundle::nth_place(q.len() as int, params.queue_discipline, k as int);
    if k >= params.batch.mesh_hop || k >= q.len() {
    } else if q[place].path.contains(next) {
    } else if q[place].path.len() >= params.bundle_max_hops {
    } else {
        lemma_batch(s, i, next, params, ids.push((q[place].origin_id, q[place].seq)));
    }
}

pub(crate) proof fn lemma_slots(
    g: Gather,
    fleet: Seq<Balloon>,
    topo: Topology,
    params: DvDtnParams,
    used: Seq<bool>,
    round: u64,
    awake: Seq<usize>,
    k: nat,
)
    requires
        k <= awake.len(),
        forall|j: int| 0 <= j < awake.len() ==> (#[trigger] awake[j]) < g.s.nodes.len(),
    ensures
        same_beliefs(
            g.s.nodes,
            bundle_round::slots_taken(g, fleet, topo, params, used, round, awake, k).s.nodes,
        ),
    decreases k,
{
    if k > 0 {
        lemma_slots(g, fleet, topo, params, used, round, awake, (k - 1) as nat);
        let before = bundle_round::slots_taken(
            g,
            fleet,
            topo,
            params,
            used,
            round,
            awake,
            (k - 1) as nat,
        );
        let i = awake[k - 1] as int;
        assert(awake[k - 1] < g.s.nodes.len());
        lemma_slot(before, fleet, topo, params, used, round, i);
        lemma_on(
            g.s.nodes,
            before.s.nodes,
            bundle_round::slot_taken(before, fleet, topo, params, used, round, i).s.nodes,
        );
    }
}

proof fn lemma_slot(
    g: Gather,
    fleet: Seq<Balloon>,
    topo: Topology,
    params: DvDtnParams,
    used: Seq<bool>,
    round: u64,
    i: int,
)
    requires
        0 <= i < g.s.nodes.len(),
    ensures
        same_beliefs(
            g.s.nodes,
            bundle_round::slot_taken(g, fleet, topo, params, used, round, i).s.nodes,
        ),
{
    assert forall|s: RoundState, tower_id: u32|
        s.nodes == g.s.nodes implies #[trigger] bundle_round::tower_contact(
        s,
        fleet,
        i,
        tower_id,
        params,
        round,
    ).nodes.len() == s.nodes.len() && same_beliefs(
        s.nodes,
        bundle_round::tower_contact(s, fleet, i, tower_id, params, round).nodes,
    ) by {
        lemma_contact(s, fleet, i, tower_id, params, round);
    }
    assert forall|s: RoundState, next: u32|
        s.nodes == g.s.nodes implies same_beliefs(
        s.nodes,
        (#[trigger] bundle_round::batch_filled(s, i, next, params, Seq::empty())).0.nodes,
    ) by {
        lemma_batch(s, i, next, params, Seq::empty());
    }
}

proof fn lemma_contact(
    s: RoundState,
    fleet: Seq<Balloon>,
    i: int,
    tower_id: u32,
    params: DvDtnParams,
    round: u64,
)
    requires
        0 <= i < s.nodes.len(),
    ensures
        same_beliefs(
            s.nodes,
            bundle_round::tower_contact(s, fleet, i, tower_id, params, round).nodes,
        ),
{
    let n = bundle_round::contact_size(s.nodes[i], params);
    assert forall|a: RoundState| a.nodes == s.nodes implies same_beliefs(
        s.nodes,
        (#[trigger] bundle_round::bundles_delivered(a, i, tower_id, params, round, n)).nodes,
    ) by {
        lemma_delivered(a, i, tower_id, params, round, n);
    }
}

proof fn lemma_handed(s: RoundState, mv: Handoff, params: DvDtnParams, round: u64, k: nat)
    requires
        0 <= mv.from < s.nodes.len(),
    ensures
        same_beliefs(s.nodes, bundle_round::bundles_handed(s, mv, params, round, k).0.nodes),
    decreases k,
{
    if k > 0 {
        lemma_handed(s, mv, params, round, (k - 1) as nat);
    }
}

proof fn lemma_all_handed(
    s: RoundState,
    fleet: Seq<Balloon>,
    moves: Seq<Handoff>,
    params: DvDtnParams,
    round: u64,
    k: nat,
)
    requires
        bundle_order::from_known(moves, s.nodes.len()),
        k <= moves.len(),
    ensures
        same_beliefs(
            s.nodes,
            bundle_round::all_handed(s, fleet, moves, params, round, k).nodes,
        ),
    decreases k,
{
    if k > 0 {
        lemma_all_handed(s, fleet, moves, params, round, (k - 1) as nat);
        let before = bundle_round::all_handed(s, fleet, moves, params, round, (k - 1) as nat);
        lemma_handed(before, moves[k - 1], params, round, moves[k - 1].ids.len());
        lemma_on(
            s.nodes,
            before.nodes,
            bundle_round::handed(before, fleet, moves[k - 1], params, round).nodes,
        );
    }
}

proof fn lemma_originations(
    s: RoundState,
    fleet: Seq<Balloon>,
    params: DvDtnParams,
    round: u64,
    awake: Seq<usize>,
    k: nat,
)
    requires
        k <= awake.len(),
        forall|j: int| 0 <= j < awake.len() ==> (#[trigger] awake[j]) < s.nodes.len(),
    ensures
        same_beliefs(
            s.nodes,
            bundle_round::originations(s, fleet, params, round, awake, k).nodes,
        ),
    decreases k,
{
    if k > 0 {
        lemma_originations(s, fleet, params, round, awake, (k - 1) as nat);
        assert(awake[k - 1] < s.nodes.len());
    }
}

/// What origins are told changes nobody's mind either.
pub(crate) proof fn lemma_told(m: DvModel, acks: Seq<DigestAck>, round: u64, k: nat)
    requires
        k <= acks.len(),
        forall|j: int| 0 <= j < acks.len() ==> (#[trigger] acks[j]).node < m.nodes.len(),
    ensures
        same_beliefs(m.nodes, dv_round::acknowledged(m, acks, round, k).nodes),
    decreases k,
{
    if k > 0 {
        lemma_told(m, acks, round, (k - 1) as nat);
        assert(acks[k - 1].node < m.nodes.len());
    }
}

/// Up to the bundles' turn nobody's mind has changed.
pub(crate) proof fn lemma_acked(
    s: RoundState,
    fleet: Seq<Balloon>,
    topo: Topology,
    params: DvDtnParams,
    awake: Seq<usize>,
    round: u64,
)
    requires
        forall|j: int| 0 <= j < awake.len() ==> (#[trigger] awake[j]) < s.nodes.len(),
    ensures
        same_beliefs(
            s.nodes,
            bundle_round::acks_forwarded(
                bundle_round::round_opened(s, topo, params, round),
                fleet,
                topo,
                params,
                awake,
                round,
            ).nodes,
        ),
{
    let opened = bundle_round::round_opened(s, topo, params, round);
    lemma_opened(s, topo, params, round);
    let ag0 = bundle_round::ack_gather_start(opened.nodes);
    let ag = bundle_round::acks_taken(ag0, topo, awake, awake.len());
    lemma_acks_taken(ag0, topo, awake, awake.len());
    let a = RoundState { nodes: ag.nodes, ..opened };
    lemma_acks_handed(a, fleet, params, ag.moves, ag.moves.len());
    let b = bundle_round::acks_handed(a, fleet, params, ag.moves, ag.moves.len());
    lemma_acks_received(b, ag.resolved, round, ag.resolved.len());
    let acked = bundle_round::acks_forwarded(opened, fleet, topo, params, awake, round);
    lemma_on(s.nodes, opened.nodes, ag.nodes);
    lemma_on(s.nodes, ag.nodes, b.nodes);
    lemma_on(s.nodes, b.nodes, acked.nodes);
}

/// Delivery changes nobody's mind: whatever moves, every node believes after a
/// round of delivery what it believed before.
pub proof fn delivery_moves_no_beliefs(
    s: RoundState,
    fleet: Seq<Balloon>,
    topo: Topology,
    params: DvDtnParams,
    awake: Seq<usize>,
    round: u64,
)
    requires
        forall|j: int| 0 <= j < awake.len() ==> (#[trigger] awake[j]) < s.nodes.len(),
    ensures
        same_beliefs(
            s.nodes,
            bundle_round::bundle_round(s, fleet, topo, params, awake, round).nodes,
        ),
{
    let opened = bundle_round::round_opened(s, topo, params, round);
    let acked = bundle_round::acks_forwarded(opened, fleet, topo, params, awake, round);
    lemma_acked(s, fleet, topo, params, awake, round);
    let used = bundle_round::slots_spent(opened, topo, awake);
    let g0 = Gather { s: acked, moves: Seq::empty() };
    lemma_slots(g0, fleet, topo, params, used, round, awake, awake.len());
    bundle_order::lemma_slots_tame(g0, fleet, topo, params, used, round, awake, awake.len());
    let g = bundle_round::slots_taken(g0, fleet, topo, params, used, round, awake, awake.len());
    lemma_on(s.nodes, acked.nodes, g.s.nodes);
    lemma_all_handed(g.s, fleet, g.moves, params, round, g.moves.len());
    let moved = bundle_round::bundles_forwarded(acked, fleet, topo, params, used, awake, round);
    lemma_on(s.nodes, g.s.nodes, moved.nodes);
    lemma_originations(moved, fleet, params, round, awake, awake.len());
    lemma_on(
        s.nodes,
        moved.nodes,
        bundle_round::bundle_round(s, fleet, topo, params, awake, round).nodes,
    );
}

} // verus!
