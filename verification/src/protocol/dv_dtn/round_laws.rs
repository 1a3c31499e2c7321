//! What a whole round comes to: who takes part, who hears, and what is remembered.
use vstd::prelude::*;

use crate::balloon::Balloon;
use crate::mesh_adjacency::Topology;
use crate::tower::Tower;

use super::adoption_laws;
use super::beacon::DigestAck;
use super::bundle::AckState;
use super::bundle_order;
use super::bundle_round;
use super::bundle_round::{Gather, Handoff, RoundState};
use super::delivery_laws;
use super::digest_laws;
use super::dv_laws;
use super::dv_round;
use super::dv_round::{Draws, DvModel};
use super::params::{AckPolicy, Discovery, DvDtnParams};
use super::receipt_laws;
use super::NodeModel;

verus! {

/// Balloons out of sight take no part: whatever goes on, their nodes stay as they
/// are.
pub proof fn the_invisible_take_no_part(
    m: DvModel,
    fleet: Seq<Balloon>,
    towers: Seq<Tower>,
    topo: Topology,
    params: DvDtnParams,
    round: u64,
    draws: Draws,
    i: int,
)
    requires
        dv_round::dv_fits(m, fleet, towers, params, round),
        m.nodes.len() <= usize::MAX,
        fleet.len() <= i < m.nodes.len(),
    ensures
        dv_round::dv_round(m, fleet, towers, topo, params, round, draws).m.nodes[i] == m.nodes[i],
{
    dv_laws::lemma_sizes(m, fleet, towers, topo, params, round, draws);
}

// ---------------------------------------------------------------------------
// Who hears
// ---------------------------------------------------------------------------

proof fn lemma_contact_acks(
    s: RoundState,
    i: int,
    tower_id: u32,
    params: DvDtnParams,
    round: u64,
    k: nat,
)
    ensures
        bundle_round::bundles_delivered(s, i, tower_id, params, round, k).tally.acked
            >= s.tally.acked,
    decreases k,
{
    if k > 0 {
        lemma_contact_acks(s, i, tower_id, params, round, (k - 1) as nat);
    }
}

proof fn lemma_batch_acks(
    s: RoundState,
    i: int,
    next: u32,
    params: DvDtnParams,
    ids: Seq<(u32, u64)>,
)
    ensures
        bundle_round::batch_filled(s, i, next, params, ids).0.tally.acked == s.tally.acked,
    decreases params.batch.mesh_hop - ids.len(),
{
    let q = s.nodes[i].queue;
    let k = ids.len();
    let place = super::bundle::nth_place(q.len() as int, params.queue_discipline, k as int);
    if k < params.batch.mesh_hop && k < q.len() && !q[place].path.contains(next)
        && q[place].path.len() < params.bundle_max_hops {
        lemma_batch_acks(s, i, next, params, ids.push((q[place].origin_id, q[place].seq)));
    }
}

proof fn lemma_slot_acks(
    g: Gather,
    fleet: Seq<Balloon>,
    topo: Topology,
    params: DvDtnParams,
    used: Seq<bool>,
    round: u64,
    i: int,
)
    ensures
        bundle_round::slot_taken(g, fleet, topo, params, used, round, i).s.tally.acked
            >= g.s.tally.acked,
{
    let n = g.s.nodes[i];
    if let Some(b) = n.belief {
        let sampled = RoundState {
            tally: super::bundle_stats::Tally {
                belief_hops: super::bundle_stats::bumped(
                    g.s.tally.belief_hops,
                    b.hop_count as int,
                ),
                ..g.s.tally
            },
            ..g.s
        };
        let slot = RoundState {
            tally: super::bundle_stats::Tally {
                slots_with_bundle: sampled.tally.slots_with_bundle + 1,
                ..sampled.tally
            },
            ..sampled
        };
        match b.next_hop {
            None => if let Some(t) = topo.tower_of(i) {
                let k = bundle_round::contact_size(n, params);
                let first = delivery_laws::announced(slot, fleet, i, t, k);
                assert(bundle_round::tower_contact(slot, fleet, i, t, params, round)
                    == bundle_round::bundles_delivered(first, i, t, params, round, k));
                lemma_contact_acks(first, i, t, params, round, k);
            },
            Some(next) => {
                lemma_batch_acks(slot, i, next, params, Seq::empty());
            },
        }
    }
}

proof fn lemma_slots_acks(
    g: Gather,
    fleet: Seq<Balloon>,
    topo: Topology,
    params: DvDtnParams,
    used: Seq<bool>,
    round: u64,
    awake: Seq<usize>,
    k: nat,
)
    ensures
        bundle_round::slots_taken(g, fleet, topo, params, used, round, awake, k).s.tally.acked
            >= g.s.tally.acked,
    decreases k,
{
    if k > 0 {
        lemma_slots_acks(g, fleet, topo, params, used, round, awake, (k - 1) as nat);
        lemma_slot_acks(
            bundle_round::slots_taken(
                g,
                fleet,
                topo,
                params,
                used,
                round,
                awake,
                (k - 1) as nat,
            ),
            fleet,
            topo,
            params,
            used,
            round,
            awake[k - 1] as int,
        );
    }
}

proof fn lemma_batch_handed_acks(
    s: RoundState,
    mv: Handoff,
    params: DvDtnParams,
    round: u64,
    k: nat,
)
    ensures
        bundle_round::bundles_handed(s, mv, params, round, k).0.tally.acked == s.tally.acked,
    decreases k,
{
    if k > 0 {
        lemma_batch_handed_acks(s, mv, params, round, (k - 1) as nat);
    }
}

proof fn lemma_handed_acks(
    s: RoundState,
    fleet: Seq<Balloon>,
    moves: Seq<Handoff>,
    params: DvDtnParams,
    round: u64,
    k: nat,
)
    ensures
        bundle_round::all_handed(s, fleet, moves, params, round, k).tally.acked == s.tally.acked,
    decreases k,
{
    if k > 0 {
        lemma_handed_acks(s, fleet, moves, params, round, (k - 1) as nat);
        lemma_batch_handed_acks(
            bundle_round::all_handed(s, fleet, moves, params, round, (k - 1) as nat),
            moves[k - 1],
            params,
            round,
            moves[k - 1].ids.len(),
        );
    }
}

proof fn lemma_originated_acks(
    s: RoundState,
    fleet: Seq<Balloon>,
    params: DvDtnParams,
    round: u64,
    awake: Seq<usize>,
    k: nat,
)
    ensures
        bundle_round::originations(s, fleet, params, round, awake, k).tally.acked
            == s.tally.acked,
    decreases k,
{
    if k > 0 {
        lemma_originated_acks(s, fleet, params, round, awake, (k - 1) as nat);
    }
}

/// Delivery takes back no ack.
proof fn lemma_acks_only_grow(
    s: RoundState,
    fleet: Seq<Balloon>,
    topo: Topology,
    params: DvDtnParams,
    awake: Seq<usize>,
    round: u64,
)
    ensures
        bundle_round::bundle_round(s, fleet, topo, params, awake, round).tally.acked
            >= s.tally.acked,
{
    let opened = bundle_round::round_opened(s, topo, params, round);
    let ag = bundle_round::acks_taken(
        bundle_round::ack_gather_start(opened.nodes),
        topo,
        awake,
        awake.len(),
    );
    let a = RoundState { nodes: ag.nodes, ..opened };
    receipt_laws::lemma_handed(a, fleet, params, ag.moves, 0, ag.moves.len());
    let b = bundle_round::acks_handed(a, fleet, params, ag.moves, ag.moves.len());
    receipt_laws::lemma_received_queues(b, ag.resolved, round, ag.resolved.len());
    let acked = bundle_round::acks_forwarded(opened, fleet, topo, params, awake, round);
    let used = bundle_round::slots_spent(opened, topo, awake);
    let g0 = Gather { s: acked, moves: Seq::empty() };
    lemma_slots_acks(g0, fleet, topo, params, used, round, awake, awake.len());
    let g = bundle_round::slots_taken(g0, fleet, topo, params, used, round, awake, awake.len());
    lemma_handed_acks(g.s, fleet, g.moves, params, round, g.moves.len());
    let h = bundle_round::all_handed(g.s, fleet, g.moves, params, round, g.moves.len());
    lemma_originated_acks(h, fleet, params, round, awake, awake.len());
}

/// An origin in earshot of a tower that took its bundle is counted as having heard of
/// it within the round, where receipts travel as digests: while the tower emits, the
/// delivery is recent, and it is among the latest that a digest has room for.
pub proof fn an_origin_in_earshot_hears_within_the_round(
    m: DvModel,
    fleet: Seq<Balloon>,
    towers: Seq<Tower>,
    topo: Topology,
    params: DvDtnParams,
    round: u64,
    draws: Draws,
    j: int,
    seq: u64,
    s: int,
    x: int,
)
    requires
        params.discovery == Discovery::Proactive,
        params.ack_policy == AckPolicy::Digest,
        0 <= j < fleet.len() <= m.nodes.len() <= usize::MAX,
        j <= u32::MAX,
        m.nodes[j].outstanding matches Some(o) && o.seq == seq && o.state == AckState::Pending,
        0 <= s < towers.len(),
        adoption_laws::hears_tower(m.towers, towers, topo, round, s, j),
        m.towers.contains_key(towers[s].id),
        digest_laws::recalls(m.towers[towers[s].id].recent, params, round, x, fleet[j].id, seq),
    ensures
        dv_round::dv_round(m, fleet, towers, topo, params, round, draws).m.tally.acked
            > m.tally.acked,
{
    let n = fleet.len() as int;
    let shown = DvModel { nodes: m.nodes.take(n), ..m };
    let f = dv_round::found(shown, fleet, towers, topo, params, round, draws);
    digest_laws::an_origin_hears_of_a_delivery(
        shown.nodes,
        fleet,
        m.towers,
        towers,
        topo,
        params,
        round,
        draws.towers,
        draws.nodes,
        j,
        seq,
    );
    let it = DigestAck { node: j as usize, seq };
    assert(f.acks.contains(it));
    let y = f.acks.index_of(it);
    assert(f.acks[y] == it);
    digest_laws::lemma_round_waits(
        shown.nodes,
        fleet,
        m.towers,
        towers,
        topo,
        params,
        round,
        draws.towers,
        draws.nodes,
        j,
        seq,
    );
    digest_laws::the_told_know(f.m, f.acks, round, f.acks.len(), j, seq);
    let a = dv_round::acknowledged(f.m, f.acks, round, f.acks.len());
    lemma_acks_only_grow(
        dv_round::to_deliver(a),
        fleet,
        topo,
        params,
        f.awake,
        round,
    );
}

/// A round remembers its deliveries: whatever delivery hands to a tower that is known
/// is on that tower's mind afterwards, dated now.
pub proof fn a_round_remembers_its_deliveries(
    m: DvModel,
    fleet: Seq<Balloon>,
    towers: Seq<Tower>,
    topo: Topology,
    params: DvDtnParams,
    round: u64,
    draws: Draws,
    x: int,
)
    requires
        ({
            let shown = DvModel { nodes: m.nodes.take(fleet.len() as int), ..m };
            let f = dv_round::found(shown, fleet, towers, topo, params, round, draws);
            let a = dv_round::acknowledged(f.m, f.acks, round, f.acks.len());
            let taken = bundle_round::bundle_round(
                dv_round::to_deliver(a),
                fleet,
                topo,
                params,
                f.awake,
                round,
            ).deliveries;
            0 <= x < taken.len() && a.towers.contains_key(taken[x].tower_id)
        }),
    ensures
        ({
            let shown = DvModel { nodes: m.nodes.take(fleet.len() as int), ..m };
            let f = dv_round::found(shown, fleet, towers, topo, params, round, draws);
            let a = dv_round::acknowledged(f.m, f.acks, round, f.acks.len());
            let d = bundle_round::bundle_round(
                dv_round::to_deliver(a),
                fleet,
                topo,
                params,
                f.awake,
                round,
            ).deliveries[x];
            let after = dv_round::dv_round(m, fleet, towers, topo, params, round, draws).m.towers;
            after.contains_key(d.tower_id) && after[d.tower_id].recent.contains(
                (d.origin_id, d.seq, round),
            )
        }),
{
    let shown = DvModel { nodes: m.nodes.take(fleet.len() as int), ..m };
    let f = dv_round::found(shown, fleet, towers, topo, params, round, draws);
    let a = dv_round::acknowledged(f.m, f.acks, round, f.acks.len());
    let taken = bundle_round::bundle_round(
        dv_round::to_deliver(a),
        fleet,
        topo,
        params,
        f.awake,
        round,
    ).deliveries;
    digest_laws::a_tower_remembers(
        a.towers,
        taken,
        round,
        params.belief_max_age_rounds,
        taken.len(),
        taken[x].tower_id,
    );
}

/// Every homecoming counts within the round: for each balloon awake that hears the last
/// stop of the ack at the front of its queue, once what is too old is gone, an ack is
/// counted in.
pub proof fn every_homecoming_counts_within_the_round(
    s: RoundState,
    fleet: Seq<Balloon>,
    topo: Topology,
    params: DvDtnParams,
    awake: Seq<usize>,
    round: u64,
)
    requires
        forall|j: int| 0 <= j < awake.len() ==> (#[trigger] awake[j]) < s.nodes.len(),
        awake.no_duplicates(),
    ensures
        bundle_round::bundle_round(s, fleet, topo, params, awake, round).tally.acked
            >= s.tally.acked + delivery_laws::sum_over(
            awake,
            |j: int|
                delivery_laws::one_if(
                    receipt_laws::brings_home(
                        delivery_laws::acks_alive(
                            s.nodes[j].ack_queue,
                            round,
                            params.bundle_max_age_rounds,
                        ),
                        topo.neighbors_of(j),
                    ),
                ),
            awake.len(),
        ),
{
    let opened = bundle_round::round_opened(s, topo, params, round);
    delivery_laws::lemma_opened(s, topo, params, round);
    let acked = bundle_round::acks_forwarded(opened, fleet, topo, params, awake, round);
    receipt_laws::every_homecoming_is_counted(opened, fleet, topo, params, awake, round);
    delivery_laws::lemma_sum_same(
        awake,
        |j: int|
            delivery_laws::one_if(
                receipt_laws::brings_home(opened.nodes[j].ack_queue, topo.neighbors_of(j)),
            ),
        |j: int|
            delivery_laws::one_if(
                receipt_laws::brings_home(
                    delivery_laws::acks_alive(
                        s.nodes[j].ack_queue,
                        round,
                        params.bundle_max_age_rounds,
                    ),
                    topo.neighbors_of(j),
                ),
            ),
        awake.len(),
    );
    let used = bundle_round::slots_spent(opened, topo, awake);
    let g0 = Gather { s: acked, moves: Seq::empty() };
    lemma_slots_acks(g0, fleet, topo, params, used, round, awake, awake.len());
    let g = bundle_round::slots_taken(g0, fleet, topo, params, used, round, awake, awake.len());
    lemma_handed_acks(g.s, fleet, g.moves, params, round, g.moves.len());
    let h = bundle_round::all_handed(g.s, fleet, g.moves, params, round, g.moves.len());
    lemma_originated_acks(h, fleet, params, round, awake, awake.len());
}

// ---------------------------------------------------------------------------
// Who has something of its own
// ---------------------------------------------------------------------------

/// Whether a node holds a bundle of a balloon's own, or has no room.
pub open spec fn own_or_full(n: NodeModel, id: u32, params: DvDtnParams) -> bool {
    ||| n.queue.len() >= params.relay_queue_capacity
    ||| exists|x: int| 0 <= x < n.queue.len() && (#[trigger] n.queue[x]).origin_id == id
}

proof fn lemma_due_have_own(
    s: RoundState,
    fleet: Seq<Balloon>,
    params: DvDtnParams,
    round: u64,
    awake: Seq<usize>,
    k: nat,
    i: int,
)
    requires
        k <= awake.len(),
        forall|j: int| 0 <= j < awake.len() ==> (#[trigger] awake[j]) < s.nodes.len(),
        0 <= i < s.nodes.len(),
        round >= s.nodes[i].next_bundle_round,
    ensures
        ({
            let b = bundle_round::originations(s, fleet, params, round, awake, k).nodes;
            &&& b.len() == s.nodes.len()
            &&& (exists|x: int| 0 <= x < k && #[trigger] awake[x] == i) ==> own_or_full(
                b[i],
                fleet[i].id,
                params,
            )
            &&& (forall|x: int| 0 <= x < k ==> #[trigger] awake[x] != i) ==> b[i] == s.nodes[i]
        }),
    decreases k,
{
    if k > 0 {
        lemma_due_have_own(s, fleet, params, round, awake, (k - 1) as nat, i);
        let a = bundle_round::originations(s, fleet, params, round, awake, (k - 1) as nat).nodes;
        let b = bundle_round::originations(s, fleet, params, round, awake, k).nodes;
        assert(awake[k - 1] < s.nodes.len());
        if exists|x: int| 0 <= x < k && #[trigger] awake[x] == i {
            if exists|x: int| 0 <= x < k - 1 && #[trigger] awake[x] == i {
                assert(own_or_full(a[i], fleet[i].id, params));
                if a[i].queue.len() < params.relay_queue_capacity {
                    let x = choose|x: int|
                        0 <= x < a[i].queue.len() && (#[trigger] a[i].queue[x]).origin_id
                            == fleet[i].id;
                    assert(b[i].queue[x] == a[i].queue[x]);
                }
            } else {
                assert(awake[k - 1] == i);
                assert forall|x: int| 0 <= x < k - 1 implies #[trigger] awake[x] != i by {}
                assert(a[i] == s.nodes[i]);
                let q = a[i].queue;
                if bundle_round::may_originate(a[i], fleet[i].id, params, round) {
                    assert(b[i].queue[q.len() as int].origin_id == fleet[i].id);
                }
            }
        }
    }
}

proof fn lemma_handed_dates(
    s: RoundState,
    fleet: Seq<Balloon>,
    moves: Seq<Handoff>,
    params: DvDtnParams,
    round: u64,
    k: nat,
    i: int,
)
    requires
        k <= moves.len(),
        bundle_order::from_known(moves, s.nodes.len()),
        0 <= i < s.nodes.len(),
    ensures
        ({
            let b = bundle_round::all_handed(s, fleet, moves, params, round, k).nodes;
            b.len() == s.nodes.len() && b[i].next_bundle_round == s.nodes[i].next_bundle_round
        }),
    decreases k,
{
    if k > 0 {
        lemma_handed_dates(s, fleet, moves, params, round, (k - 1) as nat, i);
        assert(0 <= moves[k - 1].from < s.nodes.len());
        lemma_batch_dates(
            bundle_round::all_handed(s, fleet, moves, params, round, (k - 1) as nat),
            moves[k - 1],
            params,
            round,
            moves[k - 1].ids.len(),
            i,
        );
    }
}

proof fn lemma_batch_dates(
    s: RoundState,
    mv: Handoff,
    params: DvDtnParams,
    round: u64,
    k: nat,
    i: int,
)
    requires
        0 <= i < s.nodes.len(),
        0 <= mv.from < s.nodes.len(),
    ensures
        ({
            let b = bundle_round::bundles_handed(s, mv, params, round, k).0.nodes;
            b.len() == s.nodes.len() && b[i].next_bundle_round == s.nodes[i].next_bundle_round
        }),
    decreases k,
{
    if k > 0 {
        lemma_batch_dates(s, mv, params, round, (k - 1) as nat, i);
    }
}

/// Whoever is due has something of its own: a balloon awake whose time has come ends
/// the round with a bundle of its own in hand, or without room for one.
pub proof fn whoever_is_due_has_something_of_its_own(
    s: RoundState,
    fleet: Seq<Balloon>,
    topo: Topology,
    params: DvDtnParams,
    awake: Seq<usize>,
    round: u64,
    i: int,
)
    requires
        forall|j: int| 0 <= j < awake.len() ==> (#[trigger] awake[j]) < s.nodes.len(),
        awake.no_duplicates(),
        0 <= i < s.nodes.len() <= usize::MAX,
        awake.contains(i as usize),
        round >= s.nodes[i].next_bundle_round,
    ensures
        own_or_full(
            bundle_round::bundle_round(s, fleet, topo, params, awake, round).nodes[i],
            fleet[i].id,
            params,
        ),
{
    let opened = bundle_round::round_opened(s, topo, params, round);
    bundle_order::lemma_opening(s, topo, params, round);
    let acked = bundle_round::acks_forwarded(opened, fleet, topo, params, awake, round);
    bundle_order::lemma_acks_forwarded(opened, fleet, topo, params, awake, round);
    let used = bundle_round::slots_spent(opened, topo, awake);
    let g0 = Gather { s: acked, moves: Seq::empty() };
    bundle_order::lemma_slots_tame(g0, fleet, topo, params, used, round, awake, awake.len());
    let g = bundle_round::slots_taken(g0, fleet, topo, params, used, round, awake, awake.len());
    bundle_order::lemma_all_tame_on(s.nodes, opened.nodes, acked.nodes, params);
    bundle_order::lemma_all_tame_on(s.nodes, acked.nodes, g.s.nodes, params);
    assert(bundle_order::tame(s.nodes[i], g.s.nodes[i], params));
    lemma_handed_dates(g.s, fleet, g.moves, params, round, g.moves.len(), i);
    let h = bundle_round::all_handed(g.s, fleet, g.moves, params, round, g.moves.len());
    lemma_due_have_own(h, fleet, params, round, awake, awake.len(), i);
    let x = awake.index_of(i as usize);
    assert(awake[x] == i);
}

} // verus!
