//! What is measured, and when: hops, latencies and wake slots.
use vstd::prelude::*;

use crate::balloon::Balloon;
use crate::mesh_adjacency::Topology;
use crate::protocol::stats::LatencyStats;

use super::bundle::BundleModel;
use super::bundle_round;
use super::bundle_round::{Gather, RoundState};
use super::params::DvDtnParams;
use super::receipt_laws;

verus! {

/// The bucket that a bundle's hops count in: everything past the last counts in
/// the last.
pub open spec fn bucket(b: BundleModel) -> int {
    if b.path.len() == 0 {
        0
    } else if b.path.len() <= 32 {
        b.path.len() - 1
    } else {
        31
    }
}

/// Whether a histogram has grown by one, in one bucket.
pub open spec fn one_more_in(a: Seq<u64>, b: Seq<u64>, k: int) -> bool {
    &&& b.len() == a.len()
    &&& b[k] == a[k] + 1
    &&& forall|j: int| 0 <= j < a.len() && j != k ==> #[trigger] b[j] == a[j]
}

/// Whether statistics have grown by one sample: the rounds from one to another.
pub open spec fn one_more_sample(a: LatencyStats, b: LatencyStats, from: u64, to: u64) -> bool {
    &&& b.count == a.count + 1
    &&& b.sum == a.sum + (if to >= from {
        to - from
    } else {
        0
    })
}

/// Whether statistics have room for one more sample.
pub open spec fn has_room(a: LatencyStats, to: u64) -> bool {
    a.count < u64::MAX && a.sum + to <= u64::MAX
}

/// A delivery is measured: it counts once, by the hops its bundle made and by the
/// rounds since its bundle was made; and as a first hop only where it was one.
pub proof fn a_delivery_is_measured(
    s: RoundState,
    i: int,
    tower_id: u32,
    params: DvDtnParams,
    round: u64,
)
    requires
        0 <= i < s.nodes.len(),
        s.nodes[i].queue.len() > 0,
        s.tally.delivered_hops.len() == 32,
        forall|k: int| 0 <= k < 32 ==> #[trigger] s.tally.delivered_hops[k] < u64::MAX,
        has_room(s.tally.delivery_latency, round),
        has_room(s.tally.first_hop_latency, round),
    ensures
        ({
            let c = receipt_laws::turn(s.nodes[i].queue, params.queue_discipline, 0);
            let t = s.tally;
            let u = bundle_round::bundle_delivered(s, i, tower_id, params, round).tally;
            &&& u.delivered == t.delivered + 1
            &&& one_more_in(t.delivered_hops, u.delivered_hops, bucket(c))
            &&& one_more_sample(
                t.delivery_latency,
                u.delivery_latency,
                c.created_at_round,
                round,
            )
            &&& c.path.len() <= 1 ==> one_more_sample(
                t.first_hop_latency,
                u.first_hop_latency,
                c.created_at_round,
                round,
            )
            &&& c.path.len() > 1 ==> u.first_hop_latency == t.first_hop_latency
            &&& u.satellite_hops == t.satellite_hops
            &&& u.belief_hops == t.belief_hops
        }),
{
}

/// A handoff is measured: as a first hop only where it was one. A refusal counts as
/// that, and changes nothing else.
pub proof fn a_handoff_is_measured(
    s: RoundState,
    from: int,
    to: u32,
    b: BundleModel,
    params: DvDtnParams,
    round: u64,
    p: int,
)
    requires
        0 <= from < s.nodes.len(),
        0 <= p < s.nodes[from].queue.len(),
        s.nodes[from].queue[p] == b,
        forall|x: int|
            0 <= x < p ==> (#[trigger] s.nodes[from].queue[x]).origin_id != b.origin_id
                || s.nodes[from].queue[x].seq != b.seq,
        has_room(s.tally.first_hop_latency, round),
    ensures
        ({
            let (r, did) = bundle_round::bundle_handed(
                s,
                from,
                to,
                (b.origin_id, b.seq),
                params,
                round,
            );
            let room = to < s.nodes.len() && s.nodes[to as int].queue.len()
                < params.relay_queue_capacity;
            &&& did == room
            &&& !room ==> r.nodes == s.nodes && r.tally.blocked == s.tally.blocked + 1
                && r.tally.first_hop_latency == s.tally.first_hop_latency
            &&& room ==> {
                &&& r.tally.blocked == s.tally.blocked
                &&& b.path.len() <= 1 ==> one_more_sample(
                    s.tally.first_hop_latency,
                    r.tally.first_hop_latency,
                    b.created_at_round,
                    round,
                )
                &&& b.path.len() > 1 ==> r.tally.first_hop_latency == s.tally.first_hop_latency
            }
        }),
{
    lemma_place(s.nodes[from].queue, 0, p);
}

proof fn lemma_place(q: Seq<BundleModel>, k: int, p: int)
    requires
        0 <= k <= p < q.len(),
        forall|x: int|
            0 <= x < p ==> (#[trigger] q[x]).origin_id != q[p].origin_id || q[x].seq != q[p].seq,
    ensures
        super::bundle::place_of(q, k, q[p].origin_id, q[p].seq) == Some(p),
    decreases p - k,
{
    if k < p {
        assert(q[k].origin_id != q[p].origin_id || q[k].seq != q[p].seq);
        lemma_place(q, k + 1, p);
    }
}

/// An ack is measured: it counts once, and where its origin waited for it, by the
/// rounds since the bundle was made.
pub proof fn an_ack_is_measured(s: RoundState, origin_id: u32, seq: u64, round: u64)
    requires
        origin_id < s.nodes.len(),
        has_room(s.tally.ack_latency, round),
    ensures
        ({
            let n = s.nodes[origin_id as int];
            let u = bundle_round::ack_received(s, origin_id, seq, round).tally;
            &&& u.acked == s.tally.acked + 1
            &&& receipt_laws::waits_for(n, seq) ==> one_more_sample(
                s.tally.ack_latency,
                u.ack_latency,
                n.outstanding->Some_0.created_at_round,
                round,
            )
            &&& !receipt_laws::waits_for(n, seq) ==> u.ack_latency == s.tally.ack_latency
            &&& u.ack_lost == s.tally.ack_lost
        }),
{
}

/// How many of the first `k` of a list count in a bucket.
pub open spec fn in_bucket(list: Seq<BundleModel>, h: int, k: nat) -> nat
    decreases k,
{
    if k == 0 {
        0
    } else {
        in_bucket(list, h, (k - 1) as nat) + (if bucket(list[k - 1]) == h {
            1nat
        } else {
            0
        })
    }
}

proof fn lemma_hops(hist: Seq<u64>, list: Seq<BundleModel>, k: nat, h: int)
    requires
        hist.len() == 32,
        k <= list.len(),
        0 <= h < 32,
        forall|j: int| 0 <= j < 32 ==> #[trigger] hist[j] + list.len() <= u64::MAX,
    ensures
        bundle_round::hops_counted(hist, list, k).len() == 32,
        bundle_round::hops_counted(hist, list, k)[h] == hist[h] + in_bucket(list, h, k),
        in_bucket(list, h, k) <= k,
    decreases k,
{
    if k > 0 {
        lemma_hops(hist, list, (k - 1) as nat, h);
        assert(hist[h] + list.len() <= u64::MAX);
    }
}

/// What goes up is measured: in every bucket as many bundles as made that many hops.
pub proof fn what_goes_up_is_measured(s: RoundState, round: u64, max_age: u64, h: int)
    requires
        s.tally.satellite_hops.len() == 32,
        0 <= h < 32,
        forall|j: int|
            0 <= j < 32 ==> #[trigger] s.tally.satellite_hops[j] + bundle_round::all_late_bundles(
                s.nodes,
                s.nodes.len(),
                round,
                max_age,
            ).len() <= u64::MAX,
    ensures
        ({
            let late = bundle_round::all_late_bundles(s.nodes, s.nodes.len(), round, max_age);
            let u = bundle_round::bundles_expired(s, round, max_age).tally;
            &&& u.satellite == s.tally.satellite + late.len()
            &&& u.satellite_hops[h] == s.tally.satellite_hops[h] + in_bucket(
                late,
                h,
                late.len(),
            )
        }),
{
    let late = bundle_round::all_late_bundles(s.nodes, s.nodes.len(), round, max_age);
    lemma_hops(s.tally.satellite_hops, late, late.len(), h);
}

/// A wake slot is counted: as one with something in hand where there is something,
/// unless it went to an ack; and wherever there is a belief, by how far that says the
/// tower is.
pub proof fn a_slot_is_counted(
    g: Gather,
    fleet: Seq<Balloon>,
    topo: Topology,
    params: DvDtnParams,
    used: Seq<bool>,
    round: u64,
    i: int,
)
    requires
        0 <= i < g.s.nodes.len(),
        g.s.tally.belief_hops.len() == 32,
        forall|k: int| 0 <= k < 32 ==> #[trigger] g.s.tally.belief_hops[k] < u64::MAX,
    ensures
        ({
            let n = g.s.nodes[i];
            let t = g.s.tally;
            let u = bundle_round::slot_taken(g, fleet, topo, params, used, round, i).s.tally;
            let on_ack = used[i] && (n.belief matches Some(b) && b.next_hop is Some);
            &&& n.queue.len() == 0 || on_ack ==> u.slots_with_bundle == t.slots_with_bundle
            &&& n.queue.len() > 0 && !on_ack ==> u.slots_with_bundle == t.slots_with_bundle + 1
            &&& n.belief is None ==> u.belief_hops == t.belief_hops
            &&& n.belief matches Some(b) ==> one_more_in(
                t.belief_hops,
                u.belief_hops,
                if b.hop_count < 31 {
                    b.hop_count as int
                } else {
                    31
                },
            )
        }),
{
    let n = g.s.nodes[i];
    if let Some(b) = n.belief {
        let sampled = RoundState {
            tally: super::bundle_stats::Tally {
                belief_hops: super::bundle_stats::bumped(
                    g.s.tally.belief_hops,
                    b.hop_count as int,
                ),
                ..g.s.tally
            },
            ..g.s
        };
        let slot = RoundState {
            tally: super::bundle_stats::Tally {
                slots_with_bundle: sampled.tally.slots_with_bundle + 1,
                ..sampled.tally
            },
            ..sampled
        };
        match b.next_hop {
            None => if let Some(t) = topo.tower_of(i) {
                let k = bundle_round::contact_size(n, params);
                let first = super::delivery_laws::announced(slot, fleet, i, t, k);
                assert(bundle_round::tower_contact(slot, fleet, i, t, params, round)
                    == bundle_round::bundles_delivered(first, i, t, params, round, k));
                lemma_contact_counts(first, i, t, params, round, k);
            },
            Some(next) => {
                lemma_batch_counts(slot, i, next, params, Seq::empty());
            },
        }
    }
}

proof fn lemma_contact_counts(
    s: RoundState,
    i: int,
    tower_id: u32,
    params: DvDtnParams,
    round: u64,
    k: nat,
)
    ensures
        ({
            let u = bundle_round::bundles_delivered(s, i, tower_id, params, round, k).tally;
            &&& u.slots_with_bundle == s.tally.slots_with_bundle
            &&& u.belief_hops == s.tally.belief_hops
        }),
    decreases k,
{
    if k > 0 {
        lemma_contact_counts(s, i, tower_id, params, round, (k - 1) as nat);
    }
}

proof fn lemma_batch_counts(
    s: RoundState,
    i: int,
    next: u32,
    params: DvDtnParams,
    ids: Seq<(u32, u64)>,
)
    ensures
        ({
            let u = bundle_round::batch_filled(s, i, next, params, ids).0.tally;
            &&& u.slots_with_bundle == s.tally.slots_with_bundle
            &&& u.belief_hops == s.tally.belief_hops
        }),
    decreases params.batch.mesh_hop - ids.len(),
{
    let q = s.nodes[i].queue;
    let k = ids.len();
    let place = super::bundle::nth_place(q.len() as int, params.queue_discipline, k as int);
    if k < params.batch.mesh_hop && k < q.len() && !q[place].path.contains(next)
        && q[place].path.len() < params.bundle_max_hops {
        lemma_batch_counts(
            s,
            i,
            next,
            params,
            ids.push((q[place].origin_id, q[place].seq)),
        );
    }
}

} // verus!
