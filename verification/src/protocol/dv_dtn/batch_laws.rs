//! What goes in one transmission.
use vstd::prelude::*;

use crate::balloon::Balloon;
use crate::mesh_adjacency::Topology;

use super::bundle::BundleModel;
use super::bundle_round;
use super::bundle_round::{Gather, RoundState};
use super::bundle_stats::Tally;
use super::params::DvDtnParams;
use super::receipt_laws;

verus! {

/// Whether a bundle may go to a balloon: it has not been there, and has hops left.
pub open spec fn may_go(b: BundleModel, next: u32, params: DvDtnParams) -> bool {
    !b.path.contains(next) && b.path.len() < params.bundle_max_hops
}

/// Whether these are the identities of the bundles whose turn it is first, all of
/// which may go.
pub open spec fn in_turn(
    q: Seq<BundleModel>,
    ids: Seq<(u32, u64)>,
    next: u32,
    params: DvDtnParams,
) -> bool {
    &&& ids.len() <= q.len()
    &&& ids.len() <= params.batch.mesh_hop
    &&& forall|x: int| 0 <= x < ids.len() ==> #[trigger] goes_at(q, ids, next, params, x)
}

/// Whether a place in a list has the identity of the bundle whose turn that is, and
/// that bundle may go.
pub open spec fn goes_at(
    q: Seq<BundleModel>,
    ids: Seq<(u32, u64)>,
    next: u32,
    params: DvDtnParams,
    x: int,
) -> bool {
    let b = receipt_laws::turn(q, params.queue_discipline, x);
    ids[x] == (b.origin_id, b.seq) && may_go(b, next, params)
}

proof fn lemma_filled(
    s: RoundState,
    i: int,
    next: u32,
    params: DvDtnParams,
    ids: Seq<(u32, u64)>,
)
    requires
        0 <= i < s.nodes.len(),
        in_turn(s.nodes[i].queue, ids, next, params),
    ensures
        ({
            let r = bundle_round::batch_filled(s, i, next, params, ids);
            let q = s.nodes[i].queue;
            let n = r.1.len();
            let cut = n < params.batch.mesh_hop && n < q.len();
            let b = receipt_laws::turn(q, params.queue_discipline, n as int);
            &&& in_turn(q, r.1, next, params)
            &&& !cut ==> r.0 == s
            &&& cut ==> {
                &&& !may_go(b, next, params)
                &&& r.0.nodes[i].queue.len() == q.len() - 1
                &&& b.path.contains(next) ==> r.0.tally.dropped_loop == s.tally.dropped_loop + 1
                    && r.0.tally.dropped_ttl == s.tally.dropped_ttl
                &&& !b.path.contains(next) ==> r.0.tally.dropped_ttl == s.tally.dropped_ttl + 1
                    && r.0.tally.dropped_loop == s.tally.dropped_loop
            }
        }),
    decreases params.batch.mesh_hop - ids.len(),
{
    let q = s.nodes[i].queue;
    let k = ids.len();
    if k < params.batch.mesh_hop && k < q.len() {
        let b = receipt_laws::turn(q, params.queue_discipline, k as int);
        if may_go(b, next, params) {
            let more = ids.push((b.origin_id, b.seq));
            assert forall|x: int| 0 <= x < more.len() implies #[trigger] goes_at(
                q,
                more,
                next,
                params,
                x,
            ) by {
                if x < k {
                    assert(goes_at(q, ids, next, params, x));
                    assert(more[x] == ids[x]);
                }
            }
            lemma_filled(s, i, next, params, more);
        }
    }
}

/// A transmission takes bundles in turn, as many as a hop takes, until there are no
/// more or there is one that may not go; that one is destroyed, for having been
/// there before or else for want of hops, and ends it.
pub proof fn a_transmission_takes_what_may_go(
    g: Gather,
    fleet: Seq<Balloon>,
    topo: Topology,
    params: DvDtnParams,
    used: Seq<bool>,
    round: u64,
    i: int,
    next: u32,
)
    requires
        0 <= i < g.s.nodes.len(),
        !used[i],
        g.s.nodes[i].belief matches Some(b) && b.next_hop == Some(next),
        topo.neighbors_of(i).contains(next),
        g.s.nodes[i].queue.len() > 0,
    ensures
        ({
            let q = g.s.nodes[i].queue;
            let r = bundle_round::slot_taken(g, fleet, topo, params, used, round, i);
            let ids = if r.moves.len() > g.moves.len() {
                r.moves.last().ids
            } else {
                Seq::empty()
            };
            let n = ids.len();
            let cut = n < params.batch.mesh_hop && n < q.len();
            let b = receipt_laws::turn(q, params.queue_discipline, n as int);
            &&& r.moves.len() > g.moves.len() ==> r.moves.len() == g.moves.len() + 1
                && r.moves.last().from == i && r.moves.last().to == next
            &&& in_turn(q, ids, next, params)
            &&& !cut ==> r.s.nodes == g.s.nodes && r.s.tally.dropped_loop
                == g.s.tally.dropped_loop && r.s.tally.dropped_ttl == g.s.tally.dropped_ttl
            &&& cut ==> {
                &&& !may_go(b, next, params)
                &&& r.s.nodes[i].queue.len() == q.len() - 1
                &&& b.path.contains(next) ==> r.s.tally.dropped_loop == g.s.tally.dropped_loop + 1
                    && r.s.tally.dropped_ttl == g.s.tally.dropped_ttl
                &&& !b.path.contains(next) ==> r.s.tally.dropped_ttl == g.s.tally.dropped_ttl + 1
                    && r.s.tally.dropped_loop == g.s.tally.dropped_loop
            }
        }),
{
    let belief = g.s.nodes[i].belief->Some_0;
    let sampled = RoundState {
        tally: Tally {
            belief_hops: super::bundle_stats::bumped(
                g.s.tally.belief_hops,
                belief.hop_count as int,
            ),
            ..g.s.tally
        },
        ..g.s
    };
    let slot = RoundState {
        tally: Tally {
            slots_with_bundle: sampled.tally.slots_with_bundle + 1,
            ..sampled.tally
        },
        ..sampled
    };
    lemma_filled(slot, i, next, params, Seq::empty());
}

} // verus!
