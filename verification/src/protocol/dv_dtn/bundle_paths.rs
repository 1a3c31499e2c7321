//! A bundle is one thing in one place: no two bundles share an identity, no
//! path visits a balloon twice, and none is longer than the hop budget.
use vstd::prelude::*;

use crate::balloon::Balloon;
use crate::mesh_adjacency::Topology;

use super::bundle;
use super::bundle::BundleModel;
use super::bundle_order;
use super::bundle_round;
use super::bundle_round::{Gather, Handoff, RoundState};
use super::bundle_stats::Tally;
use super::params::DvDtnParams;
use super::NodeModel;

verus! {

/// How often an identity occurs among what the first `k` nodes hold.
pub open spec fn occurrences(nodes: Seq<NodeModel>, origin_id: u32, seq: u64, k: nat) -> nat
    decreases k,
{
    if k == 0 {
        0
    } else {
        occurrences(nodes, origin_id, seq, (k - 1) as nat) + bundle_order::times(
            nodes[k - 1].queue,
            origin_id,
            seq,
            nodes[k - 1].queue.len(),
        )
    }
}

/// Whether no two bundles share an identity.
pub open spec fn all_distinct(nodes: Seq<NodeModel>) -> bool {
    forall|o: u32, n: u64| #[trigger] occurrences(nodes, o, n, nodes.len()) <= 1
}

/// Whether a path is one that a bundle can have taken.
pub open spec fn path_sound(path: Seq<u32>, params: DvDtnParams) -> bool {
    &&& path.no_duplicates()
    &&& path.len() <= params.bundle_max_hops || path.len() <= 1
}

/// Whether every bundle comes from a node that has numbered past it, and has a
/// sound path that ends where it is held.
pub open spec fn all_sound(nodes: Seq<NodeModel>, params: DvDtnParams) -> bool {
    forall|i: int, j: int|
        0 <= i < nodes.len() && 0 <= j < nodes[i].queue.len() ==> {
            let b = #[trigger] nodes[i].queue[j];
            &&& b.origin_id < nodes.len()
            &&& b.seq < nodes[b.origin_id as int].bundle_seq
            &&& path_sound(b.path, params)
            &&& b.path.len() > 0 && b.path.last() == i
        }
}

/// Whether bundles are things in places.
pub open spec fn well_kept(nodes: Seq<NodeModel>, params: DvDtnParams) -> bool {
    all_distinct(nodes) && all_sound(nodes, params)
}

proof fn lemma_fewer(a: Seq<NodeModel>, b: Seq<NodeModel>, params: DvDtnParams, o: u32, n: u64, k: nat)
    requires
        bundle_order::all_tame(a, b, params),
        k <= a.len(),
    ensures
        occurrences(b, o, n, k) <= occurrences(a, o, n, k),
    decreases k,
{
    if k > 0 {
        lemma_fewer(a, b, params, o, n, (k - 1) as nat);
        assert(bundle_order::tame(a[k - 1], b[k - 1], params));
        assert(bundle_order::times(b[k - 1].queue, o, n, b[k - 1].queue.len())
            <= bundle_order::times(a[k - 1].queue, o, n, a[k - 1].queue.len()));
    }
}

pub(crate) proof fn lemma_tame_distinct(
    a: Seq<NodeModel>,
    b: Seq<NodeModel>,
    params: DvDtnParams,
)
    requires
        bundle_order::all_tame(a, b, params),
        all_distinct(a),
    ensures
        all_distinct(b),
{
    assert forall|o: u32, n: u64| #[trigger] occurrences(b, o, n, b.len()) <= 1 by {
        lemma_fewer(a, b, params, o, n, a.len());
        assert(occurrences(a, o, n, a.len()) <= 1);
    }
}

pub(crate) proof fn lemma_tame_kept(a: Seq<NodeModel>, b: Seq<NodeModel>, params: DvDtnParams)
    requires
        bundle_order::all_tame(a, b, params),
        well_kept(a, params),
    ensures
        well_kept(b, params),
{
    lemma_tame_distinct(a, b, params);
    assert forall|i: int, j: int| 0 <= i < b.len() && 0 <= j < b[i].queue.len() implies {
        let x = #[trigger] b[i].queue[j];
        &&& x.origin_id < b.len()
        &&& x.seq < b[x.origin_id as int].bundle_seq
        &&& path_sound(x.path, params)
        &&& x.path.len() > 0 && x.path.last() == i
    } by {
        assert(bundle_order::tame(a[i], b[i], params));
        let y = a[i].queue.index_of(b[i].queue[j]);
        let x = a[i].queue[y];
        assert(x == b[i].queue[j]);
        assert(bundle_order::tame(a[x.origin_id as int], b[x.origin_id as int], params));
    }
}

proof fn lemma_times_at(q: Seq<BundleModel>, j: int, k: nat)
    requires
        0 <= j < k <= q.len(),
    ensures
        bundle_order::times(q, q[j].origin_id, q[j].seq, k) >= 1,
    decreases k,
{
    if j < k - 1 {
        lemma_times_at(q, j, (k - 1) as nat);
    }
}

proof fn lemma_times_two(q: Seq<BundleModel>, i: int, j: int, k: nat)
    requires
        0 <= i < j < k <= q.len(),
        q[i].origin_id == q[j].origin_id,
        q[i].seq == q[j].seq,
    ensures
        bundle_order::times(q, q[j].origin_id, q[j].seq, k) >= 2,
    decreases k,
{
    if j < k - 1 {
        lemma_times_two(q, i, j, (k - 1) as nat);
    } else {
        lemma_times_at(q, i, (k - 1) as nat);
    }
}

proof fn lemma_occurs_at(nodes: Seq<NodeModel>, i: int, o: u32, n: u64, k: nat)
    requires
        0 <= i < k <= nodes.len(),
    ensures
        occurrences(nodes, o, n, k) >= bundle_order::times(
            nodes[i].queue,
            o,
            n,
            nodes[i].queue.len(),
        ),
    decreases k,
{
    if i < k - 1 {
        lemma_occurs_at(nodes, i, o, n, (k - 1) as nat);
    }
}

proof fn lemma_occurs_in_two(nodes: Seq<NodeModel>, i: int, j: int, o: u32, n: u64, k: nat)
    requires
        0 <= i < j < k <= nodes.len(),
    ensures
        occurrences(nodes, o, n, k) >= bundle_order::times(
            nodes[i].queue,
            o,
            n,
            nodes[i].queue.len(),
        ) + bundle_order::times(nodes[j].queue, o, n, nodes[j].queue.len()),
    decreases k,
{
    if j < k - 1 {
        lemma_occurs_in_two(nodes, i, j, o, n, (k - 1) as nat);
    } else {
        lemma_occurs_at(nodes, i, o, n, (k - 1) as nat);
    }
}

/// Where identities are distinct, two bundles of one identity are the same
/// bundle in the same place.
pub proof fn an_identity_is_one_bundle(
    nodes: Seq<NodeModel>,
    i: int,
    x: int,
    j: int,
    y: int,
)
    requires
        all_distinct(nodes),
        0 <= i < nodes.len(),
        0 <= j < nodes.len(),
        0 <= x < nodes[i].queue.len(),
        0 <= y < nodes[j].queue.len(),
        nodes[i].queue[x].origin_id == nodes[j].queue[y].origin_id,
        nodes[i].queue[x].seq == nodes[j].queue[y].seq,
    ensures
        i == j,
        x == y,
{
    let b = nodes[i].queue[x];
    let (o, n) = (b.origin_id, b.seq);
    assert(occurrences(nodes, o, n, nodes.len()) <= 1);
    lemma_times_at(nodes[i].queue, x, nodes[i].queue.len());
    lemma_times_at(nodes[j].queue, y, nodes[j].queue.len());
    if i < j {
        lemma_occurs_in_two(nodes, i, j, o, n, nodes.len());
    } else if j < i {
        lemma_occurs_in_two(nodes, j, i, o, n, nodes.len());
    } else {
        lemma_occurs_at(nodes, i, o, n, nodes.len());
        if x < y {
            lemma_times_two(nodes[i].queue, x, y, nodes[i].queue.len());
        } else if y < x {
            lemma_times_two(nodes[i].queue, y, x, nodes[i].queue.len());
        }
    }
}

// ---------------------------------------------------------------------------
// Gathering transmissions
// ---------------------------------------------------------------------------

/// Whether a bundle may go to a balloon: it has not been there, and has hops
/// left.
pub(crate) open spec fn may_go(b: BundleModel, to: u32, params: DvDtnParams) -> bool {
    !b.path.contains(to) && b.path.len() < params.bundle_max_hops
}

/// Whether whoever has this identity is with one node and may go to a balloon.
pub(crate) open spec fn bound_for(
    nodes: Seq<NodeModel>,
    from: int,
    to: u32,
    id: (u32, u64),
    params: DvDtnParams,
) -> bool {
    forall|i: int, j: int|
        0 <= i < nodes.len() && 0 <= j < nodes[i].queue.len() && (
        #[trigger] nodes[i].queue[j]).origin_id == id.0 && nodes[i].queue[j].seq == id.1 ==> i
            == from && may_go(nodes[i].queue[j], to, params)
}

proof fn lemma_tame_bound(
    a: Seq<NodeModel>,
    b: Seq<NodeModel>,
    from: int,
    to: u32,
    id: (u32, u64),
    params: DvDtnParams,
)
    requires
        bundle_order::all_tame(a, b, params),
        bound_for(a, from, to, id, params),
    ensures
        bound_for(b, from, to, id, params),
{
    assert forall|i: int, j: int|
        0 <= i < b.len() && 0 <= j < b[i].queue.len() && (#[trigger] b[i].queue[j]).origin_id
            == id.0 && b[i].queue[j].seq == id.1 implies i == from && may_go(
        b[i].queue[j],
        to,
        params,
    ) by {
        assert(bundle_order::tame(a[i], b[i], params));
        let y = a[i].queue.index_of(b[i].queue[j]);
        assert(a[i].queue[y] == b[i].queue[j]);
    }
}

/// Whether every gathered identity is bound for its receiver.
pub(crate) open spec fn all_bound(
    nodes: Seq<NodeModel>,
    moves: Seq<Handoff>,
    params: DvDtnParams,
) -> bool {
    forall|m: int, x: int|
        0 <= m < moves.len() && 0 <= x < moves[m].ids.len() ==> bound_for(
            nodes,
            moves[m].from,
            moves[m].to,
            #[trigger] moves[m].ids[x],
            params,
        )
}

/// Whether an identity is only ever gathered from one node.
pub(crate) open spec fn one_sender(moves: Seq<Handoff>) -> bool {
    forall|m: int, x: int, l: int, y: int|
        0 <= m < moves.len() && 0 <= l < moves.len() && 0 <= x < moves[m].ids.len() && 0 <= y
            < moves[l].ids.len() && #[trigger] moves[m].ids[x] == #[trigger] moves[l].ids[y]
            ==> moves[m].from == moves[l].from
}

/// Whether the `x`th of a list of identities is that of the `x`th bundle whose
/// turn it is, and that bundle may go.
pub(crate) open spec fn pick(
    q: Seq<BundleModel>,
    ids: Seq<(u32, u64)>,
    next: u32,
    params: DvDtnParams,
    x: int,
) -> bool {
    let b = q[bundle::nth_place(q.len() as int, params.queue_discipline, x)];
    ids[x].0 == b.origin_id && ids[x].1 == b.seq && may_go(b, next, params)
}

pub(crate) open spec fn picks(
    q: Seq<BundleModel>,
    ids: Seq<(u32, u64)>,
    next: u32,
    params: DvDtnParams,
) -> bool {
    forall|x: int| 0 <= x < ids.len() ==> #[trigger] pick(q, ids, next, params, x)
}

pub(crate) proof fn lemma_batch(
    s: RoundState,
    i: int,
    next: u32,
    params: DvDtnParams,
    ids: Seq<(u32, u64)>,
)
    requires
        0 <= i < s.nodes.len(),
        all_distinct(s.nodes),
        ids.len() <= s.nodes[i].queue.len(),
        picks(s.nodes[i].queue, ids, next, params),
    ensures
        ({
            let r = bundle_round::batch_filled(s, i, next, params, ids);
            &&& bundle_order::all_tame(s.nodes, r.0.nodes, params)
            &&& r.1.len() <= s.nodes[i].queue.len()
            &&& picks(s.nodes[i].queue, r.1, next, params)
        }),
    decreases params.batch.mesh_hop - ids.len(),
{
    bundle_order::lemma_all_tame_self(s.nodes, params);
    let q = s.nodes[i].queue;
    let k = ids.len();
    let place = bundle::nth_place(q.len() as int, params.queue_discipline, k as int);
    if k >= params.batch.mesh_hop || k >= q.len() {
    } else if q[place].path.contains(next) {
        bundle_order::lemma_dropped_tame(s, i, place, bundle_round::Loss::Loop, params);
    } else if q[place].path.len() >= params.bundle_max_hops {
        bundle_order::lemma_dropped_tame(s, i, place, bundle_round::Loss::HopBudget, params);
    } else {
        let more = ids.push((q[place].origin_id, q[place].seq));
        assert forall|x: int| 0 <= x < more.len() implies #[trigger] pick(
            q,
            more,
            next,
            params,
            x,
        ) by {
            if x < ids.len() {
                assert(pick(q, ids, next, params, x));
                assert(more[x] == ids[x]);
            }
        }
        lemma_batch(s, i, next, params, more);
    }
}

pub(crate) proof fn lemma_batch_bound(
    s: RoundState,
    i: int,
    next: u32,
    params: DvDtnParams,
    after: Seq<NodeModel>,
    ids: Seq<(u32, u64)>,
)
    requires
        0 <= i < s.nodes.len(),
        all_distinct(s.nodes),
        bundle_order::all_tame(s.nodes, after, params),
        ids.len() <= s.nodes[i].queue.len(),
        picks(s.nodes[i].queue, ids, next, params),
    ensures
        forall|x: int|
            0 <= x < ids.len() ==> bound_for(after, i, next, #[trigger] ids[x], params),
        forall|x: int, y: int|
            0 <= x < ids.len() && 0 <= y < ids.len() && x != y ==> #[trigger] ids[x]
                != #[trigger] ids[y],
{
    let q = s.nodes[i].queue;
    assert forall|x: int| 0 <= x < ids.len() implies bound_for(
        after,
        i,
        next,
        #[trigger] ids[x],
        params,
    ) by {
        let p = bundle::nth_place(q.len() as int, params.queue_discipline, x);
        assert(pick(q, ids, next, params, x));
        assert forall|k: int, j: int|
            0 <= k < s.nodes.len() && 0 <= j < s.nodes[k].queue.len() && (
            #[trigger] s.nodes[k].queue[j]).origin_id == ids[x].0 && s.nodes[k].queue[j].seq
                == ids[x].1 implies k == i && may_go(s.nodes[k].queue[j], next, params) by {
            an_identity_is_one_bundle(s.nodes, k, j, i, p);
        }
        lemma_tame_bound(s.nodes, after, i, next, ids[x], params);
    }
    assert forall|x: int, y: int|
        0 <= x < ids.len() && 0 <= y < ids.len() && x != y implies #[trigger] ids[x]
        != #[trigger] ids[y] by {
        let p = bundle::nth_place(q.len() as int, params.queue_discipline, x);
        let r = bundle::nth_place(q.len() as int, params.queue_discipline, y);
        assert(pick(q, ids, next, params, x) && pick(q, ids, next, params, y));
        if ids[x] == ids[y] {
            an_identity_is_one_bundle(s.nodes, i, p, i, r);
        }
    }
}

proof fn lemma_tame_all_bound(
    a: Seq<NodeModel>,
    b: Seq<NodeModel>,
    moves: Seq<Handoff>,
    params: DvDtnParams,
)
    requires
        bundle_order::all_tame(a, b, params),
        all_bound(a, moves, params),
    ensures
        all_bound(b, moves, params),
{
    assert forall|m: int, x: int|
        0 <= m < moves.len() && 0 <= x < moves[m].ids.len() implies bound_for(
        b,
        moves[m].from,
        moves[m].to,
        #[trigger] moves[m].ids[x],
        params,
    ) by {
        lemma_tame_bound(a, b, moves[m].from, moves[m].to, moves[m].ids[x], params);
    }
}

proof fn lemma_slot(
    g: Gather,
    fleet: Seq<Balloon>,
    topo: Topology,
    params: DvDtnParams,
    used: Seq<bool>,
    round: u64,
    i: int,
)
    requires
        0 <= i < g.s.nodes.len(),
        bundle_order::from_known(g.moves, g.s.nodes.len()),
        all_distinct(g.s.nodes),
        all_bound(g.s.nodes, g.moves, params),
        one_sender(g.moves),
    ensures
        ({
            let r = bundle_round::slot_taken(g, fleet, topo, params, used, round, i);
            &&& all_bound(r.s.nodes, r.moves, params)
            &&& one_sender(r.moves)
        }),
{
    let n = g.s.nodes[i];
    let r = bundle_round::slot_taken(g, fleet, topo, params, used, round, i);
    bundle_order::lemma_slot_tame(g, fleet, topo, params, used, round, i);
    lemma_tame_all_bound(g.s.nodes, r.s.nodes, g.moves, params);
    if r.moves.len() > g.moves.len() {
        let belief = n.belief->Some_0;
        let next = belief.next_hop->Some_0;
        let sampled = RoundState {
            tally: Tally {
                belief_hops: super::bundle_stats::bumped(
                    g.s.tally.belief_hops,
                    belief.hop_count as int,
                ),
                ..g.s.tally
            },
            ..g.s
        };
        let slot = RoundState {
            tally: Tally {
                slots_with_bundle: sampled.tally.slots_with_bundle + 1,
                ..sampled.tally
            },
            ..sampled
        };
        let (after, ids) = bundle_round::batch_filled(slot, i, next, params, Seq::empty());
        lemma_batch(slot, i, next, params, Seq::empty());
        lemma_batch_bound(slot, i, next, params, after.nodes, ids);
        let last = g.moves.len() as int;
        assert(r.moves[last].ids == ids && r.moves[last].from == i && r.moves[last].to == next);
        assert(r.s.nodes == after.nodes);
        assert forall|m: int, x: int|
            0 <= m < r.moves.len() && 0 <= x < r.moves[m].ids.len() implies bound_for(
            r.s.nodes,
            r.moves[m].from,
            r.moves[m].to,
            #[trigger] r.moves[m].ids[x],
            params,
        ) by {
            if m < last {
                assert(r.moves[m] == g.moves[m]);
                assert(bound_for(
                    r.s.nodes,
                    g.moves[m].from,
                    g.moves[m].to,
                    g.moves[m].ids[x],
                    params,
                ));
            } else {
                assert(bound_for(after.nodes, i, next, ids[x], params));
            }
        }
        assert forall|m: int, x: int, l: int, y: int|
            0 <= m < r.moves.len() && 0 <= l < r.moves.len() && 0 <= x < r.moves[m].ids.len() && 0
                <= y < r.moves[l].ids.len() && #[trigger] r.moves[m].ids[x]
                == #[trigger] r.moves[l].ids[y] implies r.moves[m].from == r.moves[l].from by {
            if m < last && l < last {
                assert(g.moves[m].ids[x] == g.moves[l].ids[y]);
            } else if m < last {
                assert(pick(slot.nodes[i].queue, ids, next, params, y));
                lemma_bound_here(g, i, params, m, x, ids[y], y);
            } else if l < last {
                assert(pick(slot.nodes[i].queue, ids, next, params, x));
                lemma_bound_here(g, i, params, l, y, ids[x], x);
            }
        }
    } else {
        assert(r.moves =~= g.moves);
    }
}

/// An identity that is bound for somewhere and that this node holds goes from
/// here.
pub(crate) proof fn lemma_bound_here(
    g: Gather,
    i: int,
    params: DvDtnParams,
    m: int,
    x: int,
    id: (u32, u64),
    y: int,
)
    requires
        0 <= i < g.s.nodes.len(),
        all_bound(g.s.nodes, g.moves, params),
        0 <= m < g.moves.len(),
        0 <= x < g.moves[m].ids.len(),
        0 <= y < g.s.nodes[i].queue.len(),
        ({
            let b = g.s.nodes[i].queue[bundle::nth_place(
                g.s.nodes[i].queue.len() as int,
                params.queue_discipline,
                y,
            )];
            id == (b.origin_id, b.seq)
        }),
        g.moves[m].ids[x] == id,
    ensures
        g.moves[m].from == i,
{
    let q = g.s.nodes[i].queue;
    let p = bundle::nth_place(q.len() as int, params.queue_discipline, y);
    assert(bound_for(g.s.nodes, g.moves[m].from, g.moves[m].to, g.moves[m].ids[x], params));
    assert(g.s.nodes[i].queue[p].origin_id == id.0);
}

pub(crate) proof fn lemma_slots(
    g: Gather,
    fleet: Seq<Balloon>,
    topo: Topology,
    params: DvDtnParams,
    used: Seq<bool>,
    round: u64,
    awake: Seq<usize>,
    k: nat,
)
    requires
        k <= awake.len(),
        forall|j: int| 0 <= j < awake.len() ==> (#[trigger] awake[j]) < g.s.nodes.len(),
        g.moves.len() == 0,
        all_distinct(g.s.nodes),
    ensures
        ({
            let r = bundle_round::slots_taken(g, fleet, topo, params, used, round, awake, k);
            &&& bundle_order::all_tame(g.s.nodes, r.s.nodes, params)
            &&& bundle_order::from_known(r.moves, g.s.nodes.len())
            &&& all_distinct(r.s.nodes)
            &&& all_bound(r.s.nodes, r.moves, params)
            &&& one_sender(r.moves)
        }),
    decreases k,
{
    bundle_order::lemma_all_tame_self(g.s.nodes, params);
    if k > 0 {
        lemma_slots(g, fleet, topo, params, used, round, awake, (k - 1) as nat);
        let before = bundle_round::slots_taken(
            g,
            fleet,
            topo,
            params,
            used,
            round,
            awake,
            (k - 1) as nat,
        );
        let after = bundle_round::slots_taken(g, fleet, topo, params, used, round, awake, k);
        let i = awake[k - 1] as int;
        assert(awake[k - 1] < g.s.nodes.len());
        bundle_order::lemma_slot_tame(before, fleet, topo, params, used, round, i);
        bundle_order::lemma_all_tame_on(g.s.nodes, before.s.nodes, after.s.nodes, params);
        lemma_tame_distinct(before.s.nodes, after.s.nodes, params);
        lemma_slot(before, fleet, topo, params, used, round, i);
    }
}

// ---------------------------------------------------------------------------
// Handing on
// ---------------------------------------------------------------------------

proof fn lemma_occurs_update(
    nodes: Seq<NodeModel>,
    i: int,
    m: NodeModel,
    o: u32,
    n: u64,
    k: nat,
)
    requires
        0 <= i < nodes.len(),
        k <= nodes.len(),
    ensures
        occurrences(nodes.update(i, m), o, n, k) == occurrences(nodes, o, n, k) + (if i < k {
            bundle_order::times(m.queue, o, n, m.queue.len()) - bundle_order::times(
                nodes[i].queue,
                o,
                n,
                nodes[i].queue.len(),
            )
        } else {
            0
        }),
    decreases k,
{
    if k > 0 {
        lemma_occurs_update(nodes, i, m, o, n, (k - 1) as nat);
    }
}

proof fn lemma_times_pushed(q: Seq<BundleModel>, b: BundleModel, o: u32, n: u64, k: nat)
    requires
        k <= q.len(),
    ensures
        bundle_order::times(q.push(b), o, n, k) == bundle_order::times(q, o, n, k),
        k == q.len() ==> bundle_order::times(q.push(b), o, n, k + 1) == bundle_order::times(
            q,
            o,
            n,
            k,
        ) + (if b.origin_id == o && b.seq == n {
            1int
        } else {
            0
        }),
    decreases k,
{
    if k > 0 {
        lemma_times_pushed(q, b, o, n, (k - 1) as nat);
    }
}

pub(crate) proof fn lemma_place_is_it(q: Seq<BundleModel>, k: int, origin_id: u32, seq: u64)
    requires
        0 <= k,
    ensures
        bundle::place_of(q, k, origin_id, seq) matches Some(p) ==> k <= p < q.len()
            && q[p].origin_id == origin_id && q[p].seq == seq,
    decreases q.len() - k,
{
    if k < q.len() {
        lemma_place_is_it(q, k + 1, origin_id, seq);
    }
}

/// Whether whatever has this identity here may go there.
pub(crate) open spec fn may_leave(
    nodes: Seq<NodeModel>,
    from: int,
    to: u32,
    id: (u32, u64),
    params: DvDtnParams,
) -> bool {
    &&& 0 <= from < nodes.len()
    &&& forall|j: int|
        0 <= j < nodes[from].queue.len() && (#[trigger] nodes[from].queue[j]).origin_id == id.0
            && nodes[from].queue[j].seq == id.1 ==> may_go(nodes[from].queue[j], to, params)
}

/// Whether that holds of all that is still to be handed on, from a place in the
/// list of transmissions.
pub(crate) open spec fn still_bound(
    nodes: Seq<NodeModel>,
    moves: Seq<Handoff>,
    m: int,
    k: int,
    params: DvDtnParams,
) -> bool {
    forall|l: int, x: int|
        0 <= l < moves.len() && 0 <= x < moves[l].ids.len() && (l > m || l == m && x >= k)
            ==> may_leave(nodes, moves[l].from, moves[l].to, #[trigger] moves[l].ids[x], params)
}

proof fn lemma_one_handed(
    s: RoundState,
    moves: Seq<Handoff>,
    m: int,
    k: int,
    params: DvDtnParams,
    round: u64,
)
    requires
        0 <= m < moves.len(),
        0 <= k < moves[m].ids.len(),
        0 <= moves[m].from < s.nodes.len(),
        well_kept(s.nodes, params),
        one_sender(moves),
        still_bound(s.nodes, moves, m, k, params),
    ensures
        ({
            let r = bundle_round::bundle_handed(
                s,
                moves[m].from,
                moves[m].to,
                moves[m].ids[k],
                params,
                round,
            ).0;
            &&& r.nodes.len() == s.nodes.len()
            &&& well_kept(r.nodes, params)
            &&& still_bound(r.nodes, moves, m, k + 1, params)
        }),
{
    let from = moves[m].from;
    let to = moves[m].to;
    let id = moves[m].ids[k];
    let q = s.nodes[from].queue;
    lemma_place_is_it(q, 0, id.0, id.1);
    let r = bundle_round::bundle_handed(s, from, to, id, params, round).0;
    if bundle_round::has_room(s, to, params) && bundle::place_of(q, 0, id.0, id.1) is Some {
        let p = bundle::place_of(q, 0, id.0, id.1)->Some_0;
        let b = q[p];
        assert(may_leave(s.nodes, from, to, moves[m].ids[k], params));
        assert(s.nodes[from].queue[p].origin_id == id.0);
        assert(may_go(b, to, params));
        assert(b.path.last() == from);
        assert(b.path.contains(b.path.last()));
        assert(to != from);
        let t = to as int;
        let less = NodeModel { queue: q.remove(p), ..s.nodes[from] };
        let taken = s.nodes.update(from, less);
        let moved = BundleModel { path: b.path.push(to), ..b };
        let more = NodeModel { queue: taken[t].queue.push(moved), ..taken[t] };
        let given = taken.update(t, more);
        assert(r.nodes == given);
        assert(taken[t] == s.nodes[t]);
        assert forall|o: u32, n: u64| #[trigger] occurrences(given, o, n, given.len()) <= 1 by {
            lemma_occurs_update(s.nodes, from, less, o, n, s.nodes.len());
            lemma_occurs_update(taken, t, more, o, n, taken.len());
            bundle_order::lemma_times_removed(q, p, o, n, q.len());
            lemma_times_pushed(taken[t].queue, moved, o, n, taken[t].queue.len());
            assert(occurrences(s.nodes, o, n, s.nodes.len()) <= 1);
        }
        assert forall|i: int, j: int|
            0 <= i < given.len() && 0 <= j < given[i].queue.len() implies {
            let x = #[trigger] given[i].queue[j];
            &&& x.origin_id < given.len()
            &&& x.seq < given[x.origin_id as int].bundle_seq
            &&& path_sound(x.path, params)
            &&& x.path.len() > 0 && x.path.last() == i
        } by {
            lemma_kept_places(s.nodes, from, p, t, moved, given, i, j);
            if i == t && j == s.nodes[t].queue.len() {
                assert(path_sound(b.path, params));
                assert(moved.path.no_duplicates()) by {
                    assert forall|u: int, v: int| 0 <= u < v < moved.path.len() implies moved.path[u]
                        != moved.path[v] by {
                        if v == b.path.len() {
                            assert(b.path.contains(b.path[u]));
                        } else {
                            assert(b.path[u] != b.path[v]);
                        }
                    }
                }
            }
        }
        assert forall|l: int, x: int|
            0 <= l < moves.len() && 0 <= x < moves[l].ids.len() && (l > m || l == m && x >= k + 1)
            implies may_leave(
            given,
            moves[l].from,
            moves[l].to,
            #[trigger] moves[l].ids[x],
            params,
        ) by {
            let other = moves[l].ids[x];
            let i = moves[l].from;
            assert(may_leave(s.nodes, moves[l].from, moves[l].to, moves[l].ids[x], params));
            assert forall|j: int|
                0 <= j < given[i].queue.len() && (#[trigger] given[i].queue[j]).origin_id
                    == other.0 && given[i].queue[j].seq == other.1 implies may_go(
                given[i].queue[j],
                moves[l].to,
                params,
            ) by {
                lemma_kept_places(s.nodes, from, p, t, moved, given, i, j);
                if other == moves[m].ids[k] {
                    let last = s.nodes[t].queue.len() as int;
                    assert(given[t].queue[last] == moved);
                    an_identity_is_one_bundle(given, i, j, t, last);
                }
            }
        }
    } else {
        assert(r.nodes == s.nodes);
        assert forall|l: int, x: int|
            0 <= l < moves.len() && 0 <= x < moves[l].ids.len() && (l > m || l == m && x >= k + 1)
            implies may_leave(
            r.nodes,
            moves[l].from,
            moves[l].to,
            #[trigger] moves[l].ids[x],
            params,
        ) by {
            assert(may_leave(s.nodes, moves[l].from, moves[l].to, moves[l].ids[x], params));
        }
    }
}

/// Whatever is held after a handoff is what was handed on, or was held there
/// before.
proof fn lemma_kept_places(
    nodes: Seq<NodeModel>,
    from: int,
    p: int,
    t: int,
    moved: BundleModel,
    given: Seq<NodeModel>,
    i: int,
    j: int,
)
    requires
        0 <= from < nodes.len(),
        0 <= t < nodes.len(),
        t != from,
        0 <= p < nodes[from].queue.len(),
        given == nodes.update(
            from,
            NodeModel { queue: nodes[from].queue.remove(p), ..nodes[from] },
        ).update(t, NodeModel { queue: nodes[t].queue.push(moved), ..nodes[t] }),
        0 <= i < given.len(),
        0 <= j < given[i].queue.len(),
    ensures
        i == t && j == nodes[t].queue.len() ==> given[i].queue[j] == moved,
        !(i == t && j == nodes[t].queue.len()) ==> exists|y: int|
            0 <= y < nodes[i].queue.len() && given[i].queue[j] == #[trigger] nodes[i].queue[y],
        forall|x: int|
            0 <= x < nodes.len() ==> (#[trigger] given[x]).bundle_seq == nodes[x].bundle_seq,
{
    if i == from {
        if j < p {
            assert(given[i].queue[j] == nodes[i].queue[j]);
        } else {
            assert(given[i].queue[j] == nodes[i].queue[j + 1]);
        }
    } else if !(i == t && j == nodes[t].queue.len()) {
        assert(given[i].queue[j] == nodes[i].queue[j]);
    }
}

proof fn lemma_batch_handed(
    s: RoundState,
    moves: Seq<Handoff>,
    m: int,
    params: DvDtnParams,
    round: u64,
    k: nat,
)
    requires
        0 <= m < moves.len(),
        k <= moves[m].ids.len(),
        0 <= moves[m].from < s.nodes.len(),
        well_kept(s.nodes, params),
        one_sender(moves),
        still_bound(s.nodes, moves, m, 0, params),
    ensures
        ({
            let r = bundle_round::bundles_handed(s, moves[m], params, round, k).0;
            &&& r.nodes.len() == s.nodes.len()
            &&& well_kept(r.nodes, params)
            &&& still_bound(r.nodes, moves, m, k as int, params)
        }),
    decreases k,
{
    if k > 0 {
        lemma_batch_handed(s, moves, m, params, round, (k - 1) as nat);
        let before = bundle_round::bundles_handed(s, moves[m], params, round, (k - 1) as nat).0;
        lemma_one_handed(before, moves, m, k - 1, params, round);
    }
}

pub(crate) proof fn lemma_all_handed(
    s: RoundState,
    fleet: Seq<Balloon>,
    moves: Seq<Handoff>,
    params: DvDtnParams,
    round: u64,
    k: nat,
)
    requires
        k <= moves.len(),
        bundle_order::from_known(moves, s.nodes.len()),
        well_kept(s.nodes, params),
        one_sender(moves),
        still_bound(s.nodes, moves, 0, 0, params),
    ensures
        ({
            let r = bundle_round::all_handed(s, fleet, moves, params, round, k);
            &&& r.nodes.len() == s.nodes.len()
            &&& well_kept(r.nodes, params)
            &&& still_bound(r.nodes, moves, k as int, 0, params)
        }),
    decreases k,
{
    if k > 0 {
        lemma_all_handed(s, fleet, moves, params, round, (k - 1) as nat);
        let before = bundle_round::all_handed(s, fleet, moves, params, round, (k - 1) as nat);
        let m = k - 1;
        assert(0 <= moves[m].from < s.nodes.len());
        lemma_batch_handed(before, moves, m, params, round, moves[m].ids.len());
        let batch = bundle_round::bundles_handed(
            before,
            moves[m],
            params,
            round,
            moves[m].ids.len(),
        ).0;
        let after = bundle_round::all_handed(s, fleet, moves, params, round, k);
        assert(after.nodes == batch.nodes);
        assert forall|l: int, x: int|
            0 <= l < moves.len() && 0 <= x < moves[l].ids.len() && (l > k || l == k && x >= 0)
            implies may_leave(
            after.nodes,
            moves[l].from,
            moves[l].to,
            #[trigger] moves[l].ids[x],
            params,
        ) by {
            assert(l > m);
            assert(may_leave(batch.nodes, moves[l].from, moves[l].to, moves[l].ids[x], params));
        }
    }
}

// ---------------------------------------------------------------------------
// Originating
// ---------------------------------------------------------------------------

proof fn lemma_never_numbered(
    nodes: Seq<NodeModel>,
    i: int,
    k: nat,
    params: DvDtnParams,
)
    requires
        all_sound(nodes, params),
        0 <= i < nodes.len(),
        i <= u32::MAX,
        k <= nodes.len(),
    ensures
        occurrences(nodes, i as u32, nodes[i].bundle_seq, k) == 0,
    decreases k,
{
    if k > 0 {
        lemma_never_numbered(nodes, i, (k - 1) as nat, params);
        lemma_never_in_queue(nodes, i, k - 1, nodes[k - 1].queue.len(), params);
    }
}

proof fn lemma_never_in_queue(
    nodes: Seq<NodeModel>,
    i: int,
    x: int,
    k: nat,
    params: DvDtnParams,
)
    requires
        all_sound(nodes, params),
        0 <= i < nodes.len(),
        i <= u32::MAX,
        0 <= x < nodes.len(),
        k <= nodes[x].queue.len(),
    ensures
        bundle_order::times(nodes[x].queue, i as u32, nodes[i].bundle_seq, k) == 0,
    decreases k,
{
    if k > 0 {
        lemma_never_in_queue(nodes, i, x, (k - 1) as nat, params);
        let b = nodes[x].queue[k - 1];
        assert(b.seq < nodes[b.origin_id as int].bundle_seq);
    }
}

proof fn lemma_originations_kept(
    s: RoundState,
    fleet: Seq<Balloon>,
    params: DvDtnParams,
    round: u64,
    awake: Seq<usize>,
    k: nat,
)
    requires
        k <= awake.len(),
        forall|j: int| 0 <= j < awake.len() ==> (#[trigger] awake[j]) < s.nodes.len(),
        fleet.len() == s.nodes.len(),
        forall|i: int| 0 <= i < fleet.len() ==> (#[trigger] fleet[i]).id == i,
        forall|i: int|
            0 <= i < s.nodes.len() ==> (#[trigger] s.nodes[i]).bundle_seq + awake.len()
                <= u64::MAX,
        well_kept(s.nodes, params),
    ensures
        ({
            let r = bundle_round::originations(s, fleet, params, round, awake, k);
            &&& r.nodes.len() == s.nodes.len()
            &&& well_kept(r.nodes, params)
            &&& forall|i: int|
                0 <= i < s.nodes.len() ==> (#[trigger] r.nodes[i]).bundle_seq
                    <= s.nodes[i].bundle_seq + k
        }),
    decreases k,
{
    if k > 0 {
        lemma_originations_kept(s, fleet, params, round, awake, (k - 1) as nat);
        let before = bundle_round::originations(s, fleet, params, round, awake, (k - 1) as nat);
        let after = bundle_round::originations(s, fleet, params, round, awake, k);
        let i = awake[k - 1] as int;
        assert(fleet[i].id == i);
        let n = before.nodes[i];
        assert(n.bundle_seq <= s.nodes[i].bundle_seq + (k - 1));
        assert(s.nodes[i].bundle_seq + awake.len() <= u64::MAX);
        if bundle_round::may_originate(n, fleet[i].id, params, round) {
            let grown = bundle_round::originating(n, fleet[i], params, round);
            let fresh = grown.queue.last();
            assert(grown.queue =~= n.queue.push(fresh));
            assert(after.nodes == before.nodes.update(i, grown));
            lemma_never_numbered(before.nodes, i, before.nodes.len(), params);
            assert forall|o: u32, q: u64| #[trigger]
                occurrences(after.nodes, o, q, after.nodes.len()) <= 1 by {
                lemma_occurs_update(before.nodes, i, grown, o, q, before.nodes.len());
                lemma_times_pushed(n.queue, fresh, o, q, n.queue.len());
                assert(occurrences(before.nodes, o, q, before.nodes.len()) <= 1);
            }
            assert forall|x: int, j: int|
                0 <= x < after.nodes.len() && 0 <= j < after.nodes[x].queue.len() implies {
                let b = #[trigger] after.nodes[x].queue[j];
                &&& b.origin_id < after.nodes.len()
                &&& b.seq < after.nodes[b.origin_id as int].bundle_seq
                &&& path_sound(b.path, params)
                &&& b.path.len() > 0 && b.path.last() == x
            } by {
                if x == i && j == n.queue.len() {
                    assert(after.nodes[x].queue[j] == fresh);
                } else {
                    assert(after.nodes[x].queue[j] == before.nodes[x].queue[j]);
                }
            }
            assert forall|x: int| 0 <= x < s.nodes.len() implies (
            #[trigger] after.nodes[x]).bundle_seq <= s.nodes[x].bundle_seq + k by {
                assert(before.nodes[x].bundle_seq <= s.nodes[x].bundle_seq + (k - 1));
            }
        } else {
            assert forall|x: int| 0 <= x < s.nodes.len() implies (
            #[trigger] after.nodes[x]).bundle_seq <= s.nodes[x].bundle_seq + k by {
                assert(before.nodes[x].bundle_seq <= s.nodes[x].bundle_seq + (k - 1));
            }
        }
    }
}

/// Over a round, no bundle is doubled, none is handed to a balloon that it has
/// been with, and none outlives its hop budget: paths visit every balloon at
/// most once, are no longer than the budget, and end where the bundle is.
pub proof fn bundles_never_loop_or_double(
    s: RoundState,
    fleet: Seq<Balloon>,
    topo: Topology,
    params: DvDtnParams,
    awake: Seq<usize>,
    round: u64,
)
    requires
        well_kept(s.nodes, params),
        fleet.len() == s.nodes.len(),
        forall|i: int| 0 <= i < fleet.len() ==> (#[trigger] fleet[i]).id == i,
        forall|j: int| 0 <= j < awake.len() ==> (#[trigger] awake[j]) < s.nodes.len(),
        bundle_round::round_fits(s, params, awake, round),
    ensures
        well_kept(
            bundle_round::bundle_round(s, fleet, topo, params, awake, round).nodes,
            params,
        ),
{
    let opened = bundle_round::round_opened(s, topo, params, round);
    bundle_order::lemma_opening(s, topo, params, round);
    let acked = bundle_round::acks_forwarded(opened, fleet, topo, params, awake, round);
    bundle_order::lemma_acks_forwarded(opened, fleet, topo, params, awake, round);
    bundle_order::lemma_all_tame_on(s.nodes, opened.nodes, acked.nodes, params);
    lemma_tame_kept(s.nodes, acked.nodes, params);
    let used = bundle_round::slots_spent(opened, topo, awake);
    let g0 = Gather { s: acked, moves: Seq::empty() };
    lemma_slots(g0, fleet, topo, params, used, round, awake, awake.len());
    let g = bundle_round::slots_taken(g0, fleet, topo, params, used, round, awake, awake.len());
    lemma_tame_kept(acked.nodes, g.s.nodes, params);
    assert forall|l: int, x: int|
        0 <= l < g.moves.len() && 0 <= x < g.moves[l].ids.len() && (l > 0 || l == 0 && x >= 0)
        implies may_leave(
        g.s.nodes,
        g.moves[l].from,
        g.moves[l].to,
        #[trigger] g.moves[l].ids[x],
        params,
    ) by {
        assert(bound_for(g.s.nodes, g.moves[l].from, g.moves[l].to, g.moves[l].ids[x], params));
        assert(0 <= g.moves[l].from < g.s.nodes.len());
    }
    lemma_all_handed(g.s, fleet, g.moves, params, round, g.moves.len());
    let moved = bundle_round::all_handed(g.s, fleet, g.moves, params, round, g.moves.len());
    bundle_order::lemma_handed_numbers(g.s, fleet, g.moves, params, round, g.moves.len());
    bundle_order::lemma_all_tame_on(s.nodes, acked.nodes, g.s.nodes, params);
    assert forall|i: int| 0 <= i < moved.nodes.len() implies (#[trigger] moved.nodes[i]).bundle_seq
        + awake.len() <= u64::MAX by {
        assert(bundle_order::tame(s.nodes[i], g.s.nodes[i], params));
    }
    lemma_originations_kept(moved, fleet, params, round, awake, awake.len());
}

} // verus!
