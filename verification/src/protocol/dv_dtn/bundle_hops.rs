//! How far a bundle gets in a round: nowhere, or one hop along the belief of
//! whoever holds it.
use vstd::prelude::*;

use crate::balloon::Balloon;
use crate::mesh_adjacency::Topology;

use super::belief_laws;
use super::bundle;
use super::bundle::BundleModel;
use super::bundle_order;
use super::bundle_paths;
use super::bundle_round;
use super::bundle_round::{Gather, Handoff, RoundState};
use super::bundle_stats::Tally;
use super::params::DvDtnParams;
use super::NodeModel;

verus! {

/// Whether a node is awake, believes in a next hop, and can hear it.
pub open spec fn can_hand_on(
    n: NodeModel,
    topo: Topology,
    awake: Seq<usize>,
    i: int,
    to: u32,
) -> bool {
    &&& exists|j: int| 0 <= j < awake.len() && #[trigger] awake[j] == i
    &&& n.belief matches Some(b) && b.next_hop == Some(to)
    &&& topo.neighbors_of(i).contains(to)
}

/// Whether every transmission follows its sender's belief over a link that is
/// there.
spec fn moves_follow(
    moves: Seq<Handoff>,
    nodes: Seq<NodeModel>,
    topo: Topology,
    awake: Seq<usize>,
) -> bool {
    forall|m: int|
        0 <= m < moves.len() ==> 0 <= (#[trigger] moves[m]).from < nodes.len() && can_hand_on(
            nodes[moves[m].from],
            topo,
            awake,
            moves[m].from,
            moves[m].to,
        )
}

proof fn lemma_moves_follow(
    g: Gather,
    fleet: Seq<Balloon>,
    topo: Topology,
    params: DvDtnParams,
    used: Seq<bool>,
    round: u64,
    awake: Seq<usize>,
    k: nat,
)
    requires
        k <= awake.len(),
        forall|j: int| 0 <= j < awake.len() ==> (#[trigger] awake[j]) < g.s.nodes.len(),
        g.moves.len() == 0,
    ensures
        moves_follow(
            bundle_round::slots_taken(g, fleet, topo, params, used, round, awake, k).moves,
            g.s.nodes,
            topo,
            awake.take(k as int),
        ),
    decreases k,
{
    if k > 0 {
        lemma_moves_follow(g, fleet, topo, params, used, round, awake, (k - 1) as nat);
        belief_laws::lemma_slots(g, fleet, topo, params, used, round, awake, (k - 1) as nat);
        let a = bundle_round::slots_taken(
            g,
            fleet,
            topo,
            params,
            used,
            round,
            awake,
            (k - 1) as nat,
        );
        let b = bundle_round::slots_taken(g, fleet, topo, params, used, round, awake, k);
        let i = awake[k - 1] as int;
        assert(awake[k - 1] < g.s.nodes.len());
        assert(a.s.nodes[i].belief == g.s.nodes[i].belief);
        assert forall|m: int| 0 <= m < b.moves.len() implies 0 <= (#[trigger] b.moves[m]).from
            < g.s.nodes.len() && can_hand_on(
            g.s.nodes[b.moves[m].from],
            topo,
            awake.take(k as int),
            b.moves[m].from,
            b.moves[m].to,
        ) by {
            if m < a.moves.len() {
                assert(b.moves[m] == a.moves[m]);
                let was = awake.take(k - 1);
                let j = choose|j: int|
                    0 <= j < was.len() && #[trigger] was[j] == b.moves[m].from;
                assert(awake.take(k as int)[j] == b.moves[m].from);
            } else {
                assert(b.moves[m].from == i);
                assert(awake.take(k as int)[k - 1] == i);
            }
        }
    }
}

/// Whether a node believes itself to be its next hop, hears itself, and has
/// something to hand to itself.
pub open spec fn hands_to_itself(n: NodeModel, topo: Topology, i: int) -> bool {
    &&& n.belief matches Some(b) && b.next_hop matches Some(to) && to == i
        && topo.neighbors_of(i).contains(to)
    &&& exists|j: int| 0 <= j < n.queue.len() && !(#[trigger] n.queue[j]).path.contains(i as u32)
}

/// Whether no node that wakes more than once hands anything to itself.
pub open spec fn no_echo(nodes: Seq<NodeModel>, topo: Topology, awake: Seq<usize>) -> bool {
    forall|j: int, k: int|
        0 <= j < k < awake.len() && #[trigger] awake[j] == #[trigger] awake[k]
            ==> !hands_to_itself(nodes[awake[j] as int], topo, awake[j] as int)
}

/// Whether an identity that is gathered twice goes the same way both times, and
/// away.
spec fn same_way(moves: Seq<Handoff>) -> bool {
    forall|m: int, x: int, l: int, y: int|
        0 <= m < moves.len() && 0 <= l < moves.len() && 0 <= x < moves[m].ids.len() && 0 <= y
            < moves[l].ids.len() && (m != l || x != y) && #[trigger] moves[m].ids[x]
            == #[trigger] moves[l].ids[y] ==> moves[m].from == moves[l].from && moves[m].to
            == moves[l].to && moves[m].to != moves[m].from
}

proof fn lemma_slot_gathers(
    s: Seq<NodeModel>,
    a: Gather,
    fleet: Seq<Balloon>,
    topo: Topology,
    params: DvDtnParams,
    used: Seq<bool>,
    round: u64,
    awake: Seq<usize>,
    k: int,
)
    requires
        0 <= k < awake.len(),
        awake[k] < a.s.nodes.len(),
        bundle_order::all_tame(s, a.s.nodes, params),
        belief_laws::same_beliefs(s, a.s.nodes),
        bundle_paths::all_distinct(a.s.nodes),
        bundle_order::from_known(a.moves, a.s.nodes.len()),
        moves_follow(a.moves, s, topo, awake.take(k)),
        no_echo(s, topo, awake),
        bundle_paths::all_bound(a.s.nodes, a.moves, params),
        same_way(a.moves),
    ensures
        ({
            let r = bundle_round::slot_taken(a, fleet, topo, params, used, round, awake[k] as int);
            same_way(r.moves)
        }),
{
    let i = awake[k] as int;
    let n = a.s.nodes[i];
    let r = bundle_round::slot_taken(a, fleet, topo, params, used, round, i);
    if r.moves.len() > a.moves.len() {
        let belief = n.belief->Some_0;
        let next = belief.next_hop->Some_0;
        let sampled = RoundState {
            tally: Tally {
                belief_hops: super::bundle_stats::bumped(
                    a.s.tally.belief_hops,
                    belief.hop_count as int,
                ),
                ..a.s.tally
            },
            ..a.s
        };
        let slot = RoundState {
            tally: Tally {
                slots_with_bundle: sampled.tally.slots_with_bundle + 1,
                ..sampled.tally
            },
            ..sampled
        };
        let (after, ids) = bundle_round::batch_filled(slot, i, next, params, Seq::empty());
        bundle_paths::lemma_batch(slot, i, next, params, Seq::empty());
        bundle_paths::lemma_batch_bound(slot, i, next, params, after.nodes, ids);
        let last = a.moves.len() as int;
        assert(r.moves[last].ids == ids && r.moves[last].from == i && r.moves[last].to == next);
        assert(r.s.nodes == after.nodes);
        assert(topo.neighbors_of(i).contains(next));
        assert forall|m: int, x: int, y: int|
            0 <= m < last && 0 <= x < a.moves[m].ids.len() && 0 <= y < ids.len()
                && #[trigger] a.moves[m].ids[x] == #[trigger] ids[y] implies a.moves[m].from == i
            && a.moves[m].to == next && next != i by {
            let p = bundle::nth_place(n.queue.len() as int, params.queue_discipline, y);
            assert(bundle_paths::pick(slot.nodes[i].queue, ids, next, params, y));
            bundle_paths::lemma_bound_here(a, i, params, m, x, ids[y], y);
            assert(can_hand_on(s[i], topo, awake.take(k), i, a.moves[m].to));
            assert(a.s.nodes[i].belief == s[i].belief);
            let was = awake.take(k);
            let j = choose|j: int| 0 <= j < was.len() && #[trigger] was[j] == i;
            assert(awake[j] == awake[k]);
            if next == i {
                assert(bundle_order::tame(s[i], a.s.nodes[i], params));
                let b = a.s.nodes[i].queue[p];
                let z = s[i].queue.index_of(b);
                assert(s[i].queue[z] == b);
                assert(!s[i].queue[z].path.contains(i as u32));
                assert(hands_to_itself(s[awake[j] as int], topo, awake[j] as int));
            }
        }
        assert forall|m: int, x: int, l: int, y: int|
            0 <= m < r.moves.len() && 0 <= l < r.moves.len() && 0 <= x < r.moves[m].ids.len() && 0
                <= y < r.moves[l].ids.len() && (m != l || x != y) && #[trigger] r.moves[m].ids[x]
                == #[trigger] r.moves[l].ids[y] implies r.moves[m].from == r.moves[l].from
            && r.moves[m].to == r.moves[l].to && r.moves[m].to != r.moves[m].from by {
            if m < last && l < last {
                assert(a.moves[m].ids[x] == a.moves[l].ids[y]);
            } else if m == last && l == last {
                assert(ids[x] != ids[y]);
            } else if m < last {
                assert(a.moves[m].ids[x] == ids[y]);
            } else {
                assert(a.moves[l].ids[y] == ids[x]);
            }
        }
    } else {
        assert(r.moves =~= a.moves);
    }
}

proof fn lemma_gathered(
    g: Gather,
    fleet: Seq<Balloon>,
    topo: Topology,
    params: DvDtnParams,
    used: Seq<bool>,
    round: u64,
    awake: Seq<usize>,
    k: nat,
)
    requires
        k <= awake.len(),
        forall|j: int| 0 <= j < awake.len() ==> (#[trigger] awake[j]) < g.s.nodes.len(),
        g.moves.len() == 0,
        bundle_paths::all_distinct(g.s.nodes),
        no_echo(g.s.nodes, topo, awake),
    ensures
        ({
            let r = bundle_round::slots_taken(g, fleet, topo, params, used, round, awake, k);
            &&& bundle_order::all_tame(g.s.nodes, r.s.nodes, params)
            &&& bundle_order::from_known(r.moves, g.s.nodes.len())
            &&& bundle_paths::all_distinct(r.s.nodes)
            &&& bundle_paths::all_bound(r.s.nodes, r.moves, params)
            &&& same_way(r.moves)
        }),
    decreases k,
{
    bundle_paths::lemma_slots(g, fleet, topo, params, used, round, awake, k);
    if k > 0 {
        lemma_gathered(g, fleet, topo, params, used, round, awake, (k - 1) as nat);
        lemma_moves_follow(g, fleet, topo, params, used, round, awake, (k - 1) as nat);
        belief_laws::lemma_slots(g, fleet, topo, params, used, round, awake, (k - 1) as nat);
        let a = bundle_round::slots_taken(
            g,
            fleet,
            topo,
            params,
            used,
            round,
            awake,
            (k - 1) as nat,
        );
        assert(awake[k - 1] < g.s.nodes.len());
        lemma_slot_gathers(
            g.s.nodes,
            a,
            fleet,
            topo,
            params,
            used,
            round,
            awake,
            k - 1,
        );
    }
}

/// Whether a bundle has been handed from one node to another.
pub open spec fn handed_on(b: BundleModel, c: BundleModel, to: int) -> bool {
    c == (BundleModel { path: b.path.push(to as u32), ..b }) && !b.path.contains(to as u32)
}

/// Whether a bundle held by `x` stems from what was held before: it is the same
/// in the same place, or was handed on from where it was.
spec fn stems(
    base: Seq<NodeModel>,
    topo: Topology,
    awake: Seq<usize>,
    c: BundleModel,
    x: int,
) -> bool {
    ||| base[x].queue.contains(c)
    ||| exists|i: int, b: BundleModel|
        0 <= i < base.len() && base[i].queue.contains(b) && #[trigger] handed_from(
            base,
            topo,
            awake,
            i,
            b,
            c,
            x,
        )
}

/// Whether a bundle has been handed on from node `i` to node `x`, as `i`
/// believed it should.
pub open spec fn handed_from(
    base: Seq<NodeModel>,
    topo: Topology,
    awake: Seq<usize>,
    i: int,
    b: BundleModel,
    c: BundleModel,
    x: int,
) -> bool {
    x <= u32::MAX && handed_on(b, c, x) && can_hand_on(base[i], topo, awake, i, x as u32)
}

spec fn all_stem(
    base: Seq<NodeModel>,
    topo: Topology,
    awake: Seq<usize>,
    nodes: Seq<NodeModel>,
) -> bool {
    &&& nodes.len() == base.len()
    &&& forall|x: int, y: int|
        0 <= x < nodes.len() && 0 <= y < nodes[x].queue.len() ==> stems(
            base,
            topo,
            awake,
            #[trigger] nodes[x].queue[y],
            x,
        )
}

/// Whether whoever has this identity is still where it was, as it was, or has
/// gone where it was bound for.
spec fn at_home(
    base: Seq<NodeModel>,
    nodes: Seq<NodeModel>,
    from: int,
    to: u32,
    id: (u32, u64),
) -> bool {
    forall|i: int, j: int|
        0 <= i < nodes.len() && 0 <= j < nodes[i].queue.len() && (
        #[trigger] nodes[i].queue[j]).origin_id == id.0 && nodes[i].queue[j].seq == id.1 ==> {
            ||| i == from && base[from].queue.contains(nodes[i].queue[j])
            ||| i == to && i != from
        }
}

/// Whether that holds of all that is still to be handed on.
spec fn rest_at_home(
    base: Seq<NodeModel>,
    nodes: Seq<NodeModel>,
    moves: Seq<Handoff>,
    m: int,
    k: int,
) -> bool {
    forall|l: int, x: int|
        0 <= l < moves.len() && 0 <= x < moves[l].ids.len() && (l > m || l == m && x >= k)
            ==> at_home(base, nodes, moves[l].from, moves[l].to, #[trigger] moves[l].ids[x])
}

proof fn lemma_place_is_it(q: Seq<BundleModel>, k: int, origin_id: u32, seq: u64)
    requires
        0 <= k,
    ensures
        bundle::place_of(q, k, origin_id, seq) matches Some(p) ==> k <= p < q.len()
            && q[p].origin_id == origin_id && q[p].seq == seq,
    decreases q.len() - k,
{
    if k < q.len() {
        lemma_place_is_it(q, k + 1, origin_id, seq);
    }
}

/// Whatever is held after a handoff was held there before, or is what was
/// handed on.
proof fn lemma_whence(
    nodes: Seq<NodeModel>,
    from: int,
    p: int,
    t: int,
    moved: BundleModel,
    i: int,
    j: int,
)
    requires
        0 <= from < nodes.len(),
        0 <= t < nodes.len(),
        0 <= p < nodes[from].queue.len(),
        ({
            let taken = nodes.update(
                from,
                NodeModel { queue: nodes[from].queue.remove(p), ..nodes[from] },
            );
            let given = taken.update(
                t,
                NodeModel { queue: taken[t].queue.push(moved), ..taken[t] },
            );
            0 <= i < given.len() && 0 <= j < given[i].queue.len()
        }),
    ensures
        ({
            let taken = nodes.update(
                from,
                NodeModel { queue: nodes[from].queue.remove(p), ..nodes[from] },
            );
            let given = taken.update(
                t,
                NodeModel { queue: taken[t].queue.push(moved), ..taken[t] },
            );
            let c = given[i].queue[j];
            ||| i == t && c == moved
            ||| exists|y: int| 0 <= y < nodes[i].queue.len() && #[trigger] nodes[i].queue[y] == c
        }),
{
    let taken = nodes.update(from, NodeModel { queue: nodes[from].queue.remove(p), ..nodes[from] });
    let given = taken.update(t, NodeModel { queue: taken[t].queue.push(moved), ..taken[t] });
    if j < taken[i].queue.len() {
        assert(given[i].queue[j] == taken[i].queue[j]);
        if i == from {
            if j < p {
                assert(taken[i].queue[j] == nodes[i].queue[j]);
            } else {
                assert(taken[i].queue[j] == nodes[i].queue[j + 1]);
            }
        } else {
            assert(taken[i].queue[j] == nodes[i].queue[j]);
        }
    }
}

proof fn lemma_one_handed(
    base: Seq<NodeModel>,
    topo: Topology,
    awake: Seq<usize>,
    s: RoundState,
    moves: Seq<Handoff>,
    m: int,
    k: int,
    params: DvDtnParams,
    round: u64,
)
    requires
        0 <= m < moves.len(),
        0 <= k < moves[m].ids.len(),
        moves_follow(moves, base, topo, awake),
        bundle_paths::all_bound(base, moves, params),
        same_way(moves),
        all_stem(base, topo, awake, s.nodes),
        rest_at_home(base, s.nodes, moves, m, k),
    ensures
        ({
            let r = bundle_round::bundle_handed(
                s,
                moves[m].from,
                moves[m].to,
                moves[m].ids[k],
                params,
                round,
            ).0;
            &&& all_stem(base, topo, awake, r.nodes)
            &&& rest_at_home(base, r.nodes, moves, m, k + 1)
        }),
{
    let from = moves[m].from;
    let to = moves[m].to;
    let id = moves[m].ids[k];
    let q = s.nodes[from].queue;
    lemma_place_is_it(q, 0, id.0, id.1);
    let r = bundle_round::bundle_handed(s, from, to, id, params, round).0;
    if bundle_round::has_room(s, to, params) && bundle::place_of(q, 0, id.0, id.1) is Some {
        let p = bundle::place_of(q, 0, id.0, id.1)->Some_0;
        let b = q[p];
        let t = to as int;
        let moved = BundleModel { path: b.path.push(to), ..b };
        assert(at_home(base, s.nodes, from, to, moves[m].ids[k]));
        assert(s.nodes[from].queue[p].origin_id == id.0);
        assert(base[from].queue.contains(b));
        assert(bundle_paths::bound_for(base, from, to, moves[m].ids[k], params));
        let home = base[from].queue.index_of(b);
        assert(base[from].queue[home] == b);
        assert(bundle_paths::may_go(b, to, params));
        assert(handed_from(base, topo, awake, from, b, moved, t));
        assert(stems(base, topo, awake, moved, t));
        assert forall|x: int, y: int|
            0 <= x < r.nodes.len() && 0 <= y < r.nodes[x].queue.len() implies stems(
            base,
            topo,
            awake,
            #[trigger] r.nodes[x].queue[y],
            x,
        ) by {
            lemma_whence(s.nodes, from, p, t, moved, x, y);
            if !(x == t && r.nodes[x].queue[y] == moved) {
                let z = choose|z: int|
                    0 <= z < s.nodes[x].queue.len() && #[trigger] s.nodes[x].queue[z]
                        == r.nodes[x].queue[y];
                assert(stems(base, topo, awake, s.nodes[x].queue[z], x));
            }
        }
        assert forall|l: int, x: int|
            0 <= l < moves.len() && 0 <= x < moves[l].ids.len() && (l > m || l == m && x >= k + 1)
            implies at_home(
            base,
            r.nodes,
            moves[l].from,
            moves[l].to,
            #[trigger] moves[l].ids[x],
        ) by {
            let other = moves[l].ids[x];
            assert(at_home(base, s.nodes, moves[l].from, moves[l].to, moves[l].ids[x]));
            assert forall|i: int, j: int|
                0 <= i < r.nodes.len() && 0 <= j < r.nodes[i].queue.len() && (
                #[trigger] r.nodes[i].queue[j]).origin_id == other.0 && r.nodes[i].queue[j].seq
                    == other.1 implies {
                ||| i == moves[l].from && base[moves[l].from].queue.contains(r.nodes[i].queue[j])
                ||| i == moves[l].to && i != moves[l].from
            } by {
                lemma_whence(s.nodes, from, p, t, moved, i, j);
                if i == t && r.nodes[i].queue[j] == moved {
                    assert(moves[l].ids[x] == moves[m].ids[k]);
                } else {
                    let z = choose|z: int|
                        0 <= z < s.nodes[i].queue.len() && #[trigger] s.nodes[i].queue[z]
                            == r.nodes[i].queue[j];
                    assert(s.nodes[i].queue[z].origin_id == other.0);
                }
            }
        }
    } else {
        assert(r.nodes == s.nodes);
        assert forall|l: int, x: int|
            0 <= l < moves.len() && 0 <= x < moves[l].ids.len() && (l > m || l == m && x >= k + 1)
            implies at_home(
            base,
            r.nodes,
            moves[l].from,
            moves[l].to,
            #[trigger] moves[l].ids[x],
        ) by {
            assert(at_home(base, s.nodes, moves[l].from, moves[l].to, moves[l].ids[x]));
        }
    }
}

proof fn lemma_batch_handed(
    base: Seq<NodeModel>,
    topo: Topology,
    awake: Seq<usize>,
    s: RoundState,
    moves: Seq<Handoff>,
    m: int,
    params: DvDtnParams,
    round: u64,
    k: nat,
)
    requires
        0 <= m < moves.len(),
        k <= moves[m].ids.len(),
        moves_follow(moves, base, topo, awake),
        bundle_paths::all_bound(base, moves, params),
        same_way(moves),
        all_stem(base, topo, awake, s.nodes),
        rest_at_home(base, s.nodes, moves, m, 0),
    ensures
        ({
            let r = bundle_round::bundles_handed(s, moves[m], params, round, k).0;
            &&& all_stem(base, topo, awake, r.nodes)
            &&& rest_at_home(base, r.nodes, moves, m, k as int)
        }),
    decreases k,
{
    if k > 0 {
        lemma_batch_handed(base, topo, awake, s, moves, m, params, round, (k - 1) as nat);
        let before = bundle_round::bundles_handed(s, moves[m], params, round, (k - 1) as nat).0;
        lemma_one_handed(base, topo, awake, before, moves, m, k - 1, params, round);
    }
}

proof fn lemma_all_handed(
    base: Seq<NodeModel>,
    topo: Topology,
    awake: Seq<usize>,
    s: RoundState,
    fleet: Seq<Balloon>,
    moves: Seq<Handoff>,
    params: DvDtnParams,
    round: u64,
    k: nat,
)
    requires
        k <= moves.len(),
        moves_follow(moves, base, topo, awake),
        bundle_paths::all_bound(base, moves, params),
        same_way(moves),
        all_stem(base, topo, awake, s.nodes),
        rest_at_home(base, s.nodes, moves, 0, 0),
    ensures
        ({
            let r = bundle_round::all_handed(s, fleet, moves, params, round, k);
            &&& all_stem(base, topo, awake, r.nodes)
            &&& rest_at_home(base, r.nodes, moves, k as int, 0)
        }),
    decreases k,
{
    if k > 0 {
        lemma_all_handed(base, topo, awake, s, fleet, moves, params, round, (k - 1) as nat);
        let before = bundle_round::all_handed(s, fleet, moves, params, round, (k - 1) as nat);
        let m = k - 1;
        lemma_batch_handed(
            base,
            topo,
            awake,
            before,
            moves,
            m,
            params,
            round,
            moves[m].ids.len(),
        );
        let batch = bundle_round::bundles_handed(
            before,
            moves[m],
            params,
            round,
            moves[m].ids.len(),
        ).0;
        let after = bundle_round::all_handed(s, fleet, moves, params, round, k);
        assert(after.nodes == batch.nodes);
        assert forall|l: int, x: int|
            0 <= l < moves.len() && 0 <= x < moves[l].ids.len() && (l > k || l == k && x >= 0)
            implies at_home(
            base,
            after.nodes,
            moves[l].from,
            moves[l].to,
            #[trigger] moves[l].ids[x],
        ) by {
            assert(l > m);
            assert(at_home(base, batch.nodes, moves[l].from, moves[l].to, moves[l].ids[x]));
        }
    }
}

/// Whether a bundle is the one a node has just originated.
spec fn just_made(s: RoundState, fleet: Seq<Balloon>, x: int, c: BundleModel) -> bool {
    c.origin_id == fleet[x].id && c.seq == s.nodes[x].bundle_seq
}

proof fn lemma_originated(
    s: RoundState,
    fleet: Seq<Balloon>,
    params: DvDtnParams,
    round: u64,
    awake: Seq<usize>,
    k: nat,
)
    requires
        k <= awake.len(),
        forall|j: int| 0 <= j < awake.len() ==> (#[trigger] awake[j]) < s.nodes.len(),
    ensures
        ({
            let r = bundle_round::originations(s, fleet, params, round, awake, k);
            &&& r.nodes.len() == s.nodes.len()
            &&& forall|x: int, y: int|
                0 <= x < r.nodes.len() && 0 <= y < r.nodes[x].queue.len() ==> {
                    let c = #[trigger] r.nodes[x].queue[y];
                    s.nodes[x].queue.contains(c) || just_made(s, fleet, x, c)
                }
            &&& forall|i: int|
                0 <= i < s.nodes.len() ==> #[trigger] r.nodes[i] == s.nodes[i]
                    || bundle_round::holds_own(r.nodes[i].queue, fleet[i].id)
        }),
    decreases k,
{
    if k > 0 {
        lemma_originated(s, fleet, params, round, awake, (k - 1) as nat);
        let a = bundle_round::originations(s, fleet, params, round, awake, (k - 1) as nat);
        let b = bundle_round::originations(s, fleet, params, round, awake, k);
        let i = awake[k - 1] as int;
        assert(awake[k - 1] < s.nodes.len());
        assert(a.nodes[i] == s.nodes[i] || bundle_round::holds_own(
            a.nodes[i].queue,
            fleet[i].id,
        ));
        assert forall|x: int, y: int|
            0 <= x < b.nodes.len() && 0 <= y < b.nodes[x].queue.len() implies {
            let c = #[trigger] b.nodes[x].queue[y];
            s.nodes[x].queue.contains(c) || just_made(s, fleet, x, c)
        } by {
            if y < a.nodes[x].queue.len() {
                assert(b.nodes[x].queue[y] == a.nodes[x].queue[y]);
            }
        }
        assert forall|x: int| 0 <= x < s.nodes.len() implies #[trigger] b.nodes[x] == s.nodes[x]
            || bundle_round::holds_own(b.nodes[x].queue, fleet[x].id) by {
            assert(a.nodes[x] == s.nodes[x] || bundle_round::holds_own(
                a.nodes[x].queue,
                fleet[x].id,
            ));
            if b.nodes[x] != a.nodes[x] {
                let q = b.nodes[x].queue;
                assert(q[q.len() - 1].origin_id == fleet[x].id);
            }
        }
    } else {
        assert forall|x: int, y: int|
            0 <= x < s.nodes.len() && 0 <= y < s.nodes[x].queue.len() implies {
            let c = #[trigger] s.nodes[x].queue[y];
            s.nodes[x].queue.contains(c) || just_made(s, fleet, x, c)
        } by {
            assert(s.nodes[x].queue.contains(s.nodes[x].queue[y]));
        }
    }
}

/// Whether no bundle has the identity that a node gives out next.
pub open spec fn next_is_new(nodes: Seq<NodeModel>, fleet: Seq<Balloon>) -> bool {
    forall|n: int, i: int, j: int|
        0 <= n < nodes.len() && 0 <= i < nodes.len() && 0 <= j < nodes[i].queue.len() ==> !((
        #[trigger] nodes[i].queue[j]).origin_id == (#[trigger] fleet[n]).id
            && nodes[i].queue[j].seq == nodes[n].bundle_seq)
}

/// One hop a round: a bundle that is held before a round and after it is where
/// it was and as it was, or has been handed on once, from a node that was awake
/// to the next hop that node believed in, over a link that was there, to a
/// balloon it had not been with. Nothing but its path changes. Waking more than
/// once in a round makes no difference, but to a node that would hand a bundle
/// to itself: it could do so each time.
pub proof fn a_bundle_moves_one_hop(
    s: RoundState,
    fleet: Seq<Balloon>,
    topo: Topology,
    params: DvDtnParams,
    awake: Seq<usize>,
    round: u64,
    i: int,
    j: int,
    x: int,
    y: int,
)
    requires
        bundle_paths::all_distinct(s.nodes),
        next_is_new(s.nodes, fleet),
        no_echo(s.nodes, topo, awake),
        forall|k: int| 0 <= k < awake.len() ==> (#[trigger] awake[k]) < s.nodes.len(),
        0 <= i < s.nodes.len(),
        0 <= j < s.nodes[i].queue.len(),
        ({
            let after = bundle_round::bundle_round(s, fleet, topo, params, awake, round).nodes;
            &&& 0 <= x < after.len()
            &&& 0 <= y < after[x].queue.len()
            &&& after[x].queue[y].origin_id == s.nodes[i].queue[j].origin_id
            &&& after[x].queue[y].seq == s.nodes[i].queue[j].seq
        }),
    ensures
        ({
            let b = s.nodes[i].queue[j];
            let c = bundle_round::bundle_round(
                s,
                fleet,
                topo,
                params,
                awake,
                round,
            ).nodes[x].queue[y];
            ||| x == i && c == b
            ||| handed_from(s.nodes, topo, awake, i, b, c, x)
        }),
{
    let opened = bundle_round::round_opened(s, topo, params, round);
    bundle_order::lemma_opening(s, topo, params, round);
    let acked = bundle_round::acks_forwarded(opened, fleet, topo, params, awake, round);
    bundle_order::lemma_acks_forwarded(opened, fleet, topo, params, awake, round);
    bundle_order::lemma_all_tame_on(s.nodes, opened.nodes, acked.nodes, params);
    bundle_paths::lemma_tame_distinct(s.nodes, acked.nodes, params);
    let used = bundle_round::slots_spent(opened, topo, awake);
    let g0 = Gather { s: acked, moves: Seq::empty() };
    belief_laws::lemma_acked(s, fleet, topo, params, awake, round);
    assert forall|p: int, q: int|
        0 <= p < q < awake.len() && #[trigger] awake[p]
            == #[trigger] awake[q] implies !hands_to_itself(
        acked.nodes[awake[p] as int],
        topo,
        awake[p] as int,
    ) by {
        let u = awake[p] as int;
        assert(acked.nodes[u].belief == s.nodes[u].belief);
        assert(!hands_to_itself(s.nodes[awake[p] as int], topo, awake[p] as int));
        if hands_to_itself(acked.nodes[u], topo, u) {
            let v = choose|v: int|
                0 <= v < acked.nodes[u].queue.len() && !(
                #[trigger] acked.nodes[u].queue[v]).path.contains(u as u32);
            let d = acked.nodes[u].queue[v];
            assert(acked.nodes[u].queue.contains(d));
            lemma_back(s.nodes, acked.nodes, params, u, d);
            let w = s.nodes[u].queue.index_of(d);
            assert(!s.nodes[u].queue[w].path.contains(u as u32));
        }
    }
    lemma_gathered(g0, fleet, topo, params, used, round, awake, awake.len());
    let g = bundle_round::slots_taken(g0, fleet, topo, params, used, round, awake, awake.len());
    bundle_order::lemma_all_tame_on(s.nodes, acked.nodes, g.s.nodes, params);
    lemma_moves_follow(g0, fleet, topo, params, used, round, awake, awake.len());
    assert(awake.take(awake.len() as int) =~= awake);
    belief_laws::lemma_slots(g0, fleet, topo, params, used, round, awake, awake.len());
    belief_laws::lemma_on(s.nodes, acked.nodes, g.s.nodes);
    let base = g.s.nodes;
    assert forall|m: int| 0 <= m < g.moves.len() implies 0 <= (#[trigger] g.moves[m]).from
        < base.len() && can_hand_on(
        base[g.moves[m].from],
        topo,
        awake,
        g.moves[m].from,
        g.moves[m].to,
    ) by {
        assert(base[g.moves[m].from].belief == acked.nodes[g.moves[m].from].belief);
    }
    assert forall|u: int, v: int|
        0 <= u < base.len() && 0 <= v < base[u].queue.len() implies stems(
        base,
        topo,
        awake,
        #[trigger] base[u].queue[v],
        u,
    ) by {
        assert(base[u].queue.contains(base[u].queue[v]));
    }
    assert forall|l: int, v: int|
        0 <= l < g.moves.len() && 0 <= v < g.moves[l].ids.len() && (l > 0 || l == 0 && v >= 0)
        implies at_home(
        base,
        base,
        g.moves[l].from,
        g.moves[l].to,
        #[trigger] g.moves[l].ids[v],
    ) by {
        let id = g.moves[l].ids[v];
        assert(bundle_paths::bound_for(
            base,
            g.moves[l].from,
            g.moves[l].to,
            g.moves[l].ids[v],
            params,
        ));
        assert forall|u: int, w: int|
            0 <= u < base.len() && 0 <= w < base[u].queue.len() && (
            #[trigger] base[u].queue[w]).origin_id == id.0 && base[u].queue[w].seq == id.1 implies u
            == g.moves[l].from && base[g.moves[l].from].queue.contains(base[u].queue[w]) by {
            assert(base[u].queue.contains(base[u].queue[w]));
        }
    }
    lemma_all_handed(
        base,
        topo,
        awake,
        g.s,
        fleet,
        g.moves,
        params,
        round,
        g.moves.len(),
    );
    let moved = bundle_round::bundles_forwarded(acked, fleet, topo, params, used, awake, round);
    bundle_order::lemma_handed_numbers(g.s, fleet, g.moves, params, round, g.moves.len());
    lemma_originated(moved, fleet, params, round, awake, awake.len());
    let after = bundle_round::bundle_round(s, fleet, topo, params, awake, round).nodes;
    let b = s.nodes[i].queue[j];
    let c = after[x].queue[y];
    assert(bundle_order::tame(s.nodes[x], base[x], params));
    assert(moved.nodes[x].bundle_seq == s.nodes[x].bundle_seq);
    if just_made(moved, fleet, x, c) {
        assert(s.nodes[i].queue[j].origin_id == fleet[x].id);
    }
    assert(moved.nodes[x].queue.contains(c));
    let z = moved.nodes[x].queue.index_of(c);
    assert(stems(base, topo, awake, moved.nodes[x].queue[z], x));
    if base[x].queue.contains(c) {
        lemma_back(s.nodes, base, params, x, c);
        let w = s.nodes[x].queue.index_of(c);
        bundle_paths::an_identity_is_one_bundle(s.nodes, i, j, x, w);
    } else {
        let (u, d) = choose|u: int, d: BundleModel|
            0 <= u < base.len() && base[u].queue.contains(d) && #[trigger] handed_from(
                base,
                topo,
                awake,
                u,
                d,
                c,
                x,
            );
        lemma_back(s.nodes, base, params, u, d);
        let w = s.nodes[u].queue.index_of(d);
        bundle_paths::an_identity_is_one_bundle(s.nodes, i, j, u, w);
        assert(base[u].belief == s.nodes[u].belief);
        assert(handed_from(s.nodes, topo, awake, i, b, c, x));
    }
}

/// What is held after something was let go was held before.
proof fn lemma_back(
    a: Seq<NodeModel>,
    b: Seq<NodeModel>,
    params: DvDtnParams,
    i: int,
    c: BundleModel,
)
    requires
        bundle_order::all_tame(a, b, params),
        0 <= i < b.len(),
        b[i].queue.contains(c),
    ensures
        a[i].queue.contains(c),
{
    let x = b[i].queue.index_of(c);
    assert(bundle_order::tame(a[i], b[i], params));
    assert(b[i].queue[x] == c);
}

} // verus!
