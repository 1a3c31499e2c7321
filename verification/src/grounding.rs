//! Which nodes can reach a tower over the links there are: the ground truth
//! that beliefs are held against.
use std::collections::HashSet;

use vstd::prelude::*;

use crate::graph;
use crate::link_detection;
use crate::link_detection::{Edge, NodeKey};
use crate::tower::Tower;
use crate::union_find;
use crate::union_find::UnionFind;

verus! {

/// The ends of every link.
pub open spec fn links_of(edges: Seq<Edge>) -> Seq<(NodeKey, NodeKey)> {
    edges.map_values(|e: Edge| (e.a, e.b))
}

/// Whether a chain of links runs from some tower to the node.
pub open spec fn grounded(edges: Seq<Edge>, towers: Seq<Tower>, key: NodeKey) -> bool {
    exists|t: int|
        0 <= t < towers.len() && graph::connected(
            links_of(edges),
            edges.len(),
            NodeKey::Tower((#[trigger] towers[t]).id),
            key,
        )
}

/// Whether both ends of every link are among the nodes.
pub open spec fn ends_among(edges: Seq<Edge>, keys: Seq<NodeKey>) -> bool {
    forall|e: int|
        0 <= e < edges.len() ==> keys.contains((#[trigger] edges[e]).a) && keys.contains(
            edges[e].b,
        )
}

/// Whether every tower is among the nodes.
pub open spec fn towers_among(towers: Seq<Tower>, keys: Seq<NodeKey>) -> bool {
    forall|t: int|
        0 <= t < towers.len() ==> keys.contains(NodeKey::Tower((#[trigger] towers[t]).id))
}

/// Links found among nodes join only those nodes.
pub proof fn links_join_the_nodes(
    keys: Seq<NodeKey>,
    rows: Seq<Vec<link_detection::Candidate>>,
    n: nat,
)
    requires
        link_detection::rows_within(rows, keys.len()),
        n <= keys.len(),
    ensures
        ends_among(link_detection::tried_rows(keys, rows, n).edges, keys),
    decreases n,
{
    if n > 0 {
        links_join_the_nodes(keys, rows, (n - 1) as nat);
        lemma_row_joins(
            link_detection::tried_rows(keys, rows, (n - 1) as nat),
            keys,
            rows,
            n - 1,
            rows[n - 1]@.len(),
        );
    }
}

proof fn lemma_row_joins(
    s: link_detection::Search,
    keys: Seq<NodeKey>,
    rows: Seq<Vec<link_detection::Candidate>>,
    i: int,
    k: nat,
)
    requires
        link_detection::rows_within(rows, keys.len()),
        0 <= i < keys.len(),
        k <= rows[i]@.len(),
        ends_among(s.edges, keys),
    ensures
        ends_among(link_detection::tried_row(s, keys, i, rows[i]@, k).edges, keys),
    decreases k,
{
    if k > 0 {
        lemma_row_joins(s, keys, rows, i, (k - 1) as nat);
        let before = link_detection::tried_row(s, keys, i, rows[i]@, (k - 1) as nat);
        let c = rows[i]@[k - 1];
        let after = link_detection::tried(before, keys, i, c);
        assert(c.index < keys.len());
        assert(keys.contains(keys[i]) && keys.contains(keys[c.index as int]));
        assert forall|e: int| 0 <= e < after.edges.len() implies keys.contains(
            (#[trigger] after.edges[e]).a,
        ) && keys.contains(after.edges[e].b) by {
            if e < before.edges.len() {
                assert(after.edges[e] == before.edges[e]);
            }
        }
    }
}

/// Whether the sets tell what hangs together, and hold every node.
pub open spec fn settled(
    reps: Map<NodeKey, NodeKey>,
    keys: Seq<NodeKey>,
    edges: Seq<Edge>,
) -> bool {
    &&& union_find::follows(reps, links_of(edges), edges.len())
    &&& forall|k: int| 0 <= k < keys.len() ==> reps.contains_key(#[trigger] keys[k])
}

/// Whether these are the numbers of the towers' representatives.
pub open spec fn are_roots(
    roots: Set<u64>,
    reps: Map<NodeKey, NodeKey>,
    towers: Seq<Tower>,
    n: int,
) -> bool {
    forall|x: u64| #[trigger]
        roots.contains(x) <==> exists|t: int|
            0 <= t < n && x == link_detection::number_of(
                reps[NodeKey::Tower((#[trigger] towers[t]).id)],
            )
}

/// Joins the ends of every link.
pub fn join_links(sets: &mut UnionFind, keys: &Vec<NodeKey>, edges: &Vec<Edge>)
    requires
        ends_among(edges@, keys@),
    ensures
        final(sets).wf(),
        settled(final(sets)@, keys@, edges@),
{
    sets.clear();
    let mut i: usize = 0;
    while i < keys.len()
        invariant
            i <= keys@.len(),
            sets.wf(),
            forall|k: int| 0 <= k < i ==> sets@.contains_key(#[trigger] keys@[k]),
            forall|k: NodeKey| #[trigger] sets@.contains_key(k) ==> sets@[k] == k,
        decreases keys@.len() - i,
    {
        sets.make_set(keys[i]);
        i += 1;
    }
    let ghost links = links_of(edges@);
    proof {
        assert forall|x: NodeKey, y: NodeKey|
            #![trigger sets@.contains_key(x), sets@.contains_key(y)]
            sets@.contains_key(x) && sets@.contains_key(y) implies (sets@[x] == sets@[y]
            <==> graph::connected(links, 0, x, y)) by {
            graph::connected_by_nothing(links, x, y);
        }
    }
    let mut e: usize = 0;
    while e < edges.len()
        invariant
            e <= edges@.len(),
            sets.wf(),
            ends_among(edges@, keys@),
            links == links_of(edges@),
            forall|k: int| 0 <= k < keys@.len() ==> sets@.contains_key(#[trigger] keys@[k]),
            union_find::follows(sets@, links, e as nat),
        decreases edges@.len() - e,
    {
        proof {
            let edge = edges@[e as int];
            assert(keys@.contains(edge.a) && keys@.contains(edge.b));
            let ka = keys@.index_of(edge.a);
            let kb = keys@.index_of(edge.b);
            assert(sets@.contains_key(keys@[ka]) && sets@.contains_key(keys@[kb]));
            assert(links[e as int] == (edge.a, edge.b));
            union_find::unions_follow_links(sets@, links, e as nat);
        }
        sets.union(edges[e].a, edges[e].b);
        e += 1;
    }
}

/// The representatives of the sets with a tower in them.
pub fn tower_roots(
    sets: &mut UnionFind,
    towers: &Vec<Tower>,
    keys: &Vec<NodeKey>,
    edges: &Vec<Edge>,
) -> (roots: HashSet<u64>)
    requires
        old(sets).wf(),
        settled(old(sets)@, keys@, edges@),
        towers_among(towers@, keys@),
    ensures
        final(sets).wf(),
        final(sets)@ == old(sets)@,
        are_roots(roots@, final(sets)@, towers@, towers@.len() as int),
{
    broadcast use vstd::std_specs::hash::group_hash_axioms;

    let ghost reps = sets@;
    let mut roots: HashSet<u64> = HashSet::new();
    let mut t: usize = 0;
    while t < towers.len()
        invariant
            t <= towers@.len(),
            sets.wf(),
            sets@ == reps,
            settled(reps, keys@, edges@),
            towers_among(towers@, keys@),
            are_roots(roots@, reps, towers@, t as int),
        decreases towers@.len() - t,
    {
        let key: NodeKey = NodeKey::Tower(towers[t].id);
        let ghost before = roots@;
        proof {
            assert(keys@.contains(NodeKey::Tower(towers@[t as int].id)));
            let k = keys@.index_of(key);
            assert(reps.contains_key(keys@[k]));
        }
        let root: NodeKey = sets.find(key);
        roots.insert(root.number());
        assert forall|x: u64| #[trigger] roots@.contains(x) <==> exists|u: int|
            0 <= u < t + 1 && x == link_detection::number_of(
                reps[NodeKey::Tower((#[trigger] towers@[u]).id)],
            ) by {
            if before.contains(x) {
                let u = choose|u: int|
                    0 <= u < t && x == link_detection::number_of(
                        reps[NodeKey::Tower((#[trigger] towers@[u]).id)],
                    );
                assert(0 <= u < t + 1);
            }
            if roots@.contains(x) && !before.contains(x) {
                assert(x == link_detection::number_of(
                    reps[NodeKey::Tower(towers@[t as int].id)],
                ));
            }
        }
        t += 1;
    }
    roots
}

/// Whether a node hangs together with a tower.
pub fn is_grounded(
    sets: &mut UnionFind,
    roots: &HashSet<u64>,
    key: NodeKey,
    towers: &Vec<Tower>,
    keys: &Vec<NodeKey>,
    edges: &Vec<Edge>,
) -> (r: bool)
    requires
        old(sets).wf(),
        settled(old(sets)@, keys@, edges@),
        towers_among(towers@, keys@),
        are_roots(roots@, old(sets)@, towers@, towers@.len() as int),
        keys@.contains(key),
    ensures
        final(sets).wf(),
        final(sets)@ == old(sets)@,
        r == grounded(edges@, towers@, key),
{
    broadcast use vstd::std_specs::hash::group_hash_axioms;

    let ghost reps = sets@;
    let ghost links = links_of(edges@);
    proof {
        let k = keys@.index_of(key);
        assert(reps.contains_key(keys@[k]));
    }
    let root: NodeKey = sets.find(key);
    let r: bool = roots.contains(&root.number());
    proof {
        link_detection::lemma_numbers_differ();
        assert forall|t: int| 0 <= t < towers@.len() implies (reps[NodeKey::Tower(
            (#[trigger] towers@[t]).id,
        )] == reps[key] <==> graph::connected(
            links,
            edges@.len(),
            NodeKey::Tower(towers@[t].id),
            key,
        )) by {
            let tower = NodeKey::Tower(towers@[t].id);
            assert(keys@.contains(tower));
            let k = keys@.index_of(tower);
            assert(reps.contains_key(keys@[k]));
            assert(reps.contains_key(tower) && reps.contains_key(key));
        }
        if r {
            let t = choose|t: int|
                0 <= t < towers@.len() && link_detection::number_of(root)
                    == link_detection::number_of(
                    reps[NodeKey::Tower((#[trigger] towers@[t]).id)],
                );
            assert(graph::connected(links, edges@.len(), NodeKey::Tower(towers@[t].id), key));
        }
        if grounded(edges@, towers@, key) {
            let t = choose|t: int|
                0 <= t < towers@.len() && graph::connected(
                    links,
                    edges@.len(),
                    NodeKey::Tower((#[trigger] towers@[t]).id),
                    key,
                );
            assert(link_detection::number_of(root) == link_detection::number_of(
                reps[NodeKey::Tower(towers@[t].id)],
            ));
        }
    }
    r
}

/// Both ends of a link share their fate: either both reach a tower or neither.
pub proof fn links_share_their_fate(edges: Seq<Edge>, towers: Seq<Tower>, e: int)
    requires
        0 <= e < edges.len(),
    ensures
        grounded(edges, towers, edges[e].a) == grounded(edges, towers, edges[e].b),
{
    let links = links_of(edges);
    let (a, b) = (edges[e].a, edges[e].b);
    assert(links[e] == (a, b));
    graph::connected_by_link(links, e);
    graph::connected_still(links, (e + 1) as nat, links.len(), a, b);
    graph::connected_both_ways(links, links.len(), a, b);
    if grounded(edges, towers, a) {
        let t = choose|t: int|
            0 <= t < towers.len() && graph::connected(
                links,
                edges.len(),
                NodeKey::Tower((#[trigger] towers[t]).id),
                a,
            );
        graph::connected_across(links, links.len(), NodeKey::Tower(towers[t].id), a, b);
    }
    if grounded(edges, towers, b) {
        let t = choose|t: int|
            0 <= t < towers.len() && graph::connected(
                links,
                edges.len(),
                NodeKey::Tower((#[trigger] towers[t]).id),
                b,
            );
        graph::connected_across(links, links.len(), NodeKey::Tower(towers[t].id), b, a);
    }
}

/// A tower is always grounded.
pub proof fn towers_are_grounded(edges: Seq<Edge>, towers: Seq<Tower>, t: int)
    requires
        0 <= t < towers.len(),
    ensures
        grounded(edges, towers, NodeKey::Tower(towers[t].id)),
{
    graph::connected_to_itself(
        links_of(edges),
        edges.len(),
        NodeKey::Tower(towers[t].id),
    );
}

} // verus!
