//! How many hops every balloon is from the nearest tower, seen from outside.
use std::collections::HashMap;

use vstd::prelude::*;

use crate::graph;
use crate::grounding;
use crate::link_detection;
use crate::link_detection::{Edge, NodeKey};
use crate::tower::Tower;

verus! {

broadcast use vstd::std_specs::hash::group_hash_axioms;

/// Whether a link joins two nodes.
pub open spec fn linked(edges: Seq<Edge>, a: NodeKey, b: NodeKey) -> bool {
    graph::joined(grounding::links_of(edges), edges.len(), a, b)
}

/// The nodes at most `d` hops from a tower.
pub open spec fn within(edges: Seq<Edge>, towers: Seq<Tower>, d: nat) -> Set<NodeKey>
    decreases d,
{
    if d == 0 {
        Set::new(
            |k: NodeKey|
                exists|t: int|
                    0 <= t < towers.len() && k == NodeKey::Tower((#[trigger] towers[t]).id),
        )
    } else {
        let nearer = within(edges, towers, (d - 1) as nat);
        Set::new(
            |k: NodeKey|
                nearer.contains(k) || exists|j: NodeKey| #[trigger]
                    nearer.contains(j) && linked(edges, j, k),
        )
    }
}

/// Whether a node is exactly `d` hops from the nearest tower.
pub open spec fn is_depth(edges: Seq<Edge>, towers: Seq<Tower>, k: NodeKey, d: nat) -> bool {
    within(edges, towers, d).contains(k) && (d > 0 ==> !within(
        edges,
        towers,
        (d - 1) as nat,
    ).contains(k))
}

/// Fewer hops are no more hops.
pub proof fn lemma_within_grows(edges: Seq<Edge>, towers: Seq<Tower>, c: nat, d: nat)
    requires
        c <= d,
    ensures
        within(edges, towers, c).subset_of(within(edges, towers, d)),
    decreases d,
{
    if c < d {
        lemma_within_grows(edges, towers, c, (d - 1) as nat);
    }
}

proof fn lemma_within_stops(edges: Seq<Edge>, towers: Seq<Tower>, c: nat, d: nat)
    requires
        c <= d,
        within(edges, towers, c + 1) == within(edges, towers, c),
    ensures
        within(edges, towers, d) == within(edges, towers, c),
    decreases d,
{
    if c < d {
        lemma_within_stops(edges, towers, c, (d - 1) as nat);
        assert(within(edges, towers, d) =~= within(edges, towers, c + 1));
    }
}

/// A node has one depth at most.
pub proof fn a_depth_is_the_only_one(
    edges: Seq<Edge>,
    towers: Seq<Tower>,
    k: NodeKey,
    c: nat,
    d: nat,
)
    requires
        is_depth(edges, towers, k, c),
        is_depth(edges, towers, k, d),
    ensures
        c == d,
{
    if c < d {
        lemma_within_grows(edges, towers, c, (d - 1) as nat);
    }
    if d < c {
        lemma_within_grows(edges, towers, d, (c - 1) as nat);
    }
}

/// Being some number of hops from a tower is being grounded.
pub proof fn depth_is_ground(edges: Seq<Edge>, towers: Seq<Tower>, k: NodeKey, d: nat)
    requires
        within(edges, towers, d).contains(k),
    ensures
        grounding::grounded(edges, towers, k),
    decreases d,
{
    let links = grounding::links_of(edges);
    if d == 0 {
        let t = choose|t: int|
            0 <= t < towers.len() && k == NodeKey::Tower((#[trigger] towers[t]).id);
        grounding::towers_are_grounded(edges, towers, t);
    } else {
        let nearer = within(edges, towers, (d - 1) as nat);
        if nearer.contains(k) {
            depth_is_ground(edges, towers, k, (d - 1) as nat);
        } else {
            let j = choose|j: NodeKey| #[trigger] nearer.contains(j) && linked(edges, j, k);
            depth_is_ground(edges, towers, j, (d - 1) as nat);
            let t = choose|t: int|
                0 <= t < towers.len() && graph::connected(
                    links,
                    edges.len(),
                    NodeKey::Tower((#[trigger] towers[t]).id),
                    j,
                );
            let e = choose|e: int|
                0 <= e < edges.len() && (#[trigger] links[e] == (j, k) || links[e] == (k, j));
            graph::connected_by_link(links, e);
            graph::connected_still(
                links,
                (e + 1) as nat,
                links.len(),
                links[e].0,
                links[e].1,
            );
            graph::connected_both_ways(links, links.len(), links[e].0, links[e].1);
            graph::connected_across(
                links,
                links.len(),
                NodeKey::Tower(towers[t].id),
                j,
                k,
            );
        }
    }
}

/// Whoever a node is linked to over the first `k` links, link by link.
pub open spec fn nbrs(edges: Seq<Edge>, k: nat, key: NodeKey) -> Seq<NodeKey>
    decreases k,
{
    if k == 0 {
        Seq::empty()
    } else {
        let before = nbrs(edges, (k - 1) as nat, key);
        let e = edges[k - 1];
        let once = if e.a == key {
            before.push(e.b)
        } else {
            before
        };
        if e.b == key {
            once.push(e.a)
        } else {
            once
        }
    }
}

proof fn lemma_nbrs(edges: Seq<Edge>, k: nat, key: NodeKey, n: NodeKey)
    requires
        k <= edges.len(),
    ensures
        nbrs(edges, k, key).contains(n) <==> graph::joined(
            grounding::links_of(edges),
            k,
            key,
            n,
        ),
    decreases k,
{
    let links = grounding::links_of(edges);
    if k > 0 {
        lemma_nbrs(edges, (k - 1) as nat, key, n);
        let before = nbrs(edges, (k - 1) as nat, key);
        let after = nbrs(edges, k, key);
        let e = edges[k - 1];
        assert(links[k - 1] == (e.a, e.b));
        assert forall|i: int| 0 <= i < before.len() implies after[i] == before[i] by {}
        if before.contains(n) {
            let i = before.index_of(n);
            assert(after[i] == n);
            let j = choose|j: int|
                0 <= j < k - 1 && (#[trigger] links[j] == (key, n) || links[j] == (n, key));
            assert(links[j] == (key, n) || links[j] == (n, key));
        }
        if after.contains(n) && !before.contains(n) {
            let i = after.index_of(n);
            if i < before.len() {
                assert(before[i] == n);
            }
            assert(links[k - 1] == (key, n) || links[k - 1] == (n, key));
        }
        if graph::joined(links, k, key, n) && !before.contains(n) {
            let j = choose|j: int|
                0 <= j < k && (#[trigger] links[j] == (key, n) || links[j] == (n, key));
            if j < k - 1 {
                assert(graph::joined(links, (k - 1) as nat, key, n));
            } else if e.a == key && e.b == n {
                assert(after[before.len() as int] == n);
            } else {
                assert(after[after.len() - 1] == n);
            }
        }
    }
}

/// Who is linked to whom.
pub struct Neighbors {
    map: HashMap<u64, Vec<NodeKey>>,
}

impl Neighbors {
    /// Whoever a node is linked to.
    pub closed spec fn list(self, key: NodeKey) -> Seq<NodeKey> {
        let n = link_detection::number_of(key);
        if self.map@.contains_key(n) {
            self.map@[n]@
        } else {
            Seq::empty()
        }
    }

    fn note(&mut self, key: NodeKey, other: NodeKey)
        ensures
            forall|k: NodeKey| #[trigger]
                final(self).list(k) == (if k == key {
                    old(self).list(k).push(other)
                } else {
                    old(self).list(k)
                }),
    {
        let ghost before = *self;
        let n: u64 = key.number();
        let mut list: Vec<NodeKey> = match self.map.remove(&n) {
            Some(l) => l,
            None => Vec::new(),
        };
        assert(list@ =~= before.list(key));
        list.push(other);
        self.map.insert(n, list);
        proof {
            link_detection::lemma_numbers_differ();
            assert forall|k: NodeKey| #[trigger] self.list(k) == (if k == key {
                before.list(k).push(other)
            } else {
                before.list(k)
            }) by {
                assert(link_detection::number_of(k) == n ==> k == key);
            }
        }
    }

    /// Who is linked to whom by these links.
    pub fn of(edges: &Vec<Edge>) -> (r: Neighbors)
        ensures
            forall|k: NodeKey| #[trigger] r.list(k) == nbrs(edges@, edges@.len(), k),
    {
        let mut r = Neighbors { map: HashMap::new() };
        let mut e: usize = 0;
        while e < edges.len()
            invariant
                e <= edges@.len(),
                forall|k: NodeKey| #[trigger] r.list(k) == nbrs(edges@, e as nat, k),
            decreases edges@.len() - e,
        {
            let edge: Edge = edges[e];
            r.note(edge.a, edge.b);
            r.note(edge.b, edge.a);
            e += 1;
            assert forall|k: NodeKey| #[trigger] r.list(k) == nbrs(edges@, e as nat, k) by {}
        }
        r
    }

    /// How many links a node has.
    pub fn degree(&self, key: NodeKey) -> (r: usize)
        ensures
            r == self.list(key).len(),
    {
        match self.map.get(&key.number()) {
            Some(l) => l.len(),
            None => 0,
        }
    }
}

/// The depths that are known. A node without one has no tower in reach.
pub struct Depths {
    map: HashMap<u64, u32>,
}

impl Depths {
    /// The depth of a node.
    pub closed spec fn depth(self, key: NodeKey) -> Option<u32> {
        let n = link_detection::number_of(key);
        if self.map@.contains_key(n) {
            Some(self.map@[n])
        } else {
            None
        }
    }

    /// The depth of a node.
    pub fn get(&self, key: NodeKey) -> (r: Option<u32>)
        ensures
            r == self.depth(key),
    {
        match self.map.get(&key.number()) {
            Some(d) => Some(*d),
            None => None,
        }
    }

    fn put(&mut self, key: NodeKey, d: u32)
        ensures
            forall|k: NodeKey| #[trigger]
                final(self).depth(k) == (if k == key {
                    Some(d)
                } else {
                    old(self).depth(k)
                }),
    {
        let ghost before = *self;
        self.map.insert(key.number(), d);
        proof {
            link_detection::lemma_numbers_differ();
            assert forall|k: NodeKey| #[trigger] self.depth(k) == (if k == key {
                Some(d)
            } else {
                before.depth(k)
            }) by {
                assert(link_detection::number_of(k) == link_detection::number_of(key) ==> k == key);
            }
        }
    }
}

/// Whether the depths are those of everything within `d` hops, and `ring`
/// lists what is exactly that far.
spec fn known(
    depths: Depths,
    ring: Seq<NodeKey>,
    edges: Seq<Edge>,
    towers: Seq<Tower>,
    d: nat,
) -> bool {
    &&& forall|k: NodeKey| #[trigger]
        depths.depth(k) is Some <==> within(edges, towers, d).contains(k)
    &&& forall|k: NodeKey|
        (#[trigger] depths.depth(k)) matches Some(v) ==> v <= d && is_depth(
            edges,
            towers,
            k,
            v as nat,
        )
    &&& forall|k: NodeKey| #[trigger]
        ring.contains(k) <==> depths.depth(k) == Some(d as u32) && d <= u32::MAX
}

fn first_ring(towers: &Vec<Tower>, edges: &Vec<Edge>) -> (r: (Depths, Vec<NodeKey>))
    ensures
        known(r.0, r.1@, edges@, towers@, 0),
{
    let mut depths = Depths { map: HashMap::new() };
    let mut ring: Vec<NodeKey> = Vec::new();
    let mut t: usize = 0;
    while t < towers.len()
        invariant
            t <= towers@.len(),
            forall|k: NodeKey| #[trigger]
                depths.depth(k) is Some <==> exists|u: int|
                    0 <= u < t && k == NodeKey::Tower((#[trigger] towers@[u]).id),
            forall|k: NodeKey| (#[trigger] depths.depth(k)) matches Some(v) ==> v == 0,
            forall|k: NodeKey| #[trigger] ring@.contains(k) <==> depths.depth(k) is Some,
        decreases towers@.len() - t,
    {
        let key: NodeKey = NodeKey::Tower(towers[t].id);
        let ghost depths_before = depths;
        let ghost ring_before = ring@;
        depths.put(key, 0);
        ring.push(key);
        proof {
            assert(ring@[ring_before.len() as int] == key);
            assert forall|k: NodeKey| #[trigger] depths.depth(k) is Some <==> exists|u: int|
                0 <= u < t + 1 && k == NodeKey::Tower((#[trigger] towers@[u]).id) by {
                if depths_before.depth(k) is Some {
                    let u = choose|u: int|
                        0 <= u < t && k == NodeKey::Tower((#[trigger] towers@[u]).id);
                    assert(0 <= u < t + 1);
                }
                if k == key {
                    assert(k == NodeKey::Tower(towers@[t as int].id));
                }
                if exists|u: int|
                    0 <= u < t + 1 && k == NodeKey::Tower((#[trigger] towers@[u]).id) {
                    let u = choose|u: int|
                        0 <= u < t + 1 && k == NodeKey::Tower((#[trigger] towers@[u]).id);
                    if u < t {
                        assert(depths_before.depth(k) is Some);
                    }
                }
            }
            assert forall|k: NodeKey| #[trigger] ring@.contains(k) <==> depths.depth(k) is Some by {
                if ring_before.contains(k) {
                    let i = ring_before.index_of(k);
                    assert(ring@[i] == k);
                }
                if ring@.contains(k) && k != key {
                    let i = ring@.index_of(k);
                    assert(ring_before[i] == k);
                }
            }
        }
        t += 1;
    }
    (depths, ring)
}

/// Whether a node is new and linked to one of the first `i` of a ring.
spec fn beyond(
    near: Set<NodeKey>,
    ring: Seq<NodeKey>,
    edges: Seq<Edge>,
    i: int,
    k: NodeKey,
) -> bool {
    !near.contains(k) && exists|x: int| 0 <= x < i && linked(edges, #[trigger] ring[x], k)
}

/// Adds whoever is new among one node's neighbours.
fn spread(
    depths: &mut Depths,
    next: &mut Vec<NodeKey>,
    adj: &Neighbors,
    key: NodeKey,
    d: u32,
)
    requires
        forall|k: NodeKey| #[trigger]
            old(next)@.contains(k) <==> old(depths).depth(k) == Some(d),
    ensures
        forall|k: NodeKey| #[trigger]
            final(depths).depth(k) == (if old(depths).depth(k) is None && adj.list(key).contains(
                k,
            ) {
                Some(d)
            } else {
                old(depths).depth(k)
            }),
        forall|k: NodeKey| #[trigger]
            final(next)@.contains(k) <==> final(depths).depth(k) == Some(d),
{
    let ghost list = adj.list(key);
    let ghost start = *depths;
    if let Some(found) = adj.map.get(&key.number()) {
        let mut j: usize = 0;
        assert(found@ == list);
        while j < found.len()
            invariant
                j <= found@.len(),
                found@ == list,
                forall|k: NodeKey| #[trigger]
                    depths.depth(k) == (if start.depth(k) is None && list.take(j as int).contains(
                        k,
                    ) {
                        Some(d)
                    } else {
                        start.depth(k)
                    }),
                forall|k: NodeKey| #[trigger]
                    next@.contains(k) <==> depths.depth(k) == Some(d),
            decreases found@.len() - j,
        {
            let n: NodeKey = found[j];
            let ghost before = *depths;
            let ghost next_before = next@;
            if depths.get(n).is_none() {
                depths.put(n, d);
                next.push(n);
                assert(next@[next_before.len() as int] == n);
            }
            proof {
                let now = list.take(j + 1);
                let earlier = list.take(j as int);
                assert(now[j as int] == n);
                assert forall|k: NodeKey| now.contains(k) <==> earlier.contains(k) || k == n by {
                    if earlier.contains(k) {
                        let i = earlier.index_of(k);
                        assert(now[i] == k);
                    }
                    if now.contains(k) {
                        let i = now.index_of(k);
                        if i < j {
                            assert(earlier[i] == k);
                        }
                    }
                }
                assert forall|k: NodeKey| #[trigger] next@.contains(k) <==> depths.depth(k) == Some(
                    d,
                ) by {
                    if next_before.contains(k) {
                        let i = next_before.index_of(k);
                        assert(next@[i] == k);
                    }
                    if next@.contains(k) && !next_before.contains(k) {
                        let i = next@.index_of(k);
                        if i < next_before.len() {
                            assert(next_before[i] == k);
                        }
                    }
                }
            }
            j += 1;
        }
        assert(list.take(j as int) =~= list);
    } else {
        assert(list =~= Seq::<NodeKey>::empty());
    }
}

/// One ring further out.
fn next_ring(
    depths: &mut Depths,
    ring: &Vec<NodeKey>,
    adj: &Neighbors,
    d: u32,
    edges: &Vec<Edge>,
    towers: &Vec<Tower>,
) -> (next: Vec<NodeKey>)
    requires
        d < u32::MAX,
        known(*old(depths), ring@, edges@, towers@, d as nat),
        forall|k: NodeKey| #[trigger] adj.list(k) == nbrs(edges@, edges@.len(), k),
    ensures
        known(*final(depths), next@, edges@, towers@, (d + 1) as nat),
{
    let ghost near = within(edges@, towers@, d as nat);
    let ghost start = *depths;
    let mut next: Vec<NodeKey> = Vec::new();
    let mut i: usize = 0;
    while i < ring.len()
        invariant
            i <= ring@.len(),
            d < u32::MAX,
            near == within(edges@, towers@, d as nat),
            known(start, ring@, edges@, towers@, d as nat),
            forall|k: NodeKey| #[trigger] adj.list(k) == nbrs(edges@, edges@.len(), k),
            forall|k: NodeKey| #[trigger]
                depths.depth(k) == (if beyond(near, ring@, edges@, i as int, k) {
                    Some((d + 1) as u32)
                } else {
                    start.depth(k)
                }),
            forall|k: NodeKey| #[trigger]
                next@.contains(k) <==> depths.depth(k) == Some((d + 1) as u32),
        decreases ring@.len() - i,
    {
        let key: NodeKey = ring[i];
        let ghost before = *depths;
        spread(depths, &mut next, adj, key, d + 1);
        proof {
            assert forall|k: NodeKey| #[trigger] depths.depth(k) == (if beyond(
                near,
                ring@,
                edges@,
                i + 1,
                k,
            ) {
                Some((d + 1) as u32)
            } else {
                start.depth(k)
            }) by {
                lemma_nbrs(edges@, edges@.len(), key, k);
                assert(adj.list(key).contains(k) <==> linked(edges@, key, k));
                assert(start.depth(k) is Some <==> near.contains(k));
                if beyond(near, ring@, edges@, i as int, k) {
                    let x = choose|x: int| 0 <= x < i && linked(edges@, #[trigger] ring@[x], k);
                    assert(linked(edges@, ring@[x], k));
                }
                if beyond(near, ring@, edges@, i + 1, k) {
                    let x = choose|x: int|
                        0 <= x < i + 1 && linked(edges@, #[trigger] ring@[x], k);
                    if x < i {
                        assert(beyond(near, ring@, edges@, i as int, k));
                    }
                }
                if linked(edges@, key, k) && !near.contains(k) {
                    assert(linked(edges@, ring@[i as int], k));
                }
            }
        }
        i += 1;
    }
    proof {
        let far = within(edges@, towers@, (d + 1) as nat);
        assert forall|k: NodeKey| #[trigger] depths.depth(k) is Some <==> far.contains(k) by {
            assert(start.depth(k) is Some <==> near.contains(k));
            if beyond(near, ring@, edges@, i as int, k) {
                let x = choose|x: int| 0 <= x < i && linked(edges@, #[trigger] ring@[x], k);
                assert(ring@.contains(ring@[x]));
                assert(start.depth(ring@[x]) is Some);
                assert(near.contains(ring@[x]));
            }
            if far.contains(k) && !near.contains(k) {
                let j = choose|j: NodeKey| #[trigger] near.contains(j) && linked(edges@, j, k);
                assert(start.depth(j) is Some);
                let v = start.depth(j)->Some_0;
                assert(is_depth(edges@, towers@, j, v as nat));
                if v < d {
                    assert(within(edges@, towers@, (v + 1) as nat).contains(k));
                    lemma_within_grows(edges@, towers@, (v + 1) as nat, d as nat);
                }
                assert(ring@.contains(j));
                let x = ring@.index_of(j);
                assert(linked(edges@, ring@[x], k));
                assert(beyond(near, ring@, edges@, i as int, k));
            }
        }
        assert forall|k: NodeKey| (#[trigger] depths.depth(k)) is Some implies depths.depth(
            k,
        )->Some_0 <= d + 1 && is_depth(edges@, towers@, k, depths.depth(k)->Some_0 as nat) by {
            assert(start.depth(k) is Some <==> near.contains(k));
            assert(depths.depth(k) is Some <==> far.contains(k));
        }
    }
    next
}

/// Every node's depth: a search outward from all the towers at once, ring by
/// ring. A balloon that talks to a tower is at depth one.
pub fn depths_from_towers(
    edges: &Vec<Edge>,
    towers: &Vec<Tower>,
    keys: &Vec<NodeKey>,
) -> (r: Depths)
    requires
        grounding::ends_among(edges@, keys@),
        grounding::towers_among(towers@, keys@),
        keys@.len() < u32::MAX,
    ensures
        forall|k: NodeKey|
            match #[trigger] r.depth(k) {
                Some(d) => is_depth(edges@, towers@, k, d as nat),
                None => forall|d: nat| !within(edges@, towers@, d).contains(k),
            },
{
    let adj: Neighbors = Neighbors::of(edges);
    let (first, first_out) = first_ring(towers, edges);
    let mut depths: Depths = first;
    let mut ring: Vec<NodeKey> = first_out;
    let mut d: u32 = 0;
    let ghost all = keys@.to_set();
    proof {
        lemma_within_all(edges@, towers@, keys@, 0);
        vstd::seq_lib::seq_to_set_is_finite(keys@);
        keys@.lemma_cardinality_of_set();
        lemma_ring_counts(depths, ring@, edges@, towers@, keys@, 0);
    }
    while ring.len() > 0
        invariant
            grounding::ends_among(edges@, keys@),
            grounding::towers_among(towers@, keys@),
            keys@.len() < u32::MAX,
            all == keys@.to_set(),
            all.finite(),
            all.len() <= keys@.len(),
            forall|k: NodeKey| #[trigger] adj.list(k) == nbrs(edges@, edges@.len(), k),
            known(depths, ring@, edges@, towers@, d as nat),
            within(edges@, towers@, d as nat).subset_of(all),
            ring@.len() > 0 ==> d < within(edges@, towers@, d as nat).len(),
        decreases
                2 * (all.len() - within(edges@, towers@, d as nat).len()) + (if ring@.len() > 0 {
                    1int
                } else {
                    0
                }),
    {
        proof {
            vstd::set_lib::lemma_len_subset(within(edges@, towers@, d as nat), all);
        }
        let ghost here = within(edges@, towers@, d as nat);
        let next: Vec<NodeKey> = next_ring(&mut depths, &ring, &adj, d, edges, towers);
        proof {
            lemma_within_all(edges@, towers@, keys@, (d + 1) as nat);
            lemma_within_grows(edges@, towers@, d as nat, (d + 1) as nat);
            let there = within(edges@, towers@, (d + 1) as nat);
            vstd::set_lib::lemma_len_subset(there, all);
            vstd::set_lib::lemma_len_subset(here, there);
            if next@.len() > 0 {
                let k = next@[0];
                assert(next@.contains(k));
                assert(depths.depth(k) == Some((d + 1) as u32));
                assert(is_depth(edges@, towers@, k, (d + 1) as nat));
                assert(there.contains(k) && !here.contains(k));
                vstd::set_lib::lemma_len_subset(here.insert(k), there);
            }
        }
        ring = next;
        d = d + 1;
    }
    proof {
        let end = within(edges@, towers@, d as nat);
        assert forall|k: NodeKey|
            match #[trigger] depths.depth(k) {
                Some(v) => is_depth(edges@, towers@, k, v as nat),
                None => forall|c: nat| !within(edges@, towers@, c).contains(k),
            } by {
            if depths.depth(k) is None {
                assert(!end.contains(k));
                assert forall|c: nat| !within(edges@, towers@, c).contains(k) by {
                    if c <= d {
                        lemma_within_grows(edges@, towers@, c, d as nat);
                    } else {
                        assert(within(edges@, towers@, (d + 1) as nat) =~= end) by {
                            lemma_nothing_further(depths, ring@, edges@, towers@, d as nat);
                        }
                        lemma_within_stops(edges@, towers@, d as nat, c);
                    }
                }
            }
        }
    }
    depths
}

proof fn lemma_nothing_further(
    depths: Depths,
    ring: Seq<NodeKey>,
    edges: Seq<Edge>,
    towers: Seq<Tower>,
    d: nat,
)
    requires
        known(depths, ring, edges, towers, d),
        ring.len() == 0,
        d <= u32::MAX,
    ensures
        within(edges, towers, d + 1) =~= within(edges, towers, d),
{
    let near = within(edges, towers, d);
    let far = within(edges, towers, d + 1);
    assert forall|k: NodeKey| far.contains(k) implies near.contains(k) by {
        if !near.contains(k) {
            let j = choose|j: NodeKey| #[trigger] near.contains(j) && linked(edges, j, k);
            assert(depths.depth(j) is Some);
            let v = depths.depth(j)->Some_0;
            assert(!ring.contains(j));
            assert(v < d);
            assert(within(edges, towers, (v + 1) as nat).contains(k));
            lemma_within_grows(edges, towers, (v + 1) as nat, d);
        }
    }
    lemma_within_grows(edges, towers, d, d + 1);
}

proof fn lemma_within_all(edges: Seq<Edge>, towers: Seq<Tower>, keys: Seq<NodeKey>, d: nat)
    requires
        grounding::ends_among(edges, keys),
        grounding::towers_among(towers, keys),
    ensures
        within(edges, towers, d).subset_of(keys.to_set()),
        within(edges, towers, d).finite(),
    decreases d,
{
    let all = keys.to_set();
    let here = within(edges, towers, d);
    let links = grounding::links_of(edges);
    vstd::seq_lib::seq_to_set_is_finite(keys);
    if d > 0 {
        lemma_within_all(edges, towers, keys, (d - 1) as nat);
        let nearer = within(edges, towers, (d - 1) as nat);
        assert forall|k: NodeKey| here.contains(k) implies all.contains(k) by {
            if !nearer.contains(k) {
                let j = choose|j: NodeKey| #[trigger] nearer.contains(j) && linked(edges, j, k);
                let e = choose|e: int|
                    0 <= e < edges.len() && (#[trigger] links[e] == (j, k) || links[e] == (k, j));
                assert(links[e] == (edges[e].a, edges[e].b));
                assert(keys.contains(edges[e].a) && keys.contains(edges[e].b));
            }
        }
    } else {
        assert forall|k: NodeKey| here.contains(k) implies all.contains(k) by {
            let t = choose|t: int|
                0 <= t < towers.len() && k == NodeKey::Tower((#[trigger] towers[t]).id);
            assert(keys.contains(NodeKey::Tower(towers[t].id)));
        }
    }
    vstd::set_lib::lemma_len_subset(here, all);
}

proof fn lemma_ring_counts(
    depths: Depths,
    ring: Seq<NodeKey>,
    edges: Seq<Edge>,
    towers: Seq<Tower>,
    keys: Seq<NodeKey>,
    d: nat,
)
    requires
        known(depths, ring, edges, towers, d),
        within(edges, towers, d).finite(),
        d == 0,
    ensures
        ring.len() > 0 ==> within(edges, towers, d).len() > 0,
{
    if ring.len() > 0 {
        assert(ring.contains(ring[0]));
        assert(depths.depth(ring[0]) is Some);
        assert(within(edges, towers, d).contains(ring[0]));
        if within(edges, towers, d).len() == 0 {
            assert(within(edges, towers, d) =~= Set::empty());
        }
    }
}


proof fn lemma_chain_within(
    edges: Seq<Edge>,
    towers: Seq<Tower>,
    chain: Seq<NodeKey>,
    i: int,
)
    requires
        graph::is_chain(grounding::links_of(edges), edges.len(), chain),
        within(edges, towers, 0).contains(chain[0]),
        0 <= i < chain.len(),
    ensures
        within(edges, towers, i as nat).contains(chain[i]),
    decreases i,
{
    if i > 0 {
        lemma_chain_within(edges, towers, chain, i - 1);
        assert(graph::joined(
            grounding::links_of(edges),
            edges.len(),
            chain[i - 1],
            chain[i - 1 + 1],
        ));
        assert(linked(edges, chain[i - 1], chain[i]));
        assert(within(edges, towers, (i - 1) as nat).contains(chain[i - 1]));
    }
}

/// Whoever is grounded is some number of hops from a tower.
pub proof fn ground_has_depth(edges: Seq<Edge>, towers: Seq<Tower>, k: NodeKey)
    requires
        grounding::grounded(edges, towers, k),
    ensures
        exists|d: nat| #[trigger] within(edges, towers, d).contains(k),
{
    let links = grounding::links_of(edges);
    let t = choose|t: int|
        0 <= t < towers.len() && graph::connected(
            links,
            edges.len(),
            NodeKey::Tower((#[trigger] towers[t]).id),
            k,
        );
    let start = NodeKey::Tower(towers[t].id);
    let chain = choose|chain: Seq<NodeKey>| #[trigger]
        graph::runs(links, edges.len(), chain, start, k);
    assert(within(edges, towers, 0).contains(start));
    lemma_chain_within(edges, towers, chain, chain.len() - 1);
    assert(within(edges, towers, (chain.len() - 1) as nat).contains(k));
}

/// What a snapshot of the mesh looks like.
#[derive(Debug)]
pub struct Census {
    /// The depths of the balloons that have one, the least first.
    pub reached: Vec<u32>,
    /// Balloons without.
    pub unreachable: u64,
    /// Balloons without any link.
    pub isolated: u64,
    /// The balloons' links, counted at every end.
    pub deg_total: u128,
}

/// The depths of the first `k` balloons that have one.
pub open spec fn depths_among(depths: Depths, ids: Seq<u32>, k: nat) -> Seq<u32>
    decreases k,
{
    if k == 0 {
        Seq::empty()
    } else {
        match depths.depth(NodeKey::Balloon(ids[k - 1])) {
            Some(d) => depths_among(depths, ids, (k - 1) as nat).push(d),
            None => depths_among(depths, ids, (k - 1) as nat),
        }
    }
}

/// How many of the first `k` balloons have no link.
pub open spec fn isolated_among(adj: Neighbors, ids: Seq<u32>, k: nat) -> nat
    decreases k,
{
    if k == 0 {
        0
    } else {
        isolated_among(adj, ids, (k - 1) as nat) + (if adj.list(
            NodeKey::Balloon(ids[k - 1]),
        ).len() == 0 {
            1nat
        } else {
            0
        })
    }
}

/// The links of the first `k` balloons, counted at every end.
pub open spec fn degrees_among(adj: Neighbors, ids: Seq<u32>, k: nat) -> nat
    decreases k,
{
    if k == 0 {
        0
    } else {
        degrees_among(adj, ids, (k - 1) as nat) + adj.list(NodeKey::Balloon(ids[k - 1])).len()
    }
}

/// Whether numbers stand in ascending order.
pub open spec fn ascending(s: Seq<u32>) -> bool {
    forall|i: int, j: int| 0 <= i < j < s.len() ==> s[i] <= s[j]
}

/// Puts a number where it belongs.
fn insert_ascending(v: &mut Vec<u32>, x: u32)
    requires
        ascending(old(v)@),
    ensures
        ascending(final(v)@),
        final(v)@.len() == old(v)@.len() + 1,
        final(v)@.to_multiset() == old(v)@.to_multiset().insert(x),
{
    broadcast use vstd::seq_lib::group_to_multiset_ensures;

    let ghost before = v@;
    let mut at: usize = 0;
    while at < v.len() && v[at] <= x
        invariant
            at <= v@.len(),
            v@ == before,
            forall|i: int| 0 <= i < at ==> before[i] <= x,
        decreases v@.len() - at,
    {
        at += 1;
    }
    v.insert(at, x);
    let ghost after = v@;
    assert(after =~= before.insert(at as int, x));
    assert forall|i: int, j: int| 0 <= i < j < after.len() implies after[i] <= after[j] by {
        if j < at {
            assert(after[i] == before[i] && after[j] == before[j]);
        } else if j == at {
            assert(after[i] == before[i]);
        } else if i == at {
            assert(after[j] == before[j - 1]);
            assert(before[at as int] <= before[j - 1]);
        } else if i < at {
            assert(after[i] == before[i] && after[j] == before[j - 1]);
        } else {
            assert(after[i] == before[i - 1] && after[j] == before[j - 1]);
        }
    }
}

/// Counts up the balloons.
pub fn census(ids: &Vec<u32>, adj: &Neighbors, depths: &Depths) -> (c: Census)
    requires
        ids@.len() <= u32::MAX,
    ensures
        ascending(c.reached@),
        c.reached@.to_multiset() == depths_among(*depths, ids@, ids@.len()).to_multiset(),
        c.unreachable + c.reached@.len() == ids@.len(),
        c.isolated == isolated_among(*adj, ids@, ids@.len()),
        c.deg_total == degrees_among(*adj, ids@, ids@.len()),
{
    broadcast use vstd::seq_lib::group_to_multiset_ensures;

    let mut reached: Vec<u32> = Vec::new();
    let mut unreachable: u64 = 0;
    let mut isolated: u64 = 0;
    let mut deg_total: u128 = 0;
    let mut i: usize = 0;
    while i < ids.len()
        invariant
            i <= ids@.len(),
            ids@.len() <= u32::MAX,
            ascending(reached@),
            reached@.to_multiset() == depths_among(*depths, ids@, i as nat).to_multiset(),
            unreachable + reached@.len() == i,
            isolated == isolated_among(*adj, ids@, i as nat),
            isolated <= i,
            deg_total == degrees_among(*adj, ids@, i as nat),
            deg_total <= i * 0xffff_ffff_ffff_ffff,
        decreases ids@.len() - i,
    {
        let key: NodeKey = NodeKey::Balloon(ids[i]);
        let degree: usize = adj.degree(key);
        deg_total = deg_total + degree as u128;
        if degree == 0 {
            isolated = isolated + 1;
        }
        match depths.get(key) {
            Some(d) => {
                let ghost before = depths_among(*depths, ids@, i as nat);
                insert_ascending(&mut reached, d);
                assert(depths_among(*depths, ids@, (i + 1) as nat) == before.push(d));
                proof {
                    vstd::seq_lib::to_multiset_build(before, d);
                }
            },
            None => {
                unreachable = unreachable + 1;
            },
        }
        i += 1;
    }
    Census { reached, unreachable, isolated, deg_total }
}
} // verus!
