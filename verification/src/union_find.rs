//! Union-find over node keys: which nodes have been joined so far.
use std::collections::HashMap;
use vstd::prelude::*;

use crate::graph;
use crate::link_detection;
use crate::link_detection::NodeKey;

verus! {

broadcast use vstd::std_specs::hash::group_hash_axioms;

/// The representatives with one more node, on its own unless it is known.
pub open spec fn with_node(reps: Map<NodeKey, NodeKey>, key: NodeKey) -> Map<NodeKey, NodeKey> {
    if reps.contains_key(key) {
        reps
    } else {
        reps.insert(key, key)
    }
}

/// The representatives once everything under one representative has moved
/// under another.
pub open spec fn moved(
    reps: Map<NodeKey, NodeKey>,
    from: NodeKey,
    to: NodeKey,
) -> Map<NodeKey, NodeKey> {
    Map::new(
        |k: NodeKey| reps.contains_key(k),
        |k: NodeKey|
            if reps[k] == from {
                to
            } else {
                reps[k]
            },
    )
}

/// The representatives once two nodes have been joined.
pub open spec fn united(
    reps: Map<NodeKey, NodeKey>,
    a: NodeKey,
    b: NodeKey,
) -> Map<NodeKey, NodeKey> {
    let all = with_node(with_node(reps, a), b);
    moved(all, all[a], all[b])
}

/// Sets of nodes, each with one of its members as representative. The view
/// maps every node to its representative.
pub struct UnionFind {
    parent: HashMap<u64, NodeKey>,
    reps: Ghost<Map<NodeKey, NodeKey>>,
    depth: Ghost<Map<NodeKey, nat>>,
}

impl View for UnionFind {
    type V = Map<NodeKey, NodeKey>;

    closed spec fn view(&self) -> Map<NodeKey, NodeKey> {
        self.reps@
    }
}

impl UnionFind {
    spec fn up(self, k: NodeKey) -> NodeKey {
        self.parent@[link_detection::number_of(k)]
    }

    spec fn sound_at(self, k: NodeKey) -> bool {
        &&& self.reps@.contains_key(self.up(k))
        &&& self.reps@[self.up(k)] == self.reps@[k]
        &&& self.up(k) == k ==> self.reps@[k] == k
        &&& self.up(k) != k ==> self.depth@[self.up(k)] < self.depth@[k]
        &&& self.reps@.contains_key(self.reps@[k])
        &&& self.up(self.reps@[k]) == self.reps@[k]
        &&& self.reps@[k] != k ==> self.depth@[self.reps@[k]] < self.depth@[k]
    }

    /// Every chain of parents ends in the representative, and gets there.
    pub closed spec fn wf(self) -> bool {
        &&& forall|k: NodeKey|
            #![trigger self.reps@.contains_key(k)]
            #![trigger link_detection::number_of(k)]
            self.reps@.contains_key(k) <==> self.parent@.contains_key(
                link_detection::number_of(k),
            )
        &&& forall|k: NodeKey| self.reps@.contains_key(k) ==> #[trigger] self.sound_at(k)
    }

    /// A representative is a node that stands for itself.
    pub proof fn a_representative_stands_for_itself(self, k: NodeKey)
        requires
            self.wf(),
            self@.contains_key(k),
        ensures
            self@.contains_key(self@[k]),
            self@[self@[k]] == self@[k],
    {
        assert(self.sound_at(k));
        assert(self.sound_at(self@[k]));
    }

    /// No nodes yet.
    pub fn new() -> (r: UnionFind)
        ensures
            r.wf(),
            r@ == Map::<NodeKey, NodeKey>::empty(),
    {
        UnionFind {
            parent: HashMap::new(),
            reps: Ghost(Map::empty()),
            depth: Ghost(Map::empty()),
        }
    }

    /// Forgets every node.
    pub fn clear(&mut self)
        ensures
            final(self).wf(),
            final(self)@ == Map::<NodeKey, NodeKey>::empty(),
    {
        self.parent.clear();
        self.reps = Ghost(Map::empty());
        self.depth = Ghost(Map::empty());
    }

    /// Adds a node on its own, unless it is already there.
    pub fn make_set(&mut self, key: NodeKey)
        requires
            old(self).wf(),
        ensures
            final(self).wf(),
            final(self)@ == with_node(old(self)@, key),
    {
        let n: u64 = key.number();
        if self.parent.contains_key(&n) {
            return ;
        }
        let ghost before = *self;
        self.parent.insert(n, key);
        self.reps = Ghost(self.reps@.insert(key, key));
        self.depth = Ghost(self.depth@.insert(key, 0));
        proof {
            link_detection::lemma_numbers_differ();
            assert forall|k: NodeKey| #[trigger] before.reps@.contains_key(k) implies self.up(k)
                == before.up(k) && k != key by {}
            assert forall|k: NodeKey| self.reps@.contains_key(k) implies #[trigger] self.sound_at(
                k,
            ) by {
                if k != key {
                    assert(before.reps@.contains_key(k));
                    assert(before.sound_at(k));
                }
            }
        }
    }

    fn climb(&self, key: NodeKey) -> (r: NodeKey)
        requires
            self.parent@.contains_key(link_detection::number_of(key)),
        ensures
            r == self.up(key),
    {
        match self.parent.get(&key.number()) {
            Some(p) => *p,
            None => key,
        }
    }

    fn hang(&mut self, key: NodeKey, under: NodeKey)
        requires
            old(self).wf(),
            old(self).reps@.contains_key(key),
            old(self).reps@[key] == under,
            under != key,
        ensures
            final(self).wf(),
            final(self).reps == old(self).reps,
            final(self).depth == old(self).depth,
            final(self).up(key) == under,
            forall|k: NodeKey|
                old(self).reps@.contains_key(k) && k != key ==> #[trigger] final(self).up(k)
                    == old(self).up(k),
    {
        let ghost before = *self;
        self.parent.insert(key.number(), under);
        proof {
            link_detection::lemma_numbers_differ();
            assert forall|k: NodeKey|
                before.reps@.contains_key(k) && k != key implies #[trigger] self.up(k)
                == before.up(k) by {}
            assert forall|k: NodeKey| self.reps@.contains_key(k) implies #[trigger] self.sound_at(
                k,
            ) by {
                assert(before.sound_at(k));
                assert(before.sound_at(key));
                assert(before.sound_at(before.reps@[k]));
            }
        }
    }

    /// The representative of a node, which joins as a node of its own when it
    /// is new. The chain walked is shortened on the way.
    pub fn find(&mut self, key: NodeKey) -> (r: NodeKey)
        requires
            old(self).wf(),
        ensures
            final(self).wf(),
            final(self)@ == with_node(old(self)@, key),
            r == final(self)@[key],
    {
        self.make_set(key);
        let ghost reps = self.reps@;
        let mut root: NodeKey = key;
        let mut above: NodeKey = self.climb(root);
        assert(reps.contains_key(key));
        while above != root
            invariant
                self.wf(),
                self.reps@ == reps,
                reps.contains_key(key),
                reps.contains_key(root),
                reps[root] == reps[key],
                above == self.up(root),
            decreases self.depth@[root],
        {
            assert(self.sound_at(root));
            root = above;
            above = self.climb(root);
        }
        assert(self.sound_at(root));
        let mut cur: NodeKey = key;
        let mut next: NodeKey = self.climb(cur);
        while next != root
            invariant
                self.wf(),
                self.reps@ == reps,
                reps.contains_key(key),
                reps.contains_key(cur),
                reps[cur] == reps[key],
                root == reps[key],
                next == self.up(cur),
            decreases self.depth@[cur],
        {
            assert(self.sound_at(key));
            assert(self.sound_at(cur));
            self.hang(cur, root);
            cur = next;
            next = self.climb(cur);
        }
        root
    }

    /// Joins the sets of two nodes: the first representative goes under the
    /// second.
    pub fn union(&mut self, a: NodeKey, b: NodeKey)
        requires
            old(self).wf(),
        ensures
            final(self).wf(),
            final(self)@ == united(old(self)@, a, b),
    {
        let root_a: NodeKey = self.find(a);
        let root_b: NodeKey = self.find(b);
        let ghost all = self.reps@;
        proof {
            assert(all.contains_key(a) && all.contains_key(b));
            assert(all[a] == root_a && all[b] == root_b);
        }
        if root_a == root_b {
            assert(moved(all, root_a, root_b) =~= all);
            return ;
        }
        let ghost before = *self;
        self.parent.insert(root_a.number(), root_b);
        self.reps = Ghost(moved(all, root_a, root_b));
        self.depth = Ghost(
            Map::new(
                |k: NodeKey| before.depth@.contains_key(k) || all.contains_key(k),
                |k: NodeKey|
                    if all.contains_key(k) && all[k] == root_a {
                        before.depth@[k] + before.depth@[root_b] + 1
                    } else {
                        before.depth@[k]
                    },
            ),
        );
        proof {
            link_detection::lemma_numbers_differ();
            assert(before.sound_at(a) && before.sound_at(b));
            assert forall|k: NodeKey| #[trigger] all.contains_key(k) && k != root_a implies self.up(k)
                == before.up(k) by {}
            assert(self.up(root_a) == root_b);
            assert forall|k: NodeKey| self.reps@.contains_key(k) implies #[trigger] self.sound_at(
                k,
            ) by {
                assert(all.contains_key(k));
                assert(before.sound_at(k));
                assert(before.sound_at(root_a));
                assert(before.sound_at(root_b));
                assert(before.sound_at(all[k]));
                assert(all.contains_key(all[k]) && all.contains_key(before.up(k)));
                assert(all[root_a] == root_a && all[root_b] == root_b);
                if k == root_a {
                    assert(self.up(k) == root_b);
                } else {
                    assert(self.up(k) == before.up(k));
                    if all[k] != root_a {
                        assert(self.up(all[k]) == before.up(all[k]));
                    } else {
                        assert(before.up(k) != k);
                        assert(self.depth@[k] == before.depth@[k] + before.depth@[root_b] + 1);
                        assert(self.depth@[before.up(k)] == before.depth@[before.up(k)]
                            + before.depth@[root_b] + 1);
                    }
                }
            }
        }
    }
}

/// Whether the representatives tell exactly which nodes hang together over
/// the first `k` links.
pub open spec fn follows(
    reps: Map<NodeKey, NodeKey>,
    links: Seq<(NodeKey, NodeKey)>,
    k: nat,
) -> bool {
    forall|x: NodeKey, y: NodeKey|
        #![trigger reps.contains_key(x), reps.contains_key(y)]
        reps.contains_key(x) && reps.contains_key(y) ==> (reps[x] == reps[y]
            <==> graph::connected(links, k, x, y))
}

/// Joining the ends of every link in turn leaves two nodes with the same
/// representative exactly if a chain of links runs between them: the step from
/// `k` links to one more.
pub proof fn unions_follow_links(
    reps: Map<NodeKey, NodeKey>,
    links: Seq<(NodeKey, NodeKey)>,
    k: nat,
)
    requires
        k < links.len(),
        follows(reps, links, k),
        reps.contains_key(links[k as int].0),
        reps.contains_key(links[k as int].1),
    ensures
        follows(united(reps, links[k as int].0, links[k as int].1), links, k + 1),
{
    let (p, q) = links[k as int];
    let after = united(reps, p, q);
    assert forall|x: NodeKey, y: NodeKey|
        #![trigger after.contains_key(x), after.contains_key(y)]
        after.contains_key(x) && after.contains_key(y) implies (after[x] == after[y]
        <==> graph::connected(links, k + 1, x, y)) by {
        assert(reps.contains_key(x) && reps.contains_key(y));
        graph::a_link_bridges(links, k, x, y);
        assert(reps[x] == reps[p] <==> graph::connected(links, k, x, p));
        assert(reps[x] == reps[q] <==> graph::connected(links, k, x, q));
        assert(reps[q] == reps[y] <==> graph::connected(links, k, q, y));
        assert(reps[p] == reps[y] <==> graph::connected(links, k, p, y));
        assert(reps[x] == reps[y] <==> graph::connected(links, k, x, y));
    }
}

} // verus!
