//! Union-find over plain indices.
use vstd::prelude::*;

use crate::graph;

verus! {

/// The representatives once everything under one has moved under another.
pub open spec fn merged(reps: Seq<u32>, from: u32, to: u32) -> Seq<u32> {
    Seq::new(
        reps.len(),
        |i: int|
            if reps[i] == from {
                to
            } else {
                reps[i]
            },
    )
}

/// Every index its own representative.
pub open spec fn apart(n: nat) -> Seq<u32> {
    Seq::new(n, |i: int| i as u32)
}

/// Sets of the indices below some size. The view gives every index its
/// representative.
pub struct Forest {
    parent: Vec<u32>,
    reps: Ghost<Seq<u32>>,
    depth: Ghost<Seq<nat>>,
}

impl View for Forest {
    type V = Seq<u32>;

    closed spec fn view(&self) -> Seq<u32> {
        self.reps@
    }
}

impl Forest {
    spec fn sound_at(self, i: int) -> bool {
        let up = self.parent@[i] as int;
        let rep = self.reps@[i] as int;
        &&& 0 <= up < self.reps@.len()
        &&& self.reps@[up] == self.reps@[i]
        &&& up == i ==> rep == i
        &&& up != i ==> self.depth@[up] < self.depth@[i]
        &&& 0 <= rep < self.reps@.len()
        &&& self.parent@[rep] == rep
        &&& rep != i ==> self.depth@[rep] < self.depth@[i]
    }

    /// Every chain of parents ends in the representative, and gets there.
    pub closed spec fn wf(self) -> bool {
        &&& self.parent@.len() == self.reps@.len()
        &&& self.depth@.len() == self.reps@.len()
        &&& forall|i: int| 0 <= i < self.reps@.len() ==> #[trigger] self.sound_at(i)
    }

    /// A representative is an index that stands for itself.
    pub proof fn a_representative_stands_for_itself(self, i: int)
        requires
            self.wf(),
            0 <= i < self@.len(),
        ensures
            self@[i] < self@.len(),
            self@[self@[i] as int] == self@[i],
    {
        assert(self.sound_at(i));
        assert(self.sound_at(self@[i] as int));
    }

    /// So many indices, each on its own.
    pub fn new(n: u32) -> (r: Forest)
        ensures
            r.wf(),
            r@ == apart(n as nat),
    {
        let mut parent: Vec<u32> = Vec::new();
        let mut i: u32 = 0;
        while i < n
            invariant
                i <= n,
                parent@ == apart(i as nat),
            decreases n - i,
        {
            parent.push(i);
            i += 1;
            assert(parent@ =~= apart(i as nat));
        }
        let r = Forest {
            parent,
            reps: Ghost(apart(n as nat)),
            depth: Ghost(Seq::new(n as nat, |i: int| 0nat)),
        };
        assert forall|i: int| 0 <= i < r.reps@.len() implies #[trigger] r.sound_at(i) by {}
        r
    }

    /// How many indices there are.
    pub fn size(&self) -> (n: usize)
        requires
            self.wf(),
        ensures
            n == self@.len(),
    {
        self.parent.len()
    }

    /// Puts every index on its own again.
    pub fn reset(&mut self)
        requires
            old(self).wf(),
            old(self)@.len() <= u32::MAX,
        ensures
            final(self).wf(),
            final(self)@ == apart(old(self)@.len()),
    {
        let n: usize = self.parent.len();
        let mut i: usize = 0;
        while i < n
            invariant
                i <= n,
                n == self.parent@.len(),
                n <= u32::MAX,
                forall|j: int| 0 <= j < i ==> self.parent@[j] == j,
            decreases n - i,
        {
            self.parent.set(i, i as u32);
            i += 1;
        }
        self.reps = Ghost(apart(n as nat));
        self.depth = Ghost(Seq::new(n as nat, |i: int| 0nat));
        assert forall|i: int| 0 <= i < self.reps@.len() implies #[trigger] self.sound_at(i) by {}
    }

    /// The representative of an index. The chain walked is shortened on the
    /// way.
    pub fn find(&mut self, x: u32) -> (r: u32)
        requires
            old(self).wf(),
            x < old(self)@.len(),
        ensures
            final(self).wf(),
            final(self)@ == old(self)@,
            r == old(self)@[x as int],
            r < old(self)@.len(),
    {
        let ghost reps = self.reps@;
        let mut root: u32 = x;
        while self.parent[root as usize] != root
            invariant
                self.wf(),
                self.reps@ == reps,
                x < reps.len(),
                root < reps.len(),
                reps[root as int] == reps[x as int],
            decreases self.depth@[root as int],
        {
            assert(self.sound_at(root as int));
            root = self.parent[root as usize];
        }
        assert(self.sound_at(root as int));
        let mut cur: u32 = x;
        while self.parent[cur as usize] != root
            invariant
                self.wf(),
                self.reps@ == reps,
                x < reps.len(),
                cur < reps.len(),
                root < reps.len(),
                reps[cur as int] == reps[x as int],
                root == reps[x as int],
            decreases self.depth@[cur as int],
        {
            let ghost before = *self;
            assert(self.sound_at(cur as int));
            let next: u32 = self.parent[cur as usize];
            self.parent.set(cur as usize, root);
            proof {
                assert forall|i: int| 0 <= i < self.reps@.len() implies #[trigger] self.sound_at(
                    i,
                ) by {
                    assert(before.sound_at(i));
                    assert(before.sound_at(cur as int));
                    assert(before.sound_at(reps[i] as int));
                }
            }
            cur = next;
        }
        root
    }

    /// Joins the sets of two indices: the first representative goes under the
    /// second.
    pub fn union(&mut self, a: u32, b: u32)
        requires
            old(self).wf(),
            a < old(self)@.len(),
            b < old(self)@.len(),
        ensures
            final(self).wf(),
            final(self)@ == merged(old(self)@, old(self)@[a as int], old(self)@[b as int]),
    {
        let ra: u32 = self.find(a);
        let rb: u32 = self.find(b);
        let ghost reps = self.reps@;
        if ra == rb {
            assert(merged(reps, ra, rb) =~= reps);
            return ;
        }
        let ghost before = *self;
        self.parent.set(ra as usize, rb);
        self.reps = Ghost(merged(reps, ra, rb));
        self.depth = Ghost(
            Seq::new(
                reps.len(),
                |i: int|
                    if reps[i] == ra {
                        before.depth@[i] + before.depth@[rb as int] + 1
                    } else {
                        before.depth@[i]
                    },
            ),
        );
        proof {
            assert(before.sound_at(a as int) && before.sound_at(b as int));
            assert forall|i: int| 0 <= i < self.reps@.len() implies #[trigger] self.sound_at(i) by {
                assert(before.sound_at(i));
                assert(before.sound_at(ra as int));
                assert(before.sound_at(rb as int));
                assert(before.sound_at(reps[i] as int));
            }
        }
    }
}

/// Whether the representatives tell exactly which indices hang together over
/// the first `k` links.
pub open spec fn follows(reps: Seq<u32>, links: Seq<(u32, u32)>, k: nat) -> bool {
    forall|x: u32, y: u32|
        #![trigger reps[x as int], reps[y as int]]
        x < reps.len() && y < reps.len() ==> (reps[x as int] == reps[y as int]
            <==> graph::connected(links, k, x, y))
}

/// Indices on their own hang together over no link.
pub proof fn apart_follows(links: Seq<(u32, u32)>, n: nat)
    requires
        n <= u32::MAX,
    ensures
        follows(apart(n), links, 0),
{
    let reps = apart(n);
    assert forall|x: u32, y: u32|
        #![trigger reps[x as int], reps[y as int]]
        x < reps.len() && y < reps.len() implies (reps[x as int] == reps[y as int]
        <==> graph::connected(links, 0, x, y)) by {
        graph::connected_by_nothing(links, x, y);
    }
}

/// Joining the ends of one link more keeps step with the links.
pub proof fn merges_follow_links(reps: Seq<u32>, links: Seq<(u32, u32)>, k: nat)
    requires
        k < links.len(),
        follows(reps, links, k),
        links[k as int].0 < reps.len(),
        links[k as int].1 < reps.len(),
    ensures
        follows(
            merged(reps, reps[links[k as int].0 as int], reps[links[k as int].1 as int]),
            links,
            k + 1,
        ),
{
    let (p, q) = links[k as int];
    let after = merged(reps, reps[p as int], reps[q as int]);
    assert forall|x: u32, y: u32|
        #![trigger after[x as int], after[y as int]]
        x < after.len() && y < after.len() implies (after[x as int] == after[y as int]
        <==> graph::connected(links, k + 1, x, y)) by {
        graph::a_link_bridges(links, k, x, y);
        assert(reps[x as int] == reps[p as int] <==> graph::connected(links, k, x, p));
        assert(reps[x as int] == reps[q as int] <==> graph::connected(links, k, x, q));
        assert(reps[q as int] == reps[y as int] <==> graph::connected(links, k, q, y));
        assert(reps[p as int] == reps[y as int] <==> graph::connected(links, k, p, y));
        assert(reps[x as int] == reps[y as int] <==> graph::connected(links, k, x, y));
    }
}

} // verus!
