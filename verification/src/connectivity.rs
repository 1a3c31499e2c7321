//! Which balloons can reach a tower at all, over any number of hops.
use std::collections::HashSet;

use vstd::prelude::*;

use crate::forest;
use crate::forest::Forest;
use crate::graph;
use crate::link_detection;
use crate::link_detection::Candidate;

verus! {

/// How far the search for links has come.
#[verifier::ext_equal]
pub struct Sightings {
    /// Pairs of positions that have been tested, the smaller first.
    pub seen: Set<(u32, u32)>,
    /// The pairs in range, in the order they came up.
    pub links: Seq<(u32, u32)>,
}

/// Two positions, the smaller first.
pub open spec fn ascending(i: int, j: int) -> (u32, u32) {
    if i < j {
        (i as u32, j as u32)
    } else {
        (j as u32, i as u32)
    }
}

/// After one candidate of node `i`: a pair counts the first time it comes up.
pub open spec fn sighted(s: Sightings, i: int, c: Candidate) -> Sightings {
    let pair = ascending(i, c.index as int);
    if c.index == i || s.seen.contains(pair) {
        s
    } else {
        Sightings {
            seen: s.seen.insert(pair),
            links: if c.in_range {
                s.links.push((i as u32, c.index as u32))
            } else {
                s.links
            },
        }
    }
}

/// After the first `k` candidates of node `i`.
pub open spec fn sighted_row(s: Sightings, i: int, row: Seq<Candidate>, k: nat) -> Sightings
    decreases k,
{
    if k == 0 {
        s
    } else {
        sighted(sighted_row(s, i, row, (k - 1) as nat), i, row[k - 1])
    }
}

/// After the candidates of the first `n` nodes.
pub open spec fn sighted_rows(rows: Seq<Vec<Candidate>>, n: nat) -> Sightings
    decreases n,
{
    if n == 0 {
        Sightings { seen: Set::empty(), links: Seq::empty() }
    } else {
        sighted_row(
            sighted_rows(rows, (n - 1) as nat),
            n - 1,
            rows[n - 1]@,
            rows[n - 1]@.len(),
        )
    }
}

/// Whether a chain of links runs from node `i` to one of the towers, which
/// stand after the balloons.
pub open spec fn reaches_tower(
    links: Seq<(u32, u32)>,
    n_balloons: int,
    n: int,
    i: int,
) -> bool {
    exists|t: u32|
        n_balloons <= t < n && #[trigger] graph::connected(links, links.len(), t, i as u32)
}

/// The ids of the first `k` balloons that can reach a tower.
pub open spec fn grounded_ids(
    ids: Seq<u32>,
    links: Seq<(u32, u32)>,
    n: int,
    k: int,
) -> Set<u32> {
    Set::new(
        |id: u32|
            exists|i: int|
                0 <= i < k && #[trigger] ids[i] == id && reaches_tower(
                    links,
                    ids.len() as int,
                    n,
                    i,
                ),
    )
}

spec fn packed(p: (u32, u32)) -> u64 {
    (p.0 * 0x1_0000_0000 + p.1) as u64
}

proof fn lemma_packed_apart()
    ensures
        forall|p: (u32, u32), q: (u32, u32)|
            #![trigger packed(p), packed(q)]
            packed(p) == packed(q) ==> p == q,
{
    assert forall|p: (u32, u32), q: (u32, u32)|
        #![trigger packed(p), packed(q)]
        packed(p) == packed(q) implies p == q by {
        assert(p.0 * 0x1_0000_0000 + p.1 == q.0 * 0x1_0000_0000 + q.1);
    }
}

fn pack(i: usize, j: usize) -> (r: u64)
    requires
        i <= u32::MAX,
        j <= u32::MAX,
    ensures
        r == packed(ascending(i as int, j as int)),
{
    let (a, b) = if i < j {
        (i, j)
    } else {
        (j, i)
    };
    (a as u64) * 0x1_0000_0000 + (b as u64)
}

spec fn stands_for(seen: Set<u64>, pairs: Set<(u32, u32)>) -> bool {
    forall|p: (u32, u32)|
        #![trigger packed(p)]
        #![trigger pairs.contains(p)]
        seen.contains(packed(p)) <==> pairs.contains(p)
}

/// The buffers of the search, kept from call to call.
pub struct ConnectivityScratch {
    forest: Forest,
    seen: HashSet<u64>,
}

impl ConnectivityScratch {
    /// How many nodes it has room for.
    pub closed spec fn size(self) -> nat {
        self.forest@.len()
    }

    pub closed spec fn wf(self) -> bool {
        self.forest.wf() && self.forest@.len() <= u32::MAX
    }

    /// Room for so many balloons and towers.
    pub fn new(n_balloons: usize, n_towers: usize) -> (r: ConnectivityScratch)
        requires
            n_balloons + n_towers <= u32::MAX,
        ensures
            r.wf(),
            r.size() == n_balloons + n_towers,
    {
        ConnectivityScratch {
            forest: Forest::new((n_balloons + n_towers) as u32),
            seen: HashSet::new(),
        }
    }

    /// Which balloons belong to a component with at least one tower. Nodes are
    /// addressed by position, balloons first.
    pub fn grounded_balloon_ids(
        &mut self,
        ids: &Vec<u32>,
        n_towers: usize,
        rows: &Vec<Vec<Candidate>>,
    ) -> (r: HashSet<u32>)
        requires
            old(self).wf(),
            old(self).size() >= ids@.len() + n_towers,
            link_detection::rows_within(rows@, (ids@.len() + n_towers) as nat),
        ensures
            final(self).wf(),
            final(self).size() == old(self).size(),
            r@ == grounded_ids(
                ids@,
                sighted_rows(rows@, (ids@.len() + n_towers) as nat).links,
                ids@.len() + n_towers,
                ids@.len() as int,
            ),
    {
        let room: usize = self.forest.size();
        assert(ids@.len() + n_towers <= room);
        let n: usize = ids.len() + n_towers;
        self.forest.reset();
        self.seen.clear();
        self.join_all(rows, n);
        self.collect(ids, n, Ghost(sighted_rows(rows@, n as nat).links))
    }

    fn join_all(&mut self, rows: &Vec<Vec<Candidate>>, n: usize)
        requires
            old(self).wf(),
            old(self).forest@ == forest::apart(old(self).forest@.len()),
            old(self).forest@.len() >= n,
            old(self).seen@ == Set::<u64>::empty(),
            link_detection::rows_within(rows@, n as nat),
        ensures
            final(self).wf(),
            final(self).forest@.len() == old(self).forest@.len(),
            forest::follows(
                final(self).forest@,
                sighted_rows(rows@, n as nat).links,
                sighted_rows(rows@, n as nat).links.len(),
            ),
    {
        broadcast use vstd::std_specs::hash::group_hash_axioms;

        let ghost room = self.forest@.len();
        proof {
            forest::apart_follows(Seq::empty(), room);
        }
        let mut i: usize = 0;
        while i < n
            invariant
                i <= n,
                n <= u32::MAX,
                self.wf(),
                self.forest@.len() == room,
                n <= room,
                link_detection::rows_within(rows@, n as nat),
                stands_for(self.seen@, sighted_rows(rows@, i as nat).seen),
                forest::follows(
                    self.forest@,
                    sighted_rows(rows@, i as nat).links,
                    sighted_rows(rows@, i as nat).links.len(),
                ),
            decreases n - i,
        {
            let ghost start = sighted_rows(rows@, i as nat);
            let mut k: usize = 0;
            while k < rows[i].len()
                invariant
                    i < n,
                    n <= u32::MAX,
                    self.wf(),
                    self.forest@.len() == room,
                n <= room,
                    link_detection::rows_within(rows@, n as nat),
                    k <= rows@[i as int]@.len(),
                    stands_for(
                        self.seen@,
                        sighted_row(start, i as int, rows@[i as int]@, k as nat).seen,
                    ),
                    forest::follows(
                        self.forest@,
                        sighted_row(start, i as int, rows@[i as int]@, k as nat).links,
                        sighted_row(start, i as int, rows@[i as int]@, k as nat).links.len(),
                    ),
                decreases rows@[i as int]@.len() - k,
            {
                let ghost s = sighted_row(start, i as int, rows@[i as int]@, k as nat);
                let c: Candidate = rows[i][k];
                assert(c == rows@[i as int]@[k as int]);
                if c.index != i {
                    let ghost pair = ascending(i as int, c.index as int);
                    let ghost seen_before = self.seen@;
                    proof {
                        lemma_packed_apart();
                        assert(self.seen@.contains(packed(pair)) <==> s.seen.contains(pair));
                    }
                    if self.seen.insert(pack(i, c.index)) {
                        let ghost reps = self.forest@;
                        if c.in_range {
                            self.forest.union(i as u32, c.index as u32);
                            proof {
                                let links = s.links.push((i as u32, c.index as u32));
                                lemma_more_links(reps, s.links, links);
                                forest::merges_follow_links(reps, links, s.links.len());
                            }
                        }
                        assert forall|p: (u32, u32)|
                            #![trigger packed(p)]
                            #![trigger s.seen.insert(pair).contains(p)]
                            self.seen@.contains(packed(p)) <==> s.seen.insert(pair).contains(p) by {
                            assert(seen_before.contains(packed(p)) <==> s.seen.contains(p));
                        }
                    } else {
                        assert(self.seen@ =~= seen_before);
                    }
                }
                k += 1;
            }
            i += 1;
        }
    }

    fn collect(&mut self, ids: &Vec<u32>, n: usize, links: Ghost<Seq<(u32, u32)>>) -> (r: HashSet<
        u32,
    >)
        requires
            old(self).wf(),
            ids@.len() <= n <= old(self).forest@.len(),
            forest::follows(old(self).forest@, links@, links@.len()),
        ensures
            final(self).wf(),
            final(self).forest@ == old(self).forest@,
            r@ == grounded_ids(ids@, links@, n as int, ids@.len() as int),
    {
        broadcast use vstd::std_specs::hash::group_hash_axioms;

        let ghost reps = self.forest@;
        let nb: usize = ids.len();
        let mut roots: HashSet<u32> = HashSet::new();
        let mut t: usize = nb;
        while t < n
            invariant
                nb <= t <= n,
                n <= reps.len(),
                n <= u32::MAX,
                self.wf(),
                self.forest@ == reps,
                forall|x: u32|
                    roots@.contains(x) <==> exists|y: u32| nb <= y < t && #[trigger] reps[y as int]
                        == x,
            decreases n - t,
        {
            let ghost before = roots@;
            let root: u32 = self.forest.find(t as u32);
            roots.insert(root);
            assert forall|x: u32|
                roots@.contains(x) <==> exists|y: u32| nb <= y < t + 1 && #[trigger] reps[y as int]
                    == x by {
                if roots@.contains(x) {
                    if before.contains(x) {
                        let y = choose|y: u32| nb <= y < t && #[trigger] reps[y as int] == x;
                        assert(reps[y as int] == x);
                    } else {
                        assert(reps[(t as u32) as int] == x);
                    }
                }
            }
            t += 1;
        }
        let mut r: HashSet<u32> = HashSet::new();
        let mut i: usize = 0;
        while i < nb
            invariant
                i <= nb,
                nb == ids@.len(),
                nb <= n,
                n <= reps.len(),
                n <= u32::MAX,
                self.wf(),
                self.forest@ == reps,
                forest::follows(reps, links@, links@.len()),
                forall|x: u32|
                    roots@.contains(x) <==> exists|y: u32| nb <= y < n && #[trigger] reps[y as int]
                        == x,
                r@ == grounded_ids(ids@, links@, n as int, i as int),
            decreases nb - i,
        {
            let ghost before = r@;
            let root: u32 = self.forest.find(i as u32);
            let grounded: bool = roots.contains(&root);
            assert(grounded == reaches_tower(links@, nb as int, n as int, i as int)) by {
                if grounded {
                    let y = choose|y: u32| nb <= y < n && #[trigger] reps[y as int] == root;
                    assert(reps[y as int] == reps[(i as u32) as int]);
                    assert(graph::connected(links@, links@.len(), y, i as u32));
                }
                if reaches_tower(links@, nb as int, n as int, i as int) {
                    let y = choose|y: u32|
                        nb <= y < n && #[trigger] graph::connected(
                            links@,
                            links@.len(),
                            y,
                            i as u32,
                        );
                    assert(reps[y as int] == reps[(i as u32) as int]);
                }
            }
            if grounded {
                r.insert(ids[i]);
            }
            assert forall|id: u32| #[trigger] r@.contains(id) <==> grounded_ids(
                ids@,
                links@,
                n as int,
                i + 1,
            ).contains(id) by {
                if before.contains(id) {
                    let x = choose|x: int|
                        0 <= x < i && #[trigger] ids@[x] == id && reaches_tower(
                            links@,
                            nb as int,
                            n as int,
                            x,
                        );
                    assert(ids@[x] == id);
                }
                if grounded {
                    assert(ids@[i as int] == ids@[i as int]);
                }
                if grounded_ids(ids@, links@, n as int, i + 1).contains(id) {
                    let x = choose|x: int|
                        0 <= x < i + 1 && #[trigger] ids@[x] == id && reaches_tower(
                            links@,
                            nb as int,
                            n as int,
                            x,
                        );
                    if x < i {
                        assert(grounded_ids(ids@, links@, n as int, i as int).contains(id));
                    }
                }
            }
            assert(r@ =~= grounded_ids(ids@, links@, n as int, i + 1));
            i += 1;
        }
        r
    }
}

proof fn lemma_same_prefix(
    a: Seq<(u32, u32)>,
    b: Seq<(u32, u32)>,
    k: nat,
    x: u32,
    y: u32,
)
    requires
        k <= a.len(),
        k <= b.len(),
        forall|j: int| 0 <= j < k ==> a[j] == b[j],
        graph::connected(a, k, x, y),
    ensures
        graph::connected(b, k, x, y),
{
    let chain = choose|chain: Seq<u32>| #[trigger] graph::runs(a, k, chain, x, y);
    assert forall|i: int| #![trigger chain[i]] 0 <= i < chain.len() - 1 implies graph::joined(
        b,
        k,
        chain[i],
        chain[i + 1],
    ) by {
        assert(graph::joined(a, k, chain[i], chain[i + 1]));
        let j = choose|j: int|
            0 <= j < k && (#[trigger] a[j] == (chain[i], chain[i + 1]) || a[j] == (
                chain[i + 1],
                chain[i],
            ));
        assert(b[j] == a[j]);
    }
    assert(graph::runs(b, k, chain, x, y));
}

proof fn lemma_more_links(reps: Seq<u32>, a: Seq<(u32, u32)>, b: Seq<(u32, u32)>)
    requires
        forest::follows(reps, a, a.len()),
        a.len() <= b.len(),
        forall|j: int| 0 <= j < a.len() ==> a[j] == b[j],
    ensures
        forest::follows(reps, b, a.len()),
{
    assert forall|x: u32, y: u32|
        #![trigger reps[x as int], reps[y as int]]
        x < reps.len() && y < reps.len() implies (reps[x as int] == reps[y as int]
        <==> graph::connected(b, a.len(), x, y)) by {
        if graph::connected(a, a.len(), x, y) {
            lemma_same_prefix(a, b, a.len(), x, y);
        }
        if graph::connected(b, a.len(), x, y) {
            lemma_same_prefix(b, a, a.len(), x, y);
        }
    }
}

/// Whether two different nodes are in radio range of each other.
pub open spec fn in_contact(in_range: Seq<Vec<bool>>, a: int, b: int) -> bool {
    &&& a != b
    &&& 0 <= a < in_range.len()
    &&& 0 <= b < in_range.len()
    &&& in_range[a]@[b]
}

/// Whether a chain of nodes, each in range of the next, runs from one node to
/// another.
pub open spec fn chain_of_contact(
    in_range: Seq<Vec<bool>>,
    chain: Seq<u32>,
    a: u32,
    b: u32,
) -> bool {
    &&& chain.len() > 0
    &&& chain[0] == a
    &&& chain.last() == b
    &&& forall|i: int|
        #![trigger chain[i]]
        0 <= i < chain.len() - 1 ==> in_contact(in_range, chain[i] as int, chain[i + 1] as int)
}

/// Whether a chain of nodes in range of each other runs from node `i` to a
/// tower.
pub open spec fn can_reach_tower(
    in_range: Seq<Vec<bool>>,
    n_balloons: int,
    i: int,
) -> bool {
    exists|t: u32, chain: Seq<u32>|
        n_balloons <= t < in_range.len() && #[trigger] chain_of_contact(
            in_range,
            chain,
            t,
            i as u32,
        )
}

/// Whether what has been sighted is in range, and what has been tested and is
/// in range has been sighted.
spec fn true_to(s: Sightings, in_range: Seq<Vec<bool>>) -> bool {
    &&& forall|j: int|
        0 <= j < s.links.len() ==> in_contact(
            in_range,
            (#[trigger] s.links[j]).0 as int,
            s.links[j].1 as int,
        )
    &&& forall|p: (u32, u32)| #[trigger]
        s.seen.contains(p) && in_contact(in_range, p.0 as int, p.1 as int) ==> graph::joined(
            s.links,
            s.links.len(),
            p.0,
            p.1,
        )
}

proof fn lemma_joined_still(links: Seq<(u32, u32)>, l: (u32, u32), a: u32, b: u32)
    requires
        graph::joined(links, links.len(), a, b),
    ensures
        graph::joined(links.push(l), links.push(l).len(), a, b),
{
    let j = choose|j: int|
        0 <= j < links.len() && (#[trigger] links[j] == (a, b) || links[j] == (b, a));
    assert(links.push(l)[j] == links[j]);
}

proof fn lemma_row_true(
    s: Sightings,
    in_range: Seq<Vec<bool>>,
    i: int,
    row: Seq<Candidate>,
    k: nat,
)
    requires
        k <= row.len(),
        0 <= i < in_range.len() <= u32::MAX,
        link_detection::mutual(in_range),
        forall|x: int|
            0 <= x < row.len() ==> (#[trigger] row[x]).index < in_range.len() && (row[x].index
                != i ==> row[x].in_range == in_range[i]@[row[x].index as int]),
        true_to(s, in_range),
    ensures
        ({
            let r = sighted_row(s, i, row, k);
            &&& true_to(r, in_range)
            &&& s.seen.subset_of(r.seen)
            &&& forall|x: int|
                0 <= x < k && (#[trigger] row[x]).index != i ==> r.seen.contains(
                    ascending(i, row[x].index as int),
                )
        }),
    decreases k,
{
    if k > 0 {
        lemma_row_true(s, in_range, i, row, (k - 1) as nat);
        let a = sighted_row(s, i, row, (k - 1) as nat);
        let b = sighted_row(s, i, row, k);
        let c = row[k - 1];
        let pair = ascending(i, c.index as int);
        if c.index != i && !a.seen.contains(pair) {
            assert(in_range[i]@[c.index as int] == in_range[c.index as int]@[i]);
            if c.in_range {
                let l = (i as u32, c.index as u32);
                assert(b.links == a.links.push(l));
                assert(b.links[a.links.len() as int] == l);
                assert forall|j: int| 0 <= j < b.links.len() implies in_contact(
                    in_range,
                    (#[trigger] b.links[j]).0 as int,
                    b.links[j].1 as int,
                ) by {
                    if j < a.links.len() {
                        assert(b.links[j] == a.links[j]);
                    }
                }
                assert forall|p: (u32, u32)| #[trigger]
                    b.seen.contains(p) && in_contact(
                        in_range,
                        p.0 as int,
                        p.1 as int,
                    ) implies graph::joined(b.links, b.links.len(), p.0, p.1) by {
                    if a.seen.contains(p) {
                        lemma_joined_still(a.links, l, p.0, p.1);
                    } else {
                        assert(p == pair);
                    }
                }
            }
        }
    }
}

proof fn lemma_rows_true(rows: Seq<Vec<Candidate>>, in_range: Seq<Vec<bool>>, n: nat)
    requires
        n <= rows.len() == in_range.len() <= u32::MAX,
        link_detection::rows_within(rows, in_range.len()),
        link_detection::mutual(in_range),
        link_detection::flags_match(rows, in_range),
    ensures
        ({
            let r = sighted_rows(rows, n);
            &&& true_to(r, in_range)
            &&& forall|i: int, x: int|
                0 <= i < n && 0 <= x < rows[i]@.len() && (#[trigger] rows[i]@[x]).index != i
                    ==> r.seen.contains(ascending(i, rows[i]@[x].index as int))
        }),
    decreases n,
{
    if n > 0 {
        lemma_rows_true(rows, in_range, (n - 1) as nat);
        let a = sighted_rows(rows, (n - 1) as nat);
        let row = rows[n - 1]@;
        assert forall|x: int| 0 <= x < row.len() implies (#[trigger] row[x]).index
            < in_range.len() && (row[x].index != n - 1 ==> row[x].in_range == in_range[n
            - 1]@[row[x].index as int]) by {
            assert(rows[n - 1]@[x].index < in_range.len());
        }
        lemma_row_true(a, in_range, n - 1, row, row.len());
        let r = sighted_rows(rows, n);
        assert forall|i: int, x: int|
            0 <= i < n && 0 <= x < rows[i]@.len() && (#[trigger] rows[i]@[x]).index
                != i implies r.seen.contains(ascending(i, rows[i]@[x].index as int)) by {
            if i == n - 1 {
                assert(row[x].index != i);
            }
        }
    }
}

/// Contact is what counts: as long as every pair in range comes up among
/// someone's candidates, the balloons found are exactly those from which a
/// chain of nodes in range of each other runs to a tower. Without towers there
/// are none.
pub proof fn contact_grounds(
    ids: Seq<u32>,
    rows: Seq<Vec<Candidate>>,
    in_range: Seq<Vec<bool>>,
)
    requires
        ids.len() <= rows.len() == in_range.len() <= u32::MAX,
        link_detection::rows_within(rows, in_range.len()),
        link_detection::mutual(in_range),
        link_detection::flags_match(rows, in_range),
        forall|i: int, j: int|
            0 <= i < j < rows.len() && #[trigger] in_range[i]@[j] ==> link_detection::listed(
                rows,
                i,
                j,
            ) || link_detection::listed(rows, j, i),
    ensures
        forall|id: u32|
            grounded_ids(
                ids,
                sighted_rows(rows, rows.len()).links,
                rows.len() as int,
                ids.len() as int,
            ).contains(id) <==> exists|i: int|
                0 <= i < ids.len() && #[trigger] ids[i] == id && can_reach_tower(
                    in_range,
                    ids.len() as int,
                    i,
                ),
        ids.len() == rows.len() ==> grounded_ids(
            ids,
            sighted_rows(rows, rows.len()).links,
            rows.len() as int,
            ids.len() as int,
        ) == Set::<u32>::empty(),
{
    let n = rows.len();
    let s = sighted_rows(rows, n);
    let found = grounded_ids(ids, s.links, n as int, ids.len() as int);
    lemma_rows_true(rows, in_range, n);
    assert forall|a: u32, b: u32| #[trigger]
        graph::joined(s.links, s.links.len(), a, b) == in_contact(in_range, a as int, b as int) by {
        if graph::joined(s.links, s.links.len(), a, b) {
            let j = choose|j: int|
                0 <= j < s.links.len() && (#[trigger] s.links[j] == (a, b) || s.links[j] == (b, a));
            assert(in_contact(in_range, s.links[j].0 as int, s.links[j].1 as int));
            assert(in_range[a as int]@[b as int] == in_range[b as int]@[a as int]);
        }
        if in_contact(in_range, a as int, b as int) {
            assert(in_range[a as int]@[b as int] == in_range[b as int]@[a as int]);
            let (x, y) = if a < b {
                (a as int, b as int)
            } else {
                (b as int, a as int)
            };
            assert(in_range[x]@[y]);
            let (u, v) = if link_detection::listed(rows, x, y) {
                (x, y)
            } else {
                (y, x)
            };
            assert(link_detection::listed(rows, u, v));
            let k = choose|k: int|
                0 <= k < rows[u]@.len() && (#[trigger] rows[u]@[k]).index == v;
            assert(s.seen.contains(ascending(u, rows[u]@[k].index as int)));
            let p = ascending(u, v);
            assert(graph::joined(s.links, s.links.len(), p.0, p.1));
            let j = choose|j: int|
                0 <= j < s.links.len() && (#[trigger] s.links[j] == (p.0, p.1) || s.links[j] == (
                    p.1,
                    p.0,
                ));
            assert(s.links[j] == (a, b) || s.links[j] == (b, a));
        }
    }
    assert forall|i: int| 0 <= i < ids.len() implies (#[trigger] reaches_tower(
        s.links,
        ids.len() as int,
        n as int,
        i,
    )) == can_reach_tower(in_range, ids.len() as int, i) by {
        if reaches_tower(s.links, ids.len() as int, n as int, i) {
            let t = choose|t: u32|
                ids.len() <= t < n && #[trigger] graph::connected(
                    s.links,
                    s.links.len(),
                    t,
                    i as u32,
                );
            let chain = choose|chain: Seq<u32>| #[trigger]
                graph::runs(s.links, s.links.len(), chain, t, i as u32);
            assert forall|x: int| #![trigger chain[x]] 0 <= x < chain.len() - 1 implies in_contact(
                in_range,
                chain[x] as int,
                chain[x + 1] as int,
            ) by {
                assert(graph::joined(s.links, s.links.len(), chain[x], chain[x + 1]));
            }
            assert(chain_of_contact(in_range, chain, t, i as u32));
        }
        if can_reach_tower(in_range, ids.len() as int, i) {
            let (t, chain) = choose|t: u32, chain: Seq<u32>|
                ids.len() <= t < in_range.len() && #[trigger] chain_of_contact(
                    in_range,
                    chain,
                    t,
                    i as u32,
                );
            assert forall|x: int|
                #![trigger chain[x]]
                0 <= x < chain.len() - 1 implies graph::joined(
                s.links,
                s.links.len(),
                chain[x],
                chain[x + 1],
            ) by {
                assert(in_contact(in_range, chain[x] as int, chain[x + 1] as int));
            }
            assert(graph::runs(s.links, s.links.len(), chain, t, i as u32));
            assert(graph::connected(s.links, s.links.len(), t, i as u32));
        }
    }
    assert forall|id: u32| found.contains(id) <==> exists|i: int|
        0 <= i < ids.len() && #[trigger] ids[i] == id && can_reach_tower(
            in_range,
            ids.len() as int,
            i,
        ) by {
        if found.contains(id) {
            let i = choose|i: int|
                0 <= i < ids.len() && #[trigger] ids[i] == id && reaches_tower(
                    s.links,
                    ids.len() as int,
                    n as int,
                    i,
                );
            assert(ids[i] == id && can_reach_tower(in_range, ids.len() as int, i));
        }
        if exists|i: int|
            0 <= i < ids.len() && #[trigger] ids[i] == id && can_reach_tower(
                in_range,
                ids.len() as int,
                i,
            ) {
            let i = choose|i: int|
                0 <= i < ids.len() && #[trigger] ids[i] == id && can_reach_tower(
                    in_range,
                    ids.len() as int,
                    i,
                );
            assert(ids[i] == id && reaches_tower(s.links, ids.len() as int, n as int, i));
        }
    }
    if ids.len() == n {
        assert(found =~= Set::<u32>::empty());
    }
}

} // verus!
