//! Nodes of the connectivity graph and the links between them.
use std::collections::HashSet;

use vstd::prelude::*;
use vstd::string::*;

use crate::text;

pub use crate::connectivity::ConnectivityScratch;

verus! {

/// Identifies a balloon or tower in the connectivity graph.
#[derive(Debug, Clone, Copy, PartialEq, Eq, Structural, Hash, PartialOrd, Ord)]
pub enum NodeKey {
    Balloon(u32),
    Tower(u32),
}

/// Balloons come before towers; within a kind, the smaller id comes first.
pub open spec fn key_before(a: NodeKey, b: NodeKey) -> bool {
    match (a, b) {
        (NodeKey::Balloon(x), NodeKey::Balloon(y)) => x < y,
        (NodeKey::Balloon(_), NodeKey::Tower(_)) => true,
        (NodeKey::Tower(_), NodeKey::Balloon(_)) => false,
        (NodeKey::Tower(x), NodeKey::Tower(y)) => x < y,
    }
}

/// The wire form of a key: `b12` or `t3`.
pub open spec fn wire_key(k: NodeKey) -> Seq<char> {
    match k {
        NodeKey::Balloon(id) => seq!['b'] + text::decimal(id as nat),
        NodeKey::Tower(id) => seq!['t'] + text::decimal(id as nat),
    }
}

/// The two keys with the earlier one first.
pub open spec fn in_order(a: NodeKey, b: NodeKey) -> (NodeKey, NodeKey) {
    if key_before(a, b) {
        (a, b)
    } else {
        (b, a)
    }
}

/// The wire form of a link: both keys, the earlier one first.
pub open spec fn wire_pair(a: NodeKey, b: NodeKey) -> Seq<char> {
    wire_key(in_order(a, b).0) + seq!['|'] + wire_key(in_order(a, b).1)
}

/// A number of its own for every key.
pub open spec fn number_of(k: NodeKey) -> u64 {
    match k {
        NodeKey::Balloon(id) => (2 * id) as u64,
        NodeKey::Tower(id) => (2 * id + 1) as u64,
    }
}

/// Different keys have different numbers.
pub proof fn lemma_numbers_differ()
    ensures
        forall|a: NodeKey, b: NodeKey|
            #![trigger number_of(a), number_of(b)]
            number_of(a) == number_of(b) ==> a == b,
{
}

impl NodeKey {
    /// The key's number.
    pub fn number(self) -> (n: u64)
        ensures
            n == number_of(self),
    {
        match self {
            NodeKey::Balloon(id) => 2 * (id as u64),
            NodeKey::Tower(id) => 2 * (id as u64) + 1,
        }
    }

    pub fn before(self, other: NodeKey) -> (r: bool)
        ensures
            r == key_before(self, other),
    {
        match (self, other) {
            (NodeKey::Balloon(x), NodeKey::Balloon(y)) => x < y,
            (NodeKey::Balloon(_), NodeKey::Tower(_)) => true,
            (NodeKey::Tower(_), NodeKey::Balloon(_)) => false,
            (NodeKey::Tower(x), NodeKey::Tower(y)) => x < y,
        }
    }

    /// The wire form as owned text.
    pub fn to_wire(self) -> (s: String)
        ensures
            s@ == wire_key(self),
    {
        let mut s: String = String::new();
        self.push_wire(&mut s);
        assert(s@ =~= wire_key(self));
        s
    }

    fn push_wire(self, out: &mut String)
        ensures
            final(out)@ == old(out)@ + wire_key(self),
    {
        let ghost before = out@;
        proof {
            reveal_strlit("b");
            reveal_strlit("t");
        }
        match self {
            NodeKey::Balloon(id) => {
                out.append("b");
                text::push_decimal(out, id as u64);
            },
            NodeKey::Tower(id) => {
                out.append("t");
                text::push_decimal(out, id as u64);
            },
        }
        assert(out@ =~= before + wire_key(self));
    }
}

/// The wire-format pair key clients key their rendered links by. It is the
/// same for both directions of a link.
pub fn wire_pair_key(a: NodeKey, b: NodeKey) -> (s: String)
    ensures
        s@ == wire_pair(a, b),
{
    let (first, second) = ordered_pair(a, b);
    let mut s: String = String::new();
    first.push_wire(&mut s);
    proof {
        reveal_strlit("|");
    }
    s.append("|");
    second.push_wire(&mut s);
    assert(s@ =~= wire_pair(a, b));
    s
}

/// The two keys with the earlier one first.
pub fn ordered_pair(a: NodeKey, b: NodeKey) -> (r: (NodeKey, NodeKey))
    ensures
        r == in_order(a, b),
{
    if a.before(b) {
        (a, b)
    } else {
        (b, a)
    }
}

/// The order of keys is total: of two different keys exactly one comes first.
pub proof fn key_order_is_total(a: NodeKey, b: NodeKey)
    ensures
        a != b ==> key_before(a, b) != key_before(b, a),
        !key_before(a, a),
{
}

/// A link's wire key names the unordered pair: both directions give the same
/// text.
pub proof fn wire_pair_is_symmetric(a: NodeKey, b: NodeKey)
    ensures
        wire_pair(a, b) == wire_pair(b, a),
{
}

/// One radio link.
#[derive(Debug, Clone, Copy, PartialEq, Eq, Structural)]
pub struct Edge {
    pub a: NodeKey,
    pub b: NodeKey,
}


/// Someone close enough to be worth a range test, and how the test came out.
#[derive(Debug, Clone, Copy, PartialEq, Eq, Structural)]
pub struct Candidate {
    /// Position in the node list.
    pub index: usize,
    /// Whether the two are within radio range of each other.
    pub in_range: bool,
}

/// Whether every candidate of the first `n` rows is one of `n` nodes.
pub open spec fn rows_within(rows: Seq<Vec<Candidate>>, n: nat) -> bool {
    &&& rows.len() == n
    &&& forall|i: int, k: int|
        0 <= i < rows.len() && 0 <= k < rows[i]@.len() ==> (#[trigger] rows[i]@[k]).index < n
}

/// Whether there are candidates for each of `n` nodes, all of them nodes.
pub fn are_rows_within(rows: &Vec<Vec<Candidate>>, n: usize) -> (r: bool)
    ensures
        r == rows_within(rows@, n as nat),
{
    if rows.len() != n {
        return false;
    }
    let mut i: usize = 0;
    while i < rows.len()
        invariant
            i <= rows@.len(),
            forall|x: int, k: int|
                0 <= x < i && 0 <= k < rows@[x]@.len() ==> (#[trigger] rows@[x]@[k]).index < n,
        decreases rows@.len() - i,
    {
        let mut j: usize = 0;
        while j < rows[i].len()
            invariant
                i < rows@.len(),
                j <= rows@[i as int]@.len(),
                forall|k: int| 0 <= k < j ==> (#[trigger] rows@[i as int]@[k]).index < n,
            decreases rows@[i as int]@.len() - j,
        {
            if rows[i][j].index >= n {
                assert(rows@[i as int]@[j as int].index >= n);
                return false;
            }
            j += 1;
        }
        i += 1;
    }
    true
}

/// How far the search for links has come.
#[verifier::ext_equal]
pub struct Search {
    /// Pairs that have been tested, the earlier key first.
    pub seen: Set<(NodeKey, NodeKey)>,
    pub edges: Seq<Edge>,
}

/// The pair that node `i` and one of its candidates make.
pub open spec fn pair_at(keys: Seq<NodeKey>, i: int, c: Candidate) -> (NodeKey, NodeKey) {
    in_order(keys[i], keys[c.index as int])
}

/// After one candidate of node `i`: a pair counts the first time it comes up.
pub open spec fn tried(s: Search, keys: Seq<NodeKey>, i: int, c: Candidate) -> Search {
    let pair = pair_at(keys, i, c);
    if c.index == i || s.seen.contains(pair) {
        s
    } else {
        Search {
            seen: s.seen.insert(pair),
            edges: if c.in_range {
                s.edges.push(Edge { a: keys[i], b: keys[c.index as int] })
            } else {
                s.edges
            },
        }
    }
}

/// After the first `k` candidates of node `i`.
pub open spec fn tried_row(
    s: Search,
    keys: Seq<NodeKey>,
    i: int,
    row: Seq<Candidate>,
    k: nat,
) -> Search
    decreases k,
{
    if k == 0 {
        s
    } else {
        tried(tried_row(s, keys, i, row, (k - 1) as nat), keys, i, row[k - 1])
    }
}

/// After the candidates of the first `n` nodes.
pub open spec fn tried_rows(keys: Seq<NodeKey>, rows: Seq<Vec<Candidate>>, n: nat) -> Search
    decreases n,
{
    if n == 0 {
        Search { seen: Set::empty(), edges: Seq::empty() }
    } else {
        tried_row(
            tried_rows(keys, rows, (n - 1) as nat),
            keys,
            n - 1,
            rows[n - 1]@,
            rows[n - 1]@.len(),
        )
    }
}

/// A number of its own for every pair of keys.
pub open spec fn pair_number_of(p: (NodeKey, NodeKey)) -> u128 {
    (number_of(p.0) * 0x1_0000_0000_0000_0000 + number_of(p.1)) as u128
}

proof fn lemma_pair_numbers_differ()
    ensures
        forall|p: (NodeKey, NodeKey), q: (NodeKey, NodeKey)|
            #![trigger pair_number_of(p), pair_number_of(q)]
            pair_number_of(p) == pair_number_of(q) ==> p == q,
{
    lemma_numbers_differ();
    assert forall|p: (NodeKey, NodeKey), q: (NodeKey, NodeKey)|
        #![trigger pair_number_of(p), pair_number_of(q)]
        pair_number_of(p) == pair_number_of(q) implies p == q by {
        assert(number_of(p.0) == number_of(q.0));
        assert(number_of(p.1) == number_of(q.1));
    }
}

fn pair_number(p: (NodeKey, NodeKey)) -> (n: u128)
    ensures
        n == pair_number_of(p),
{
    (p.0.number() as u128) * 0x1_0000_0000_0000_0000 + (p.1.number() as u128)
}

/// Whether a set of pair numbers stands for a set of pairs.
spec fn stands_for(seen: Set<u128>, pairs: Set<(NodeKey, NodeKey)>) -> bool {
    forall|p: (NodeKey, NodeKey)|
        #![trigger pair_number_of(p)]
        #![trigger pairs.contains(p)]
        seen.contains(pair_number_of(p)) <==> pairs.contains(p)
}

/// The links among the nodes: each pair of a node and one of its candidates is
/// looked at once, and is a link if the two are in range.
pub fn compute_grid_edges(keys: &Vec<NodeKey>, rows: &Vec<Vec<Candidate>>) -> (edges: Vec<Edge>)
    requires
        rows_within(rows@, keys@.len()),
    ensures
        edges@ == tried_rows(keys@, rows@, keys@.len()).edges,
{
    broadcast use vstd::std_specs::hash::group_hash_axioms;

    let mut seen: HashSet<u128> = HashSet::new();
    let mut edges: Vec<Edge> = Vec::new();
    let mut i: usize = 0;
    while i < keys.len()
        invariant
            i <= keys@.len(),
            rows_within(rows@, keys@.len()),
            edges@ == tried_rows(keys@, rows@, i as nat).edges,
            stands_for(seen@, tried_rows(keys@, rows@, i as nat).seen),
        decreases keys@.len() - i,
    {
        let ghost start = tried_rows(keys@, rows@, i as nat);
        let mut k: usize = 0;
        while k < rows[i].len()
            invariant
                i < keys@.len(),
                rows_within(rows@, keys@.len()),
                k <= rows@[i as int]@.len(),
                edges@ == tried_row(start, keys@, i as int, rows@[i as int]@, k as nat).edges,
                stands_for(
                    seen@,
                    tried_row(start, keys@, i as int, rows@[i as int]@, k as nat).seen,
                ),
            decreases rows@[i as int]@.len() - k,
        {
            let ghost s = tried_row(start, keys@, i as int, rows@[i as int]@, k as nat);
            let c: Candidate = rows[i][k];
            assert(c == rows@[i as int]@[k as int]);
            if c.index != i {
                let pair = ordered_pair(keys[i], keys[c.index]);
                let ghost seen_before = seen@;
                proof {
                    lemma_pair_numbers_differ();
                    assert(seen@.contains(pair_number_of(pair)) <==> s.seen.contains(pair));
                }
                if seen.insert(pair_number(pair)) {
                    if c.in_range {
                        edges.push(Edge { a: keys[i], b: keys[c.index] });
                    }
                    assert forall|p: (NodeKey, NodeKey)|
                        #![trigger pair_number_of(p)]
                        #![trigger s.seen.insert(pair).contains(p)]
                        seen@.contains(pair_number_of(p)) <==> s.seen.insert(pair).contains(p) by {
                        assert(seen_before.contains(pair_number_of(p)) <==> s.seen.contains(p));
                    }
                } else {
                    assert(seen@ =~= seen_before);
                }
            }
            k += 1;
        }
        i += 1;
    }
    edges
}

/// The pairs of keys in range among the first `n` nodes.
pub open spec fn pairs_in_range(
    keys: Seq<NodeKey>,
    in_range: Seq<Vec<bool>>,
) -> Set<(NodeKey, NodeKey)> {
    Set::new(
        |p: (NodeKey, NodeKey)|
            exists|i: int, j: int|
                0 <= i < j < keys.len() && #[trigger] in_range[i]@[j] && p == in_order(
                    keys[i],
                    keys[j],
                ),
    )
}

/// Every pair of nodes in range, by testing all of them: `in_range` holds the
/// outcome for each pair of positions. Slow, but right by construction.
pub fn brute_force_edge_keys(keys: &Vec<NodeKey>, in_range: &Vec<Vec<bool>>) -> (r: Vec<
    (NodeKey, NodeKey),
>)
    requires
        in_range@.len() == keys@.len(),
        forall|i: int| 0 <= i < in_range@.len() ==> (#[trigger] in_range@[i])@.len() == keys@.len(),
    ensures
        r@.no_duplicates(),
        r@.to_set() == pairs_in_range(keys@, in_range@),
{
    broadcast use vstd::std_specs::hash::group_hash_axioms;

    let n: usize = keys.len();
    let mut seen: HashSet<u128> = HashSet::new();
    let mut r: Vec<(NodeKey, NodeKey)> = Vec::new();
    let mut i: usize = 0;
    while i < n
        invariant
            i <= n,
            n == keys@.len(),
            in_range@.len() == n,
            forall|i: int| 0 <= i < in_range@.len() ==> (#[trigger] in_range@[i])@.len() == n,
            r@.no_duplicates(),
            stands_for(seen@, r@.to_set()),
            forall|p: (NodeKey, NodeKey)|
                r@.contains(p) <==> exists|x: int, y: int|
                    0 <= x < i && x < y < n && #[trigger] in_range@[x]@[y] && p == in_order(
                        keys@[x],
                        keys@[y],
                    ),
        decreases n - i,
    {
        let mut j: usize = i + 1;
        while j < n
            invariant
                i < j <= n,
                n == keys@.len(),
                in_range@.len() == n,
                forall|i: int| 0 <= i < in_range@.len() ==> (#[trigger] in_range@[i])@.len() == n,
                r@.no_duplicates(),
                stands_for(seen@, r@.to_set()),
                forall|p: (NodeKey, NodeKey)|
                    r@.contains(p) <==> exists|x: int, y: int|
                        (0 <= x < i && x < y < n || x == i && i < y < j)
                            && #[trigger] in_range@[x]@[y] && p == in_order(keys@[x], keys@[y]),
            decreases n - j,
        {
            let ghost before = r@;
            let ghost seen_before = seen@;
            if in_range[i][j] {
                let pair = ordered_pair(keys[i], keys[j]);
                proof {
                    lemma_pair_numbers_differ();
                    assert(seen@.contains(pair_number_of(pair)) <==> r@.to_set().contains(pair));
                }
                if seen.insert(pair_number(pair)) {
                    r.push(pair);
                    assert forall|p: (NodeKey, NodeKey)| r@.contains(p) <==> before.contains(p)
                        || p == pair by {
                        if before.contains(p) {
                            let at = before.index_of(p);
                            assert(r@[at] == p);
                        }
                        if p == pair {
                            assert(r@[before.len() as int] == p);
                        }
                    }
                    assert forall|p: (NodeKey, NodeKey)|
                        #![trigger pair_number_of(p)]
                        #![trigger r@.to_set().contains(p)]
                        seen@.contains(pair_number_of(p)) <==> r@.to_set().contains(p) by {
                        assert(seen_before.contains(pair_number_of(p)) <==> before.to_set().contains(
                            p,
                        ));
                        assert(r@.contains(p) <==> before.contains(p) || p == pair);
                    }
                } else {
                    assert(seen@ =~= seen_before);
                    assert(before.contains(pair));
                }
                assert forall|p: (NodeKey, NodeKey)| r@.contains(p) <==> before.contains(p) || p
                    == pair by {}
            }
            assert forall|p: (NodeKey, NodeKey)|
                r@.contains(p) <==> exists|x: int, y: int|
                    (0 <= x < i && x < y < n || x == i && i < y < j + 1)
                        && #[trigger] in_range@[x]@[y] && p == in_order(keys@[x], keys@[y]) by {
                if r@.contains(p) {
                    if before.contains(p) {
                        let (x, y) = choose|x: int, y: int|
                            (0 <= x < i && x < y < n || x == i && i < y < j)
                                && #[trigger] in_range@[x]@[y] && p == in_order(
                                keys@[x],
                                keys@[y],
                            );
                        assert(in_range@[x]@[y]);
                    } else {
                        assert(in_range@[i as int]@[j as int]);
                    }
                }
                if exists|x: int, y: int|
                    (0 <= x < i && x < y < n || x == i && i < y < j + 1)
                        && #[trigger] in_range@[x]@[y] && p == in_order(keys@[x], keys@[y]) {
                    let (x, y) = choose|x: int, y: int|
                        (0 <= x < i && x < y < n || x == i && i < y < j + 1)
                            && #[trigger] in_range@[x]@[y] && p == in_order(keys@[x], keys@[y]);
                    if x == i && y == j {
                        assert(r@.contains(p));
                    } else {
                        assert(before.contains(p));
                    }
                }
            }
            j += 1;
        }
        assert forall|p: (NodeKey, NodeKey)|
            r@.contains(p) <==> exists|x: int, y: int|
                0 <= x < i + 1 && x < y < n && #[trigger] in_range@[x]@[y] && p == in_order(
                    keys@[x],
                    keys@[y],
                ) by {
            if r@.contains(p) {
                let (x, y) = choose|x: int, y: int|
                    (0 <= x < i && x < y < n || x == i && i < y < j)
                        && #[trigger] in_range@[x]@[y] && p == in_order(keys@[x], keys@[y]);
                assert(in_range@[x]@[y]);
            }
        }
        i += 1;
    }
    assert(r@.to_set() =~= pairs_in_range(keys@, in_range@));
    r
}

/// The pair that a link joins, the earlier key first.
pub open spec fn pair_of(e: Edge) -> (NodeKey, NodeKey) {
    in_order(e.a, e.b)
}

/// Whether some link joins this pair.
pub open spec fn joins(edges: Seq<Edge>, p: (NodeKey, NodeKey)) -> bool {
    exists|x: int| 0 <= x < edges.len() && pair_of(#[trigger] edges[x]) == p
}

/// Whether the candidates' flags are the range tests' outcomes.
pub open spec fn flags_match(rows: Seq<Vec<Candidate>>, in_range: Seq<Vec<bool>>) -> bool {
    forall|i: int, k: int|
        0 <= i < rows.len() && 0 <= k < rows[i]@.len() && rows[i]@[k].index != i ==> (
        #[trigger] rows[i]@[k]).in_range == in_range[i]@[rows[i]@[k].index as int]
}

/// Whether node `j` is among the candidates of node `i`.
pub open spec fn listed(rows: Seq<Vec<Candidate>>, i: int, j: int) -> bool {
    exists|k: int| 0 <= k < rows[i]@.len() && (#[trigger] rows[i]@[k]).index == j
}

/// Whether range tests come out the same from both ends.
pub open spec fn mutual(in_range: Seq<Vec<bool>>) -> bool {
    forall|i: int, j: int|
        0 <= i < in_range.len() && 0 <= j < in_range.len() ==> #[trigger] in_range[i]@[j]
            == in_range[j]@[i]
}

spec fn agrees(s: Search, keys: Seq<NodeKey>, in_range: Seq<Vec<bool>>) -> bool {
    &&& forall|p: (NodeKey, NodeKey)| #[trigger]
        s.seen.contains(p) ==> (pairs_in_range(keys, in_range).contains(p) <==> joins(s.edges, p))
    &&& forall|x: int|
        0 <= x < s.edges.len() ==> s.seen.contains(pair_of(#[trigger] s.edges[x]))
    &&& forall|x: int, y: int|
        0 <= x < y < s.edges.len() ==> pair_of(#[trigger] s.edges[x]) != pair_of(
            #[trigger] s.edges[y],
        )
}

proof fn lemma_pairs_by_position(keys: Seq<NodeKey>, in_range: Seq<Vec<bool>>, i: int, j: int)
    requires
        keys.no_duplicates(),
        mutual(in_range),
        in_range.len() == keys.len(),
        0 <= i < keys.len(),
        0 <= j < keys.len(),
        i != j,
    ensures
        pairs_in_range(keys, in_range).contains(in_order(keys[i], keys[j])) <==> in_range[i]@[j],
{
    let p = in_order(keys[i], keys[j]);
    if in_range[i]@[j] {
        assert(in_range[j]@[i]);
        if i < j {
            assert(in_range[i]@[j] && p == in_order(keys[i], keys[j]));
        } else {
            key_order_is_total(keys[i], keys[j]);
            assert(in_range[j]@[i] && p == in_order(keys[j], keys[i]));
        }
    }
    if pairs_in_range(keys, in_range).contains(p) {
        let (x, y) = choose|x: int, y: int|
            0 <= x < y < keys.len() && #[trigger] in_range[x]@[y] && p == in_order(
                keys[x],
                keys[y],
            );
        assert(in_range[x]@[y] == in_range[y]@[x]);
        assert((x == i && y == j) || (x == j && y == i));
    }
}

proof fn lemma_tried_agrees(
    s: Search,
    keys: Seq<NodeKey>,
    in_range: Seq<Vec<bool>>,
    i: int,
    c: Candidate,
)
    requires
        agrees(s, keys, in_range),
        keys.no_duplicates(),
        mutual(in_range),
        in_range.len() == keys.len(),
        0 <= i < keys.len(),
        c.index < keys.len(),
        c.index != i ==> c.in_range == in_range[i]@[c.index as int],
    ensures
        agrees(tried(s, keys, i, c), keys, in_range),
        s.seen.subset_of(tried(s, keys, i, c).seen),
        c.index != i ==> tried(s, keys, i, c).seen.contains(pair_at(keys, i, c)),
{
    let t = tried(s, keys, i, c);
    let pair = pair_at(keys, i, c);
    if c.index != i && !s.seen.contains(pair) {
        lemma_pairs_by_position(keys, in_range, i, c.index as int);
        assert forall|x: int| 0 <= x < s.edges.len() implies t.edges[x] == s.edges[x] by {}
        assert forall|p: (NodeKey, NodeKey)| #[trigger] t.seen.contains(p) implies (pairs_in_range(
            keys,
            in_range,
        ).contains(p) <==> joins(t.edges, p)) by {
            if joins(s.edges, p) {
                let x = choose|x: int| 0 <= x < s.edges.len() && pair_of(#[trigger] s.edges[x]) == p;
                assert(pair_of(t.edges[x]) == p);
            }
            if c.in_range {
                assert(pair_of(t.edges[s.edges.len() as int]) == pair);
            }
            if joins(t.edges, p) {
                let x = choose|x: int| 0 <= x < t.edges.len() && pair_of(#[trigger] t.edges[x]) == p;
                if x < s.edges.len() {
                    assert(pair_of(s.edges[x]) == p);
                }
            }
        }
        assert forall|x: int| 0 <= x < t.edges.len() implies t.seen.contains(
            pair_of(#[trigger] t.edges[x]),
        ) by {
            if x < s.edges.len() {
                assert(s.seen.contains(pair_of(s.edges[x])));
            }
        }
        assert forall|x: int, y: int| 0 <= x < y < t.edges.len() implies pair_of(
            #[trigger] t.edges[x],
        ) != pair_of(#[trigger] t.edges[y]) by {
            assert(s.seen.contains(pair_of(s.edges[x])));
            if y < s.edges.len() {
                assert(pair_of(s.edges[x]) != pair_of(s.edges[y]));
            }
        }
    }
}

proof fn lemma_row_agrees(
    s: Search,
    keys: Seq<NodeKey>,
    in_range: Seq<Vec<bool>>,
    i: int,
    row: Seq<Candidate>,
    k: nat,
)
    requires
        agrees(s, keys, in_range),
        keys.no_duplicates(),
        mutual(in_range),
        in_range.len() == keys.len(),
        0 <= i < keys.len(),
        k <= row.len(),
        forall|x: int| 0 <= x < row.len() ==> (#[trigger] row[x]).index < keys.len(),
        forall|x: int|
            0 <= x < row.len() && row[x].index != i ==> (#[trigger] row[x]).in_range
                == in_range[i]@[row[x].index as int],
    ensures
        agrees(tried_row(s, keys, i, row, k), keys, in_range),
        s.seen.subset_of(tried_row(s, keys, i, row, k).seen),
        forall|x: int|
            0 <= x < k && (#[trigger] row[x]).index != i ==> tried_row(
                s,
                keys,
                i,
                row,
                k,
            ).seen.contains(pair_at(keys, i, row[x])),
    decreases k,
{
    if k > 0 {
        lemma_row_agrees(s, keys, in_range, i, row, (k - 1) as nat);
        lemma_tried_agrees(
            tried_row(s, keys, i, row, (k - 1) as nat),
            keys,
            in_range,
            i,
            row[k - 1],
        );
    }
}

proof fn lemma_rows_agree(
    keys: Seq<NodeKey>,
    rows: Seq<Vec<Candidate>>,
    in_range: Seq<Vec<bool>>,
    n: nat,
)
    requires
        keys.no_duplicates(),
        mutual(in_range),
        in_range.len() == keys.len(),
        rows_within(rows, keys.len()),
        flags_match(rows, in_range),
        n <= keys.len(),
    ensures
        agrees(tried_rows(keys, rows, n), keys, in_range),
        forall|i: int, j: int|
            0 <= i < n && i != j && #[trigger] listed(rows, i, j) ==> tried_rows(
                keys,
                rows,
                n,
            ).seen.contains(in_order(keys[i], keys[j])),
    decreases n,
{
    if n > 0 {
        let before = tried_rows(keys, rows, (n - 1) as nat);
        let after = tried_rows(keys, rows, n);
        let row = rows[n - 1]@;
        lemma_rows_agree(keys, rows, in_range, (n - 1) as nat);
        assert forall|x: int| 0 <= x < row.len() implies (#[trigger] row[x]).index < keys.len() by {
            assert(rows[n - 1]@[x].index < keys.len());
        }
        assert forall|x: int| 0 <= x < row.len() && row[x].index != n - 1 implies (
        #[trigger] row[x]).in_range == in_range[n - 1]@[row[x].index as int] by {
            assert(rows[n - 1]@[x].in_range == in_range[n - 1]@[rows[n - 1]@[x].index as int]);
        }
        lemma_row_agrees(before, keys, in_range, n - 1, row, row.len());
        assert forall|i: int, j: int|
            0 <= i < n && i != j && #[trigger] listed(rows, i, j) implies after.seen.contains(
            in_order(keys[i], keys[j]),
        ) by {
            let k = choose|k: int| 0 <= k < rows[i]@.len() && (#[trigger] rows[i]@[k]).index == j;
            if i == n - 1 {
                assert(row[k].index != n - 1);
                assert(after.seen.contains(pair_at(keys, i, row[k])));
            } else {
                assert(before.seen.contains(in_order(keys[i], keys[j])));
            }
        }
    }
}

/// The grid misses nothing and invents nothing: as long as every pair in range
/// comes up among someone's candidates, the links found are exactly the pairs
/// in range, each once, and none joins a node to itself.
pub proof fn the_grid_finds_every_link(
    keys: Seq<NodeKey>,
    rows: Seq<Vec<Candidate>>,
    in_range: Seq<Vec<bool>>,
)
    requires
        keys.no_duplicates(),
        mutual(in_range),
        in_range.len() == keys.len(),
        rows_within(rows, keys.len()),
        flags_match(rows, in_range),
        forall|i: int, j: int|
            0 <= i < j < keys.len() && #[trigger] in_range[i]@[j] ==> listed(rows, i, j) || listed(
                rows,
                j,
                i,
            ),
    ensures
        forall|p: (NodeKey, NodeKey)|
            pairs_in_range(keys, in_range).contains(p) <==> #[trigger] joins(
                tried_rows(keys, rows, keys.len()).edges,
                p,
            ),
        forall|x: int, y: int|
            0 <= x < y < tried_rows(keys, rows, keys.len()).edges.len() ==> pair_of(
                #[trigger] tried_rows(keys, rows, keys.len()).edges[x],
            ) != pair_of(#[trigger] tried_rows(keys, rows, keys.len()).edges[y]),
        forall|x: int|
            0 <= x < tried_rows(keys, rows, keys.len()).edges.len() ==> ({
                let p = pair_of(#[trigger] tried_rows(keys, rows, keys.len()).edges[x]);
                p.0 != p.1
            }),
{
    let s = tried_rows(keys, rows, keys.len());
    lemma_rows_agree(keys, rows, in_range, keys.len());
    assert forall|p: (NodeKey, NodeKey)|
        pairs_in_range(keys, in_range).contains(p) <==> #[trigger] joins(s.edges, p) by {
        if pairs_in_range(keys, in_range).contains(p) {
            let (i, j) = choose|i: int, j: int|
                0 <= i < j < keys.len() && #[trigger] in_range[i]@[j] && p == in_order(
                    keys[i],
                    keys[j],
                );
            key_order_is_total(keys[i], keys[j]);
            if listed(rows, i, j) {
                assert(s.seen.contains(in_order(keys[i], keys[j])));
            } else {
                assert(listed(rows, j, i));
                assert(s.seen.contains(in_order(keys[j], keys[i])));
            }
            assert(s.seen.contains(p));
        }
        if joins(s.edges, p) {
            let x = choose|x: int| 0 <= x < s.edges.len() && pair_of(#[trigger] s.edges[x]) == p;
            assert(s.seen.contains(p));
        }
    }
    assert forall|x: int| 0 <= x < s.edges.len() implies ({
        let p = pair_of(#[trigger] s.edges[x]);
        p.0 != p.1
    }) by {
        let p = pair_of(s.edges[x]);
        assert(joins(s.edges, p));
        assert(pairs_in_range(keys, in_range).contains(p));
        let (i, j) = choose|i: int, j: int|
            0 <= i < j < keys.len() && #[trigger] in_range[i]@[j] && p == in_order(
                keys[i],
                keys[j],
            );
        assert(keys[i] != keys[j]);
    }
}

/// Keys are told apart by their wire forms, and no wire form has a bar in it.
pub proof fn wire_keys_tell(a: NodeKey, b: NodeKey)
    ensures
        wire_key(a) == wire_key(b) ==> a == b,
        !wire_key(a).contains('|'),
{
    let (x, y) = (number_in(a), number_in(b));
    text::lemma_decimal_digits(x as nat);
    text::lemma_decimal_digits(y as nat);
    let (s, t) = (wire_key(a), wire_key(b));
    assert(s.skip(1) =~= text::decimal(x as nat));
    assert(t.skip(1) =~= text::decimal(y as nat));
    if s == t {
        assert(s[0] == t[0]);
        text::lemma_decimal_tells(x as nat, y as nat);
    }
    assert forall|i: int| 0 <= i < s.len() implies s[i] != '|' by {
        if i > 0 {
            assert(s[i] == text::decimal(x as nat)[i - 1]);
        }
    }
}

spec fn number_in(k: NodeKey) -> u32 {
    match k {
        NodeKey::Balloon(id) => id,
        NodeKey::Tower(id) => id,
    }
}

/// Links are told apart by their wire keys: the same text means the same two
/// nodes.
pub proof fn wire_pairs_tell(a: NodeKey, b: NodeKey, c: NodeKey, d: NodeKey)
    requires
        wire_pair(a, b) == wire_pair(c, d),
    ensures
        in_order(a, b) == in_order(c, d),
{
    let (p, q) = (in_order(a, b), in_order(c, d));
    wire_keys_tell(p.1, q.1);
    wire_keys_tell(q.1, p.1);
    text::lemma_split_at_last(wire_key(p.0), wire_key(p.1), wire_key(q.0), wire_key(q.1), '|');
    wire_keys_tell(p.0, q.0);
}

/// Whether every link found so far has been looked at, and none is there twice.
spec fn found_once(s: Search) -> bool {
    &&& forall|i: int|
        0 <= i < s.edges.len() ==> s.seen.contains(pair_of(#[trigger] s.edges[i]))
    &&& forall|i: int, j: int|
        0 <= i < j < s.edges.len() ==> pair_of(#[trigger] s.edges[i]) != pair_of(
            #[trigger] s.edges[j],
        )
}

proof fn lemma_row_once(s: Search, keys: Seq<NodeKey>, i: int, row: Seq<Candidate>, k: nat)
    requires
        found_once(s),
    ensures
        found_once(tried_row(s, keys, i, row, k)),
    decreases k,
{
    if k > 0 {
        lemma_row_once(s, keys, i, row, (k - 1) as nat);
        let a = tried_row(s, keys, i, row, (k - 1) as nat);
        let b = tried_row(s, keys, i, row, k);
        assert forall|x: int| 0 <= x < b.edges.len() implies b.seen.contains(
            pair_of(#[trigger] b.edges[x]),
        ) by {
            if x < a.edges.len() {
                assert(b.edges[x] == a.edges[x]);
            }
        }
        assert forall|x: int, y: int| 0 <= x < y < b.edges.len() implies pair_of(
            #[trigger] b.edges[x],
        ) != pair_of(#[trigger] b.edges[y]) by {
            assert(b.edges[x] == a.edges[x]);
            if y < a.edges.len() {
                assert(b.edges[y] == a.edges[y]);
            } else {
                assert(a.seen.contains(pair_of(a.edges[x])));
            }
        }
    }
}

/// Every link is found once, whatever the candidates: no two of the links found
/// are between the same nodes, so no two have the same wire key.
pub proof fn links_are_found_once(keys: Seq<NodeKey>, rows: Seq<Vec<Candidate>>, n: nat)
    ensures
        forall|i: int, j: int|
            0 <= i < j < tried_rows(keys, rows, n).edges.len() ==> {
                let a = #[trigger] tried_rows(keys, rows, n).edges[i];
                let b = #[trigger] tried_rows(keys, rows, n).edges[j];
                pair_of(a) != pair_of(b) && wire_pair(a.a, a.b) != wire_pair(b.a, b.b)
            },
{
    lemma_rows_once(keys, rows, n);
    let s = tried_rows(keys, rows, n);
    assert forall|i: int, j: int| 0 <= i < j < s.edges.len() implies {
        let a = #[trigger] s.edges[i];
        let b = #[trigger] s.edges[j];
        pair_of(a) != pair_of(b) && wire_pair(a.a, a.b) != wire_pair(b.a, b.b)
    } by {
        let (a, b) = (s.edges[i], s.edges[j]);
        if wire_pair(a.a, a.b) == wire_pair(b.a, b.b) {
            wire_pairs_tell(a.a, a.b, b.a, b.b);
        }
    }
}

proof fn lemma_rows_once(keys: Seq<NodeKey>, rows: Seq<Vec<Candidate>>, n: nat)
    ensures
        found_once(tried_rows(keys, rows, n)),
    decreases n,
{
    if n > 0 {
        lemma_rows_once(keys, rows, (n - 1) as nat);
        lemma_row_once(
            tried_rows(keys, rows, (n - 1) as nat),
            keys,
            n - 1,
            rows[n - 1]@,
            rows[n - 1]@.len(),
        );
    }
}

} // verus!
