//! How long links last: what share of the links between balloons is still
//! there a round later.
use std::collections::HashSet;

use vstd::prelude::*;
use vstd::string::*;

use crate::link_detection;
use crate::link_detection::NodeKey;
use crate::sim::EdgeSnapshot;
use crate::text;

verus! {

broadcast use vstd::std_specs::hash::group_hash_axioms;

/// The id in a balloon's wire key, if it is one.
pub open spec fn balloon_id(s: Seq<char>) -> Option<u32> {
    if s.len() == 0 || s[0] != 'b' {
        None
    } else {
        match text::number(s.skip(1)) {
            Some(n) => if n <= u32::MAX {
                Some(n as u32)
            } else {
                None
            },
            None => None,
        }
    }
}

/// The two balloons that a link's wire key names, the smaller id first.
/// Nothing if an end is no balloon.
pub open spec fn pair_in(s: Seq<char>) -> Option<(u32, u32)> {
    match text::place(s, '|', 0) {
        Some(p) => match (balloon_id(s.take(p)), balloon_id(s.skip(p + 1))) {
            (Some(x), Some(y)) => Some(
                if x < y {
                    (x, y)
                } else {
                    (y, x)
                },
            ),
            _ => None,
        },
        None => None,
    }
}

fn read_balloon(s: &str) -> (r: Option<u32>)
    ensures
        r == balloon_id(s@),
{
    let n: usize = s.unicode_len();
    if n == 0 || s.get_char(0) != 'b' {
        return None;
    }
    let rest: &str = s.substring_char(1, n);
    assert(rest@ =~= s@.skip(1));
    match text::read_number(rest) {
        Some(id) => {
            if id <= 0xffff_ffff {
                Some(id as u32)
            } else {
                None
            }
        },
        None => None,
    }
}

/// The two balloons of a link between balloons.
pub fn balloon_pair(pair_key: &str) -> (r: Option<(u32, u32)>)
    ensures
        r == pair_in(pair_key@),
{
    let n: usize = pair_key.unicode_len();
    match text::find(pair_key, '|') {
        Some(p) => {
            let a: &str = pair_key.substring_char(0, p);
            let b: &str = pair_key.substring_char(p + 1, n);
            assert(a@ =~= pair_key@.take(p as int));
            assert(b@ =~= pair_key@.skip(p + 1));
            match (read_balloon(a), read_balloon(b)) {
                (Some(x), Some(y)) => Some(
                    if x < y {
                        (x, y)
                    } else {
                        (y, x)
                    },
                ),
                _ => None,
            }
        },
        None => None,
    }
}

/// A number of its own for every pair.
pub open spec fn pair_number(p: (u32, u32)) -> u64 {
    (p.0 * 0x1_0000_0000 + p.1) as u64
}

/// The links between balloons among the first `k`.
pub open spec fn pairs_among(edges: Seq<EdgeSnapshot>, k: nat) -> Set<u64>
    decreases k,
{
    if k == 0 {
        Set::empty()
    } else {
        match pair_in(edges[k - 1].pair_key@) {
            Some(p) => pairs_among(edges, (k - 1) as nat).insert(pair_number(p)),
            None => pairs_among(edges, (k - 1) as nat),
        }
    }
}

/// Links seen in one round, without repetition.
pub struct Links {
    list: Vec<u64>,
    set: HashSet<u64>,
}

impl Links {
    spec fn holds(self, s: Set<u64>) -> bool {
        &&& self.set@ == s
        &&& self.list@.to_set() == s
        &&& self.list@.no_duplicates()
    }
}

fn links_in(edges: &Vec<EdgeSnapshot>) -> (r: Links)
    ensures
        r.holds(pairs_among(edges@, edges@.len())),
{
    let mut list: Vec<u64> = Vec::new();
    let mut set: HashSet<u64> = HashSet::new();
    let mut i: usize = 0;
    assert(list@.to_set() =~= Set::<u64>::empty());
    while i < edges.len()
        invariant
            i <= edges@.len(),
            set@ == pairs_among(edges@, i as nat),
            list@.to_set() == set@,
            list@.no_duplicates(),
        decreases edges@.len() - i,
    {
        if let Some((x, y)) = balloon_pair(edges[i].pair_key.as_str()) {
            let n: u64 = (x as u64) * 0x1_0000_0000 + (y as u64);
            let ghost before = list@;
            let ghost set_before = set@;
            if set.insert(n) {
                assert(!before.to_set().contains(n));
                list.push(n);
                assert forall|v: u64| #[trigger] list@.to_set().contains(v) <==> set@.contains(
                    v,
                ) by {
                    assert(before.to_set().contains(v) <==> set_before.contains(v));
                    if before.contains(v) {
                        let j = before.index_of(v);
                        assert(list@[j] == v);
                    }
                    assert(list@[before.len() as int] == n);
                    if list@.contains(v) && v != n {
                        let j = list@.index_of(v);
                        assert(before[j] == v);
                    }
                }
                assert(list@.to_set() =~= set@);
            } else {
                assert(set@ =~= set_before);
                assert(set_before =~= set_before.insert(n));
            }
        }
        i += 1;
    }
    Links { list, set }
}

/// How many of the first `k` of a list are in a set.
spec fn shared(list: Seq<u64>, set: Set<u64>, k: nat) -> nat
    decreases k,
{
    if k == 0 {
        0
    } else {
        shared(list, set, (k - 1) as nat) + (if set.contains(list[k - 1]) {
            1nat
        } else {
            0
        })
    }
}

proof fn lemma_shared(list: Seq<u64>, set: Set<u64>, k: nat)
    requires
        k <= list.len(),
        list.no_duplicates(),
    ensures
        list.take(k as int).to_set().finite(),
        shared(list, set, k) == list.take(k as int).to_set().intersect(set).len(),
    decreases k,
{
    let now = list.take(k as int).to_set();
    vstd::seq_lib::seq_to_set_is_finite(list.take(k as int));
    if k == 0 {
        assert(now.intersect(set) =~= Set::<u64>::empty());
    } else {
        lemma_shared(list, set, (k - 1) as nat);
        let earlier = list.take(k - 1).to_set();
        let x = list[k - 1];
        assert(!earlier.contains(x)) by {
            if earlier.contains(x) {
                let i = list.take(k - 1).index_of(x);
                assert(list[i] == x);
            }
        }
        assert(now =~= earlier.insert(x)) by {
            assert forall|v: u64| now.contains(v) <==> earlier.insert(x).contains(v) by {
                if earlier.contains(v) {
                    let i = list.take(k - 1).index_of(v);
                    assert(list.take(k as int)[i] == v);
                }
                assert(list.take(k as int)[k - 1] == x);
                if now.contains(v) && v != x {
                    let i = list.take(k as int).index_of(v);
                    assert(list.take(k - 1)[i] == v);
                }
            }
        }
        if set.contains(x) {
            assert(now.intersect(set) =~= earlier.intersect(set).insert(x));
        } else {
            assert(now.intersect(set) =~= earlier.intersect(set));
        }
    }
}

/// Links followed from round to round.
pub struct Turnover {
    pub before: Option<Links>,
    /// Links that were there a round later.
    pub survived: u64,
    /// Links that could have been.
    pub total: u64,
}

impl Turnover {
    /// The links of the last round seen, if there was one.
    pub closed spec fn last(self) -> Option<Set<u64>> {
        match self.before {
            Some(l) => Some(l.set@),
            None => None,
        }
    }

    pub closed spec fn wf(self) -> bool {
        self.before matches Some(l) ==> l.holds(l.set@)
    }

    pub fn new() -> (t: Turnover)
        ensures
            t.wf(),
            t.last() is None,
            t.survived == 0,
            t.total == 0,
    {
        Turnover { before: None, survived: 0, total: 0 }
    }

    /// Takes in one round's links: those of the round before are counted, and
    /// among them those that are still there.
    pub fn observe(&mut self, edges: &Vec<EdgeSnapshot>)
        requires
            old(self).wf(),
            old(self).last() matches Some(s) ==> old(self).total + s.len() <= u64::MAX
                && old(self).survived + s.len() <= u64::MAX,
        ensures
            final(self).wf(),
            final(self).last() == Some(pairs_among(edges@, edges@.len())),
            match old(self).last() {
                Some(s) => final(self).total == old(self).total + s.len() && final(self).survived
                    == old(self).survived + s.intersect(pairs_among(edges@, edges@.len())).len(),
                None => final(self).total == old(self).total && final(self).survived == old(
                    self,
                ).survived,
            },
    {
        let now: Links = links_in(edges);
        if let Some(before) = &self.before {
            proof {
                before.list@.unique_seq_to_set();
                lemma_shared(before.list@, now.set@, before.list@.len());
                assert(before.list@.take(before.list@.len() as int) =~= before.list@);
                lemma_shared_fits(before.list@, now.set@, before.list@.len());
            }
            let mut kept: u64 = 0;
            let mut k: usize = 0;
            while k < before.list.len()
                invariant
                    k <= before.list@.len(),
                    kept == shared(before.list@, now.set@, k as nat),
                    kept <= k,
                decreases before.list@.len() - k,
            {
                if now.set.contains(&before.list[k]) {
                    kept = kept + 1;
                }
                k += 1;
            }
            self.total = self.total + before.list.len() as u64;
            self.survived = self.survived + kept;
        }
        self.before = Some(now);
    }
}

proof fn lemma_shared_fits(list: Seq<u64>, set: Set<u64>, k: nat)
    ensures
        shared(list, set, k) <= k,
    decreases k,
{
    if k > 0 {
        lemma_shared_fits(list, set, (k - 1) as nat);
    }
}

/// A link between balloons reads back from its wire key as the two of them, the
/// smaller id first, whichever way round it is written; a link to a tower reads as
/// none.
pub proof fn links_read_back(a: NodeKey, b: NodeKey)
    ensures
        match (a, b) {
            (NodeKey::Balloon(x), NodeKey::Balloon(y)) => pair_in(
                link_detection::wire_pair(a, b),
            ) == Some(
                if x <= y {
                    (x, y)
                } else {
                    (y, x)
                },
            ),
            _ => pair_in(link_detection::wire_pair(a, b)) is None,
        },
{
    let (c, d) = link_detection::in_order(a, b);
    let left = link_detection::wire_key(c);
    let right = link_detection::wire_key(d);
    let s = link_detection::wire_pair(a, b);
    assert(s =~= left + seq!['|'] + right);
    lemma_key_reads(c);
    lemma_key_reads(d);
    lemma_bar_at(s, left.len() as int, 0);
    assert(s.take(left.len() as int) =~= left);
    assert(s.skip(left.len() as int + 1) =~= right);
}

proof fn lemma_key_reads(k: NodeKey)
    ensures
        balloon_id(link_detection::wire_key(k)) == (match k {
            NodeKey::Balloon(id) => Some(id),
            NodeKey::Tower(_) => None,
        }),
        forall|i: int|
            0 <= i < link_detection::wire_key(k).len() ==> #[trigger] link_detection::wire_key(
                k,
            )[i] != '|',
{
    let id = match k {
        NodeKey::Balloon(id) => id,
        NodeKey::Tower(id) => id,
    };
    let s = link_detection::wire_key(k);
    text::lemma_decimal_digits(id as nat);
    text::lemma_decimal_reads_back(id as nat);
    assert(s.skip(1) =~= text::decimal(id as nat));
    assert forall|i: int| 0 <= i < s.len() implies #[trigger] s[i] != '|' by {
        if i > 0 {
            assert(s[i] == text::decimal(id as nat)[i - 1]);
        }
    }
}

proof fn lemma_bar_at(s: Seq<char>, p: int, k: int)
    requires
        0 <= k <= p < s.len(),
        s[p] == '|',
        forall|i: int| 0 <= i < p ==> #[trigger] s[i] != '|',
    ensures
        text::place(s, '|', k) == Some(p),
    decreases p - k,
{
    if k < p {
        assert(s[k] != '|');
        lemma_bar_at(s, p, k + 1);
    }
}

/// Pairs are told apart by their numbers.
pub proof fn pair_numbers_tell(p: (u32, u32), q: (u32, u32))
    ensures
        pair_number(p) == pair_number(q) <==> p == q,
{
}

} // verus!
