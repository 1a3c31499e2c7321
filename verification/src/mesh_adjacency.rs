//! Who can hear whom, derived from the link list. A physical fact shared by
//! every protocol.
use vstd::prelude::*;

use crate::link_detection::{Edge, NodeKey};
use crate::tower::Tower;

verus! {

/// Who can hear whom. Balloon slots are indexed by position in the visible
/// slice, tower slots by position in the tower list.
pub struct MeshAdjacency {
    balloon_adj: Vec<Vec<u32>>,
    tower_adj: Vec<Vec<u32>>,
    balloon_tower: Vec<Option<u32>>,
}

/// The mathematical content of a `MeshAdjacency`.
#[verifier::ext_equal]
pub struct Topology {
    /// Balloons each balloon hears, in link order.
    pub neighbors: Seq<Seq<u32>>,
    /// Balloons each tower reaches, in link order.
    pub tower_neighbors: Seq<Seq<u32>>,
    /// A tower each balloon hears directly, if any.
    pub tower: Seq<Option<u32>>,
}

impl Topology {
    pub open spec fn neighbors_of(self, i: int) -> Seq<u32> {
        if 0 <= i < self.neighbors.len() {
            self.neighbors[i]
        } else {
            Seq::empty()
        }
    }

    pub open spec fn tower_neighbors_of(self, slot: int) -> Seq<u32> {
        if 0 <= slot < self.tower_neighbors.len() {
            self.tower_neighbors[slot]
        } else {
            Seq::empty()
        }
    }

    pub open spec fn tower_of(self, i: int) -> Option<u32> {
        if 0 <= i < self.tower.len() {
            self.tower[i]
        } else {
            None
        }
    }
}

impl Topology {
    /// Whether everyone that anyone can hear is one of the first `n` balloons.
    pub open spec fn within(self, n: nat) -> bool {
        &&& forall|i: int, j: int|
            0 <= j < self.neighbors_of(i).len() ==> (#[trigger] self.neighbors_of(i)[j]) < n
        &&& forall|s: int, j: int|
            0 <= j < self.tower_neighbors_of(s).len() ==> (#[trigger] self.tower_neighbors_of(
                s,
            )[j]) < n
    }
}

/// Whether a link joins only towers and the first `n` balloons.
pub open spec fn link_within(e: Edge, n: nat) -> bool {
    &&& e.a matches NodeKey::Balloon(x) ==> x < n
    &&& e.b matches NodeKey::Balloon(y) ==> y < n
}

/// The slot of a tower id: the last place in the list that carries it.
pub open spec fn slot_of(towers: Seq<Tower>, id: u32) -> Option<int>
    decreases towers.len(),
{
    if towers.len() == 0 {
        None
    } else if towers.last().id == id {
        Some(towers.len() - 1)
    } else {
        slot_of(towers.drop_last(), id)
    }
}

/// What balloon `i` hears over the first `k` links: the other end of each
/// balloon-to-balloon link it is on, once for each end that it is.
pub open spec fn heard(edges: Seq<Edge>, k: nat, i: int) -> Seq<u32>
    decreases k,
{
    if k == 0 {
        Seq::empty()
    } else {
        let before = heard(edges, (k - 1) as nat, i);
        match (edges[k - 1].a, edges[k - 1].b) {
            (NodeKey::Balloon(x), NodeKey::Balloon(y)) => {
                let once = if x == i {
                    before.push(y)
                } else {
                    before
                };
                if y == i {
                    once.push(x)
                } else {
                    once
                }
            },
            _ => before,
        }
    }
}

/// The balloon and tower of a link between a balloon and a tower.
pub open spec fn ground_link(e: Edge) -> Option<(u32, u32)> {
    match (e.a, e.b) {
        (NodeKey::Balloon(b), NodeKey::Tower(t)) => Some((b, t)),
        (NodeKey::Tower(t), NodeKey::Balloon(b)) => Some((b, t)),
        _ => None,
    }
}

/// The balloons the tower at `slot` reaches over the first `k` links.
pub open spec fn reached(edges: Seq<Edge>, k: nat, towers: Seq<Tower>, slot: int) -> Seq<u32>
    decreases k,
{
    if k == 0 {
        Seq::empty()
    } else {
        let before = reached(edges, (k - 1) as nat, towers, slot);
        match ground_link(edges[k - 1]) {
            Some((b, t)) => if slot_of(towers, t) == Some(slot) {
                before.push(b)
            } else {
                before
            },
            None => before,
        }
    }
}

/// The tower balloon `i` hears over the first `k` links: that of the last link
/// to a known tower.
pub open spec fn ground(edges: Seq<Edge>, k: nat, towers: Seq<Tower>, i: int) -> Option<u32>
    decreases k,
{
    if k == 0 {
        None
    } else {
        let before = ground(edges, (k - 1) as nat, towers, i);
        match ground_link(edges[k - 1]) {
            Some((b, t)) => if b == i && slot_of(towers, t) is Some {
                Some(t)
            } else {
                before
            },
            None => before,
        }
    }
}

/// The topology of a link list over `n` balloons and some towers.
pub open spec fn topology_of(edges: Seq<Edge>, n: nat, towers: Seq<Tower>) -> Topology {
    Topology {
        neighbors: Seq::new(n, |i: int| heard(edges, edges.len(), i)),
        tower_neighbors: Seq::new(
            towers.len(),
            |s: int| reached(edges, edges.len(), towers, s),
        ),
        tower: Seq::new(n, |i: int| ground(edges, edges.len(), towers, i)),
    }
}

fn find_slot(towers: &[Tower], id: u32) -> (r: Option<usize>)
    ensures
        match r {
            Some(s) => slot_of(towers@, id) == Some(s as int) && s < towers.len(),
            None => slot_of(towers@, id) is None,
        },
{
    let mut k: usize = towers.len();
    assert(towers@.take(k as int) =~= towers@);
    while k > 0
        invariant
            k <= towers.len(),
            slot_of(towers@, id) == slot_of(towers@.take(k as int), id),
        decreases k,
    {
        assert(towers@.take(k as int).drop_last() =~= towers@.take(k - 1));
        if towers[k - 1].id == id {
            return Some(k - 1);
        }
        k = k - 1;
    }
    None
}

impl View for MeshAdjacency {
    type V = Topology;

    closed spec fn view(&self) -> Topology {
        Topology {
            neighbors: self.balloon_adj@.map_values(|v: Vec<u32>| v@),
            tower_neighbors: self.tower_adj@.map_values(|v: Vec<u32>| v@),
            tower: self.balloon_tower@,
        }
    }
}

impl Default for MeshAdjacency {
    fn default() -> (r: MeshAdjacency)
        ensures
            r@ == topology_of(Seq::empty(), 0, Seq::empty()),
    {
        let r = MeshAdjacency {
            balloon_adj: Vec::new(),
            tower_adj: Vec::new(),
            balloon_tower: Vec::new(),
        };
        assert(r@ =~= topology_of(Seq::empty(), 0, Seq::empty()));
        r
    }
}

fn empty_lists(n: usize) -> (r: Vec<Vec<u32>>)
    ensures
        r.len() == n,
        forall|i: int| 0 <= i < n ==> (#[trigger] r[i])@ == Seq::<u32>::empty(),
{
    let mut r: Vec<Vec<u32>> = Vec::new();
    while r.len() < n
        invariant
            r.len() <= n,
            forall|i: int| 0 <= i < r.len() ==> (#[trigger] r[i])@ == Seq::<u32>::empty(),
        decreases n - r.len(),
    {
        r.push(Vec::new());
    }
    r
}

fn no_towers(n: usize) -> (r: Vec<Option<u32>>)
    ensures
        r.len() == n,
        forall|i: int| 0 <= i < n ==> r[i] is None,
{
    let mut r: Vec<Option<u32>> = Vec::new();
    while r.len() < n
        invariant
            r.len() <= n,
            forall|i: int| 0 <= i < r.len() ==> r[i] is None,
        decreases n - r.len(),
    {
        r.push(None);
    }
    r
}

impl MeshAdjacency {
    /// Replaces the content by the topology of a link list. A balloon id past
    /// the visible slice, and a tower id that is not in the list, get no entry
    /// of their own.
    pub fn rebuild(&mut self, edges: &[Edge], n_balloons: usize, towers: &[Tower])
        ensures
            final(self)@ == topology_of(edges@, n_balloons as nat, towers@),
    {
        self.balloon_adj = empty_lists(n_balloons);
        self.tower_adj = empty_lists(towers.len());
        self.balloon_tower = no_towers(n_balloons);
        let mut k: usize = 0;
        while k < edges.len()
            invariant
                k <= edges.len(),
                self.balloon_adj.len() == n_balloons,
                self.tower_adj.len() == towers.len(),
                self.balloon_tower.len() == n_balloons,
                forall|i: int|
                    0 <= i < n_balloons ==> (#[trigger] self.balloon_adj[i])@ == heard(
                        edges@,
                        k as nat,
                        i,
                    ),
                forall|s: int|
                    0 <= s < towers.len() ==> (#[trigger] self.tower_adj[s])@ == reached(
                        edges@,
                        k as nat,
                        towers@,
                        s,
                    ),
                forall|i: int|
                    0 <= i < n_balloons ==> #[trigger] self.balloon_tower[i] == ground(
                        edges@,
                        k as nat,
                        towers@,
                        i,
                    ),
            decreases edges.len() - k,
        {
            match (edges[k].a, edges[k].b) {
                (NodeKey::Balloon(x), NodeKey::Balloon(y)) => {
                    if (x as usize) < n_balloons {
                        self.balloon_adj[x as usize].push(y);
                    }
                    if (y as usize) < n_balloons {
                        self.balloon_adj[y as usize].push(x);
                    }
                },
                (NodeKey::Balloon(b_id), NodeKey::Tower(t_id)) => {
                    self.add_ground_link(b_id, t_id, towers);
                },
                (NodeKey::Tower(t_id), NodeKey::Balloon(b_id)) => {
                    self.add_ground_link(b_id, t_id, towers);
                },
                (NodeKey::Tower(_), NodeKey::Tower(_)) => {},
            }
            k = k + 1;
        }
        assert(self@ =~~= topology_of(edges@, n_balloons as nat, towers@));
    }

    fn add_ground_link(&mut self, b_id: u32, t_id: u32, towers: &[Tower])
        requires
            old(self).tower_adj.len() == towers.len(),
        ensures
            final(self).balloon_adj@ == old(self).balloon_adj@,
            final(self).tower_adj.len() == old(self).tower_adj.len(),
            final(self).balloon_tower.len() == old(self).balloon_tower.len(),
            forall|s: int|
                0 <= s < old(self).tower_adj.len() ==> (#[trigger] final(self).tower_adj[s])@ == (
                if slot_of(towers@, t_id) == Some(s) {
                    old(self).tower_adj[s]@.push(b_id)
                } else {
                    old(self).tower_adj[s]@
                }),
            forall|i: int|
                0 <= i < old(self).balloon_tower.len()
                    ==> #[trigger] final(self).balloon_tower[i] == (if b_id == i && slot_of(
                    towers@,
                    t_id,
                ) is Some {
                    Some(t_id)
                } else {
                    old(self).balloon_tower[i]
                }),
    {
        match find_slot(towers, t_id) {
            Some(slot) => {
                self.tower_adj[slot].push(b_id);
                if (b_id as usize) < self.balloon_tower.len() {
                    self.balloon_tower[b_id as usize] = Some(t_id);
                }
            },
            None => {},
        }
    }

    /// Balloons in range of the tower at `slot`, an index into the tower list.
    pub fn tower_neighbors(&self, slot: usize) -> (r: &[u32])
        ensures
            r@ == self@.tower_neighbors_of(slot as int),
    {
        if slot < self.tower_adj.len() {
            self.tower_adj[slot].as_slice()
        } else {
            let none: &[u32] = &[];
            assert(none@ =~= Seq::<u32>::empty());
            none
        }
    }

    /// Balloons this one can currently hear. Empty if it has no live links.
    pub fn neighbors(&self, i: usize) -> (r: &[u32])
        ensures
            r@ == self@.neighbors_of(i as int),
    {
        if i < self.balloon_adj.len() {
            self.balloon_adj[i].as_slice()
        } else {
            let none: &[u32] = &[];
            assert(none@ =~= Seq::<u32>::empty());
            none
        }
    }

    pub fn is_neighbor(&self, i: usize, id: u32) -> (r: bool)
        ensures
            r == self@.neighbors_of(i as int).contains(id),
    {
        let list: &[u32] = self.neighbors(i);
        let mut k: usize = 0;
        while k < list.len()
            invariant
                k <= list.len(),
                list@ == self@.neighbors_of(i as int),
                forall|j: int| 0 <= j < k ==> list@[j] != id,
            decreases list.len() - k,
        {
            if list[k] == id {
                assert(list@[k as int] == id);
                return true;
            }
            k = k + 1;
        }
        false
    }

    /// A tower this balloon can hand a bundle straight to, if any.
    pub fn tower_in_range(&self, i: usize) -> (r: Option<u32>)
        ensures
            r == self@.tower_of(i as int),
    {
        if i < self.balloon_tower.len() {
            self.balloon_tower[i]
        } else {
            None
        }
    }
}

/// Hearing is mutual: over any link list, a visible balloon hears another
/// exactly when the other hears it.
pub proof fn hearing_is_mutual(edges: Seq<Edge>, n: nat, towers: Seq<Tower>, i: u32, j: u32)
    requires
        i < n,
        j < n,
    ensures
        topology_of(edges, n, towers).neighbors_of(i as int).contains(j) == topology_of(
            edges,
            n,
            towers,
        ).neighbors_of(j as int).contains(i),
{
    heard_both_ways(edges, edges.len(), i, j);
    heard_both_ways(edges, edges.len(), j, i);
}

proof fn heard_both_ways(edges: Seq<Edge>, k: nat, i: u32, j: u32)
    requires
        k <= edges.len(),
    ensures
        heard(edges, k, i as int).contains(j) ==> heard(edges, k, j as int).contains(i),
    decreases k,
{
    if k > 0 {
        heard_both_ways(edges, (k - 1) as nat, i, j);
        let bi = heard(edges, (k - 1) as nat, i as int);
        let bj = heard(edges, (k - 1) as nat, j as int);
        match (edges[k - 1].a, edges[k - 1].b) {
            (NodeKey::Balloon(x), NodeKey::Balloon(y)) => {
                push_contains(bi, y, j);
                push_contains(bi, x, j);
                push_contains(bi.push(y), x, j);
                push_contains(bj, y, i);
                push_contains(bj, x, i);
                push_contains(bj.push(y), x, i);
            },
            _ => {},
        }
    }
}

proof fn push_contains(s: Seq<u32>, x: u32, v: u32)
    ensures
        s.push(x).contains(v) == (s.contains(v) || x == v),
{
    if s.contains(v) {
        let k = choose|k: int| 0 <= k < s.len() && s[k] == v;
        assert(s.push(x)[k] == v);
    }
    if x == v {
        assert(s.push(x)[s.len() as int] == v);
    }
    if s.push(x).contains(v) && x != v {
        let k = choose|k: int| 0 <= k < s.push(x).len() && s.push(x)[k] == v;
        assert(s[k] == v);
    }
}


proof fn heard_within(edges: Seq<Edge>, k: nat, i: int, n: nat)
    requires
        k <= edges.len(),
        forall|j: int| 0 <= j < edges.len() ==> link_within(#[trigger] edges[j], n),
    ensures
        forall|j: int|
            0 <= j < heard(edges, k, i).len() ==> (#[trigger] heard(edges, k, i)[j]) < n,
    decreases k,
{
    if k > 0 {
        heard_within(edges, (k - 1) as nat, i, n);
        assert(link_within(edges[k - 1], n));
        let before = heard(edges, (k - 1) as nat, i);
        let after = heard(edges, k, i);
        assert forall|j: int| 0 <= j < after.len() implies (#[trigger] after[j]) < n by {
            if j < before.len() {
                assert(after[j] == before[j]);
            }
        }
    }
}

proof fn reached_within(edges: Seq<Edge>, k: nat, towers: Seq<Tower>, slot: int, n: nat)
    requires
        k <= edges.len(),
        forall|j: int| 0 <= j < edges.len() ==> link_within(#[trigger] edges[j], n),
    ensures
        forall|j: int|
            0 <= j < reached(edges, k, towers, slot).len() ==> (#[trigger] reached(
                edges,
                k,
                towers,
                slot,
            )[j]) < n,
    decreases k,
{
    if k > 0 {
        reached_within(edges, (k - 1) as nat, towers, slot, n);
        assert(link_within(edges[k - 1], n));
        let before = reached(edges, (k - 1) as nat, towers, slot);
        let after = reached(edges, k, towers, slot);
        assert forall|j: int| 0 <= j < after.len() implies (#[trigger] after[j]) < n by {
            if j < before.len() {
                assert(after[j] == before[j]);
            }
        }
    }
}

/// Over links among the visible, only the visible are heard.
pub proof fn only_the_visible_are_heard(edges: Seq<Edge>, n: nat, towers: Seq<Tower>)
    requires
        forall|j: int| 0 <= j < edges.len() ==> link_within(#[trigger] edges[j], n),
    ensures
        topology_of(edges, n, towers).within(n),
{
    let topo = topology_of(edges, n, towers);
    assert forall|i: int, j: int| 0 <= j < topo.neighbors_of(i).len() implies (
    #[trigger] topo.neighbors_of(i)[j]) < n by {
        heard_within(edges, edges.len(), i, n);
    }
    assert forall|s: int, j: int| 0 <= j < topo.tower_neighbors_of(s).len() implies (
    #[trigger] topo.tower_neighbors_of(s)[j]) < n by {
        reached_within(edges, edges.len(), towers, s, n);
    }
}

/// Whether a link joins two nodes, whichever way round.
pub open spec fn joins(e: Edge, x: NodeKey, y: NodeKey) -> bool {
    e.a == x && e.b == y || e.a == y && e.b == x
}

/// Whether one of the first `k` links joins two nodes.
pub open spec fn joined(edges: Seq<Edge>, k: nat, x: NodeKey, y: NodeKey) -> bool {
    exists|e: int| 0 <= e < k && joins(#[trigger] edges[e], x, y)
}

proof fn lemma_joined(edges: Seq<Edge>, k: nat, x: NodeKey, y: NodeKey)
    requires
        0 < k <= edges.len(),
    ensures
        joined(edges, k, x, y) == (joined(edges, (k - 1) as nat, x, y) || joins(
            edges[k - 1],
            x,
            y,
        )),
{
    if joined(edges, (k - 1) as nat, x, y) {
        let e = choose|e: int| 0 <= e < k - 1 && joins(#[trigger] edges[e], x, y);
        assert(joins(edges[e], x, y));
    }
    if joins(edges[k - 1], x, y) {
        assert(joined(edges, k, x, y));
    }
}

proof fn lemma_heard_over_links(edges: Seq<Edge>, k: nat, i: u32, j: u32)
    requires
        k <= edges.len(),
    ensures
        heard(edges, k, i as int).contains(j) == joined(
            edges,
            k,
            NodeKey::Balloon(i),
            NodeKey::Balloon(j),
        ),
    decreases k,
{
    if k > 0 {
        lemma_heard_over_links(edges, (k - 1) as nat, i, j);
        lemma_joined(edges, k, NodeKey::Balloon(i), NodeKey::Balloon(j));
        let b = heard(edges, (k - 1) as nat, i as int);
        match (edges[k - 1].a, edges[k - 1].b) {
            (NodeKey::Balloon(x), NodeKey::Balloon(y)) => {
                push_contains(b, y, j);
                push_contains(b, x, j);
                push_contains(b.push(y), x, j);
            },
            _ => {},
        }
    }
}

/// Balloons hear each other over links: a visible balloon hears another exactly
/// when some link joins the two.
pub proof fn balloons_hear_over_links(
    edges: Seq<Edge>,
    n: nat,
    towers: Seq<Tower>,
    i: u32,
    j: u32,
)
    requires
        i < n,
    ensures
        topology_of(edges, n, towers).neighbors_of(i as int).contains(j) == joined(
            edges,
            edges.len(),
            NodeKey::Balloon(i),
            NodeKey::Balloon(j),
        ),
{
    lemma_heard_over_links(edges, edges.len(), i, j);
}

proof fn lemma_slot(towers: Seq<Tower>, id: u32)
    ensures
        slot_of(towers, id) matches Some(s) ==> 0 <= s < towers.len() && towers[s].id == id
            && forall|x: int| s < x < towers.len() ==> (#[trigger] towers[x]).id != id,
        slot_of(towers, id) is None ==> forall|x: int|
            0 <= x < towers.len() ==> (#[trigger] towers[x]).id != id,
    decreases towers.len(),
{
    if towers.len() > 0 && towers.last().id != id {
        lemma_slot(towers.drop_last(), id);
        assert forall|x: int| 0 <= x < towers.len() - 1 implies towers.drop_last()[x]
            == #[trigger] towers[x] by {}
    }
}

proof fn lemma_reached_over_links(edges: Seq<Edge>, k: nat, towers: Seq<Tower>, slot: int, b: u32)
    requires
        k <= edges.len(),
        0 <= slot < towers.len(),
        forall|x: int| slot < x < towers.len() ==> (#[trigger] towers[x]).id != towers[slot].id,
    ensures
        reached(edges, k, towers, slot).contains(b) == joined(
            edges,
            k,
            NodeKey::Balloon(b),
            NodeKey::Tower(towers[slot].id),
        ),
    decreases k,
{
    if k > 0 {
        lemma_reached_over_links(edges, (k - 1) as nat, towers, slot, b);
        lemma_joined(edges, k, NodeKey::Balloon(b), NodeKey::Tower(towers[slot].id));
        let before = reached(edges, (k - 1) as nat, towers, slot);
        if let Some((x, t)) = ground_link(edges[k - 1]) {
            push_contains(before, x, b);
            lemma_slot(towers, t);
            if t == towers[slot].id {
                assert(towers[slot].id == t);
                let s = slot_of(towers, t)->Some_0;
                if s < slot {
                    assert(towers[slot].id != t);
                } else if s > slot {
                    assert(towers[s].id != towers[slot].id);
                }
            }
        }
    }
}

/// Towers reach balloons over links: a listed tower reaches a balloon exactly when
/// some link joins the two. Of towers listed under one id, the last counts.
pub proof fn towers_reach_over_links(
    edges: Seq<Edge>,
    n: nat,
    towers: Seq<Tower>,
    slot: int,
    b: u32,
)
    requires
        0 <= slot < towers.len(),
        forall|x: int| slot < x < towers.len() ==> (#[trigger] towers[x]).id != towers[slot].id,
    ensures
        topology_of(edges, n, towers).tower_neighbors_of(slot).contains(b) == joined(
            edges,
            edges.len(),
            NodeKey::Balloon(b),
            NodeKey::Tower(towers[slot].id),
        ),
{
    lemma_reached_over_links(edges, edges.len(), towers, slot, b);
}

/// Whether a tower of this id is listed.
pub open spec fn is_listed(towers: Seq<Tower>, id: u32) -> bool {
    exists|x: int| 0 <= x < towers.len() && (#[trigger] towers[x]).id == id
}

proof fn lemma_ground_over_links(edges: Seq<Edge>, k: nat, towers: Seq<Tower>, i: u32, t: u32)
    requires
        k <= edges.len(),
    ensures
        ground(edges, k, towers, i as int) == Some(t) ==> is_listed(towers, t) && joined(
            edges,
            k,
            NodeKey::Balloon(i),
            NodeKey::Tower(t),
        ),
        is_listed(towers, t) && joined(edges, k, NodeKey::Balloon(i), NodeKey::Tower(t))
            ==> ground(edges, k, towers, i as int) is Some,
    decreases k,
{
    if k > 0 {
        lemma_ground_over_links(edges, (k - 1) as nat, towers, i, t);
        lemma_joined(edges, k, NodeKey::Balloon(i), NodeKey::Tower(t));
        if let Some((x, u)) = ground_link(edges[k - 1]) {
            lemma_slot(towers, u);
            if slot_of(towers, u) is Some {
                assert(towers[slot_of(towers, u)->Some_0].id == u);
            }
        }
    }
}

/// A balloon hears a tower exactly when some link joins it to one that is listed,
/// and the tower that it hears is such a one.
pub proof fn a_tower_is_heard_over_a_link(
    edges: Seq<Edge>,
    n: nat,
    towers: Seq<Tower>,
    i: u32,
)
    requires
        i < n,
    ensures
        ({
            let heard_one = topology_of(edges, n, towers).tower_of(i as int);
            &&& heard_one matches Some(t) ==> is_listed(towers, t) && joined(
                edges,
                edges.len(),
                NodeKey::Balloon(i),
                NodeKey::Tower(t),
            )
            &&& heard_one is None ==> forall|t: u32|
                is_listed(towers, t) ==> !#[trigger] joined(
                    edges,
                    edges.len(),
                    NodeKey::Balloon(i),
                    NodeKey::Tower(t),
                )
        }),
{
    let one = ground(edges, edges.len(), towers, i as int);
    if let Some(t) = one {
        lemma_ground_over_links(edges, edges.len(), towers, i, t);
    }
    assert forall|t: u32| one is None && is_listed(towers, t) implies !#[trigger] joined(
        edges,
        edges.len(),
        NodeKey::Balloon(i),
        NodeKey::Tower(t),
    ) by {
        lemma_ground_over_links(edges, edges.len(), towers, i, t);
    }
}

} // verus!
