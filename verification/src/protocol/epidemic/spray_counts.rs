//! Records, not copies: what the counters of spray-and-wait count.
use vstd::prelude::*;

use crate::balloon::Balloon;
use crate::mesh_adjacency::Topology;
use crate::protocol::dv_dtn::bundle::Channel;

use super::params::EpidemicParams;
use super::spray_laws;
use super::spray_round;
use super::spray_round::{EpiModel, Spray, SprayGather, SprayState};
use super::Copy_;

verus! {

/// How many records have an outcome.
pub open spec fn settled_records(nodes: Seq<EpiModel>) -> nat
    decreases nodes.len(),
{
    if nodes.len() == 0 {
        0
    } else {
        settled_records(nodes.drop_last()) + nodes.last().settled.len()
    }
}

/// How many records have been originated by these nodes.
pub open spec fn made_records(nodes: Seq<EpiModel>) -> nat
    decreases nodes.len(),
{
    if nodes.len() == 0 {
        0
    } else {
        made_records(nodes.drop_last()) + nodes.last().bundle_seq as nat
    }
}

/// How many records the counters say have left circulation.
pub open spec fn counted(s: SprayState) -> int {
    s.stats.delivered + s.stats.satellite
}

/// Whether a copy is of a record that its origin has originated.
pub open spec fn genuine(nodes: Seq<EpiModel>, c: Copy_) -> bool {
    c.origin_id < nodes.len() ==> c.seq < nodes[c.origin_id as int].bundle_seq
}

/// Whether what nodes hold and what they have settled was originated, and
/// nothing is settled twice.
pub open spec fn tidy(nodes: Seq<EpiModel>) -> bool {
    &&& forall|i: int|
        0 <= i < nodes.len() ==> (#[trigger] nodes[i]).settled.no_duplicates()
    &&& forall|i: int, x: int|
        0 <= i < nodes.len() && 0 <= x < nodes[i].settled.len() ==> (
        #[trigger] nodes[i].settled[x]) < nodes[i].bundle_seq
    &&& forall|i: int, j: int|
        0 <= i < nodes.len() && 0 <= j < nodes[i].held.len() ==> genuine(
            nodes,
            #[trigger] nodes[i].held[j],
        )
}

/// Whether what was settled stays settled: lists only grow, at their ends.
pub open spec fn settled_stays(a: Seq<EpiModel>, b: Seq<EpiModel>) -> bool {
    &&& a.len() == b.len()
    &&& forall|i: int|
        0 <= i < a.len() ==> a[i].settled.is_prefix_of((#[trigger] b[i]).settled)
}

/// Whether the books of two states agree, apart from what was originated: the
/// counters grew by as much as the list of what is settled, and as many
/// latencies were taken down as records delivered.
spec fn paired(a: SprayState, b: SprayState) -> bool {
    &&& settled_stays(a.nodes, b.nodes)
    &&& spray_laws::same_seqs(a.nodes, b.nodes)
    &&& counted(b) - settled_records(b.nodes) == counted(a) - settled_records(a.nodes)
    &&& b.stats.originated == a.stats.originated
    &&& b.latencies.len() - b.stats.delivered == a.latencies.len() - a.stats.delivered
}

/// Whether, besides, what was tidy stays tidy.
spec fn tallied(a: SprayState, b: SprayState) -> bool {
    paired(a, b) && (tidy(a.nodes) ==> tidy(b.nodes))
}

proof fn lemma_paired_on(a: SprayState, b: SprayState, c: SprayState)
    requires
        paired(a, b),
        paired(b, c),
    ensures
        paired(a, c),
{
    assert forall|i: int| 0 <= i < a.nodes.len() implies a.nodes[i].settled.is_prefix_of(
        (#[trigger] c.nodes[i]).settled,
    ) by {
        assert(a.nodes[i].settled.is_prefix_of(b.nodes[i].settled));
        assert(b.nodes[i].settled.is_prefix_of(c.nodes[i].settled));
    }
    assert forall|j: int| 0 <= j < a.nodes.len() implies (#[trigger] c.nodes[j]).bundle_seq
        == a.nodes[j].bundle_seq by {
        assert(b.nodes[j].bundle_seq == a.nodes[j].bundle_seq);
    }
}

proof fn lemma_settled_update(nodes: Seq<EpiModel>, i: int, n: EpiModel)
    requires
        0 <= i < nodes.len(),
    ensures
        settled_records(nodes.update(i, n)) == settled_records(nodes) - nodes[i].settled.len()
            + n.settled.len(),
    decreases nodes.len(),
{
    if i == nodes.len() - 1 {
        assert(nodes.update(i, n).drop_last() =~= nodes.drop_last());
    } else {
        assert(nodes.update(i, n).drop_last() =~= nodes.drop_last().update(i, n));
        lemma_settled_update(nodes.drop_last(), i, n);
    }
}

proof fn lemma_made_update(nodes: Seq<EpiModel>, i: int, n: EpiModel)
    requires
        0 <= i < nodes.len(),
    ensures
        made_records(nodes.update(i, n)) == made_records(nodes) - nodes[i].bundle_seq
            + n.bundle_seq,
    decreases nodes.len(),
{
    if i == nodes.len() - 1 {
        assert(nodes.update(i, n).drop_last() =~= nodes.drop_last());
    } else {
        assert(nodes.update(i, n).drop_last() =~= nodes.drop_last().update(i, n));
        lemma_made_update(nodes.drop_last(), i, n);
    }
}

proof fn lemma_settled_same(a: Seq<EpiModel>, b: Seq<EpiModel>)
    requires
        a.len() == b.len(),
        forall|i: int| 0 <= i < a.len() ==> (#[trigger] b[i]).settled == a[i].settled,
    ensures
        settled_records(a) == settled_records(b),
    decreases a.len(),
{
    if a.len() > 0 {
        assert(b[b.len() - 1].settled == a[a.len() - 1].settled);
        assert forall|i: int| 0 <= i < a.drop_last().len() implies (
        #[trigger] b.drop_last()[i]).settled == a.drop_last()[i].settled by {
            assert(b[i].settled == a[i].settled);
        }
        lemma_settled_same(a.drop_last(), b.drop_last());
    }
}

proof fn lemma_made_same(a: Seq<EpiModel>, b: Seq<EpiModel>)
    requires
        spray_laws::same_seqs(a, b),
    ensures
        made_records(a) == made_records(b),
    decreases a.len(),
{
    if a.len() > 0 {
        assert(b[b.len() - 1].bundle_seq == a[a.len() - 1].bundle_seq);
        assert forall|i: int| 0 <= i < a.drop_last().len() implies (
        #[trigger] b.drop_last()[i]).bundle_seq == a.drop_last()[i].bundle_seq by {
            assert(b[i].bundle_seq == a[i].bundle_seq);
        }
        lemma_made_same(a.drop_last(), b.drop_last());
    }
}

/// Noting an outcome settles one record, or none if it was settled.
proof fn lemma_outcome(
    nodes: Seq<EpiModel>,
    origin_id: u32,
    seq: u64,
    channel: Channel,
)
    ensures
        ({
            let after = spray_round::with_outcome(nodes, origin_id, seq, channel);
            &&& settled_stays(nodes, after)
            &&& spray_laws::same_seqs(nodes, after)
            &&& forall|j: int|
                0 <= j < nodes.len() ==> (#[trigger] after[j]).held == nodes[j].held
            &&& settled_records(after) == settled_records(nodes) + if spray_round::is_first(
                nodes,
                origin_id,
                seq,
            ) {
                1nat
            } else {
                0
            }
            &&& tidy(nodes) && (origin_id < nodes.len() ==> seq
                < nodes[origin_id as int].bundle_seq) ==> tidy(after)
        }),
{
    let after = spray_round::with_outcome(nodes, origin_id, seq, channel);
    if spray_round::is_first(nodes, origin_id, seq) {
        let o = origin_id as int;
        let n = spray_round::noted(nodes[o], seq, channel);
        lemma_settled_update(nodes, o, n);
        assert(nodes[o].settled.is_prefix_of(n.settled));
        if tidy(nodes) && seq < nodes[o].bundle_seq {
            assert(nodes[o].settled.no_duplicates());
            assert forall|i: int| 0 <= i < after.len() implies (
            #[trigger] after[i]).settled.no_duplicates() by {
                if i == o {
                    assert forall|x: int, y: int|
                        0 <= x < n.settled.len() && 0 <= y < n.settled.len() && x
                            != y implies n.settled[x] != n.settled[y] by {
                        if x < nodes[o].settled.len() && y < nodes[o].settled.len() {
                        } else if x < nodes[o].settled.len() {
                            assert(nodes[o].settled.contains(nodes[o].settled[x]));
                        } else {
                            assert(nodes[o].settled.contains(nodes[o].settled[y]));
                        }
                    }
                } else {
                    assert(after[i] == nodes[i]);
                }
            }
            assert forall|i: int, x: int|
                0 <= i < after.len() && 0 <= x < after[i].settled.len() implies (
            #[trigger] after[i].settled[x]) < after[i].bundle_seq by {
                if i == o {
                    if x < nodes[o].settled.len() {
                        assert(nodes[o].settled[x] < nodes[o].bundle_seq);
                    }
                } else {
                    assert(nodes[i].settled[x] < nodes[i].bundle_seq);
                }
            }
            assert forall|i: int, j: int|
                0 <= i < after.len() && 0 <= j < after[i].held.len() implies genuine(
                after,
                #[trigger] after[i].held[j],
            ) by {
                assert(genuine(nodes, nodes[i].held[j]));
            }
        }
    } else {
        assert forall|i: int| 0 <= i < nodes.len() implies nodes[i].settled.is_prefix_of(
            (#[trigger] after[i]).settled,
        ) by {}
    }
}

/// Whether every copy of a list is of a record that was originated.
spec fn all_genuine(nodes: Seq<EpiModel>, list: Seq<Copy_>) -> bool {
    forall|j: int| 0 <= j < list.len() ==> genuine(nodes, #[trigger] list[j])
}

proof fn lemma_genuine_on(a: Seq<EpiModel>, b: Seq<EpiModel>, list: Seq<Copy_>)
    requires
        spray_laws::same_seqs(a, b),
        all_genuine(a, list),
    ensures
        all_genuine(b, list),
{
    assert forall|j: int| 0 <= j < list.len() implies genuine(b, #[trigger] list[j]) by {
        let c = list[j];
        assert(genuine(a, c));
        if c.origin_id < a.len() {
            assert(b[c.origin_id as int].bundle_seq == a[c.origin_id as int].bundle_seq);
        }
    }
}

proof fn lemma_expiry_list(s: SprayState, late: Seq<Copy_>, k: nat)
    requires
        k <= late.len(),
        s.stats.satellite + late.len() <= u64::MAX,
    ensures
        ({
            let b = spray_round::copies_expired(s, late, k);
            &&& settled_stays(s.nodes, b.nodes)
            &&& spray_laws::same_seqs(s.nodes, b.nodes)
            &&& counted(b) - settled_records(b.nodes) == counted(s) - settled_records(s.nodes)
            &&& b.stats.originated == s.stats.originated
            &&& b.stats.delivered == s.stats.delivered
            &&& b.latencies == s.latencies
            &&& b.stats.satellite <= s.stats.satellite + k
            &&& tidy(s.nodes) && all_genuine(s.nodes, late) ==> tidy(b.nodes)
            &&& forall|j: int|
                0 <= j < s.nodes.len() ==> (#[trigger] b.nodes[j]).held == s.nodes[j].held
        }),
    decreases k,
{
    let b = spray_round::copies_expired(s, late, k);
    if k > 0 {
        lemma_expiry_list(s, late, (k - 1) as nat);
        let a = spray_round::copies_expired(s, late, (k - 1) as nat);
        let c = late[k - 1];
        lemma_outcome(
            a.nodes,
            c.origin_id,
            c.seq,
            Channel::Satellite,
        );
        if tidy(s.nodes) && all_genuine(s.nodes, late) {
            lemma_genuine_on(s.nodes, a.nodes, late);
            assert(genuine(a.nodes, c));
        }
        assert forall|i: int| 0 <= i < s.nodes.len() implies s.nodes[i].settled.is_prefix_of(
            (#[trigger] b.nodes[i]).settled,
        ) by {
            assert(s.nodes[i].settled.is_prefix_of(a.nodes[i].settled));
            assert(a.nodes[i].settled.is_prefix_of(b.nodes[i].settled));
        }
        assert forall|j: int| 0 <= j < s.nodes.len() implies (#[trigger] b.nodes[j]).bundle_seq
            == s.nodes[j].bundle_seq by {
            assert(a.nodes[j].bundle_seq == s.nodes[j].bundle_seq);
        }
        assert forall|j: int| 0 <= j < s.nodes.len() implies (#[trigger] b.nodes[j]).held
            == s.nodes[j].held by {
            assert(a.nodes[j].held == s.nodes[j].held);
        }
    }
}

/// Nothing is in one part of a list of copies that is not in the list.
proof fn lemma_parted(held: Seq<Copy_>, k: nat, round: u64, max_age: u64)
    requires
        k <= held.len(),
    ensures
        spray_round::live_copies(held, k, round, max_age).len() <= k,
        spray_round::late_copies(held, k, round, max_age).len() <= k,
        forall|j: int|
            0 <= j < spray_round::live_copies(held, k, round, max_age).len() ==> held.contains(
                #[trigger] spray_round::live_copies(held, k, round, max_age)[j],
            ),
        forall|j: int|
            0 <= j < spray_round::late_copies(held, k, round, max_age).len() ==> held.contains(
                #[trigger] spray_round::late_copies(held, k, round, max_age)[j],
            ),
    decreases k,
{
    if k > 0 {
        lemma_parted(held, (k - 1) as nat, round, max_age);
        assert(held.contains(held[k - 1]));
        let a = spray_round::live_copies(held, (k - 1) as nat, round, max_age);
        let b = spray_round::live_copies(held, k, round, max_age);
        assert forall|j: int| 0 <= j < b.len() implies held.contains(#[trigger] b[j]) by {
            if j < a.len() {
                assert(b[j] == a[j]);
            }
        }
        let c = spray_round::late_copies(held, (k - 1) as nat, round, max_age);
        let d = spray_round::late_copies(held, k, round, max_age);
        assert forall|j: int| 0 <= j < d.len() implies held.contains(#[trigger] d[j]) by {
            if j < c.len() {
                assert(d[j] == c[j]);
            }
        }
    }
}

/// A node that holds only copies it held before leaves everything tidy.
proof fn lemma_fewer_held(nodes: Seq<EpiModel>, i: int, held: Seq<Copy_>)
    requires
        0 <= i < nodes.len(),
        tidy(nodes),
        all_genuine(nodes, held),
    ensures
        tidy(nodes.update(i, EpiModel { held, ..nodes[i] })),
{
    let after = nodes.update(i, EpiModel { held, ..nodes[i] });
    assert forall|x: int, j: int|
        0 <= x < after.len() && 0 <= j < after[x].held.len() implies genuine(
        after,
        #[trigger] after[x].held[j],
    ) by {
        if x == i {
            assert(genuine(nodes, held[j]));
        } else {
            assert(genuine(nodes, nodes[x].held[j]));
        }
    }
    assert forall|x: int, y: int|
        0 <= x < after.len() && 0 <= y < after[x].settled.len() implies (
    #[trigger] after[x].settled[y]) < after[x].bundle_seq by {
        assert(nodes[x].settled[y] < nodes[x].bundle_seq);
    }
    assert forall|x: int| 0 <= x < after.len() implies (
    #[trigger] after[x]).settled.no_duplicates() by {
        assert(nodes[x].settled.no_duplicates());
    }
}

proof fn lemma_genuine_part(nodes: Seq<EpiModel>, i: int, part: Seq<Copy_>)
    requires
        0 <= i < nodes.len(),
        tidy(nodes),
        forall|j: int| 0 <= j < part.len() ==> nodes[i].held.contains(#[trigger] part[j]),
    ensures
        all_genuine(nodes, part),
{
    assert forall|j: int| 0 <= j < part.len() implies genuine(nodes, #[trigger] part[j]) by {
        assert(nodes[i].held.contains(part[j]));
        let x = nodes[i].held.index_of(part[j]);
        assert(genuine(nodes, nodes[i].held[x]));
    }
}

proof fn lemma_swap_held(s: SprayState, i: int, held: Seq<Copy_>)
    requires
        0 <= i < s.nodes.len(),
    ensures
        ({
            let nodes = s.nodes.update(i, EpiModel { held, ..s.nodes[i] });
            &&& settled_stays(s.nodes, nodes)
            &&& spray_laws::same_seqs(s.nodes, nodes)
            &&& settled_records(nodes) == settled_records(s.nodes)
        }),
{
    lemma_settled_update(s.nodes, i, EpiModel { held, ..s.nodes[i] });
}

proof fn lemma_expired(s: SprayState, round: u64, max_age: u64, k: nat)
    requires
        k <= s.nodes.len(),
        s.stats.satellite + spray_round::copies_held(s.nodes, k) <= u64::MAX,
    ensures
        ({
            let b = spray_round::nodes_expired(s, round, max_age, k);
            &&& tallied(s, b)
            &&& b.stats.delivered == s.stats.delivered
            &&& b.stats.satellite <= s.stats.satellite + spray_round::copies_held(s.nodes, k)
            &&& forall|j: int|
                k <= j < s.nodes.len() ==> (#[trigger] b.nodes[j]).held == s.nodes[j].held
            &&& forall|j: int|
                0 <= j < s.nodes.len() ==> (#[trigger] b.nodes[j]).held.len()
                    <= s.nodes[j].held.len()
        }),
    decreases k,
{
    if k > 0 {
        lemma_expired(s, round, max_age, (k - 1) as nat);
        let a = spray_round::nodes_expired(s, round, max_age, (k - 1) as nat);
        let held = a.nodes[k - 1].held;
        assert(held == s.nodes[k - 1].held);
        let live = spray_round::live_copies(held, held.len(), round, max_age);
        let late = spray_round::late_copies(held, held.len(), round, max_age);
        lemma_parted(held, held.len(), round, max_age);
        let c = SprayState {
            nodes: a.nodes.update(k - 1, EpiModel { held: live, ..a.nodes[k - 1] }),
            ..a
        };
        lemma_swap_held(a, k - 1, live);
        lemma_expiry_list(c, late, late.len());
        if tidy(a.nodes) {
            lemma_genuine_part(a.nodes, k - 1, live);
            lemma_genuine_part(a.nodes, k - 1, late);
            lemma_fewer_held(a.nodes, k - 1, live);
            lemma_genuine_on(a.nodes, c.nodes, late);
        }
        let b = spray_round::nodes_expired(s, round, max_age, k);
        lemma_paired_on(a, c, b);
        lemma_paired_on(s, a, b);
        assert forall|j: int| k <= j < s.nodes.len() implies (#[trigger] b.nodes[j]).held
            == s.nodes[j].held by {
            assert(c.nodes[j].held == a.nodes[j].held);
            assert(a.nodes[j].held == s.nodes[j].held);
        }
        assert forall|j: int| 0 <= j < s.nodes.len() implies (#[trigger] b.nodes[j]).held.len()
            <= s.nodes[j].held.len() by {
            assert(b.nodes[j].held == c.nodes[j].held);
            assert(a.nodes[j].held.len() <= s.nodes[j].held.len());
        }
    }
}

proof fn lemma_landed(s: SprayState, i: int, round: u64, k: nat)
    requires
        0 <= i < s.nodes.len(),
        k <= s.nodes[i].held.len(),
        s.stats.delivered + k <= u64::MAX,
    ensures
        ({
            let b = spray_round::copies_landed(s, i, round, k);
            &&& tallied(s, b)
            &&& b.stats.satellite == s.stats.satellite
            &&& b.stats.delivered <= s.stats.delivered + k
            &&& b.nodes[i].held.len() == s.nodes[i].held.len() - k
            &&& forall|j: int|
                0 <= j < s.nodes.len() && j != i ==> (#[trigger] b.nodes[j]).held
                    == s.nodes[j].held
        }),
    decreases k,
{
    if k > 0 {
        lemma_landed(s, i, round, (k - 1) as nat);
        let a = spray_round::copies_landed(s, i, round, (k - 1) as nat);
        let held = a.nodes[i].held;
        let c = held[0];
        let rest = held.subrange(1, held.len() as int);
        let t = SprayState {
            nodes: a.nodes.update(i, EpiModel { held: rest, ..a.nodes[i] }),
            ..a
        };
        lemma_swap_held(a, i, rest);
        lemma_outcome(
            t.nodes,
            c.origin_id,
            c.seq,
            Channel::Radio,
        );
        let b = spray_round::copies_landed(s, i, round, k);
        if tidy(a.nodes) {
            assert(held.contains(c));
            lemma_genuine_part(a.nodes, i, rest);
            lemma_fewer_held(a.nodes, i, rest);
            assert(genuine(a.nodes, a.nodes[i].held[0]));
        }
        lemma_paired_on(a, t, b);
        lemma_paired_on(s, a, b);
        assert forall|j: int| 0 <= j < s.nodes.len() && j != i implies (
        #[trigger] b.nodes[j]).held == s.nodes[j].held by {
            assert(t.nodes[j].held == a.nodes[j].held);
            assert(a.nodes[j].held == s.nodes[j].held);
        }
        assert(b.nodes[i].held == t.nodes[i].held);
    }
}

proof fn lemma_delivered(
    s: SprayState,
    fleet: Seq<Balloon>,
    topo: Topology,
    params: EpidemicParams,
    up: Seq<bool>,
    round: u64,
    k: nat,
)
    requires
        k <= s.nodes.len(),
        s.stats.delivered + spray_round::copies_held(s.nodes, k) <= u64::MAX,
    ensures
        ({
            let b = spray_round::deliveries(s, fleet, topo, params, up, round, k);
            &&& tallied(s, b)
            &&& b.stats.satellite == s.stats.satellite
            &&& b.stats.delivered <= s.stats.delivered + spray_round::copies_held(s.nodes, k)
            &&& forall|j: int|
                k <= j < s.nodes.len() ==> (#[trigger] b.nodes[j]).held == s.nodes[j].held
        }),
    decreases k,
{
    if k > 0 {
        lemma_delivered(s, fleet, topo, params, up, round, (k - 1) as nat);
        let a = spray_round::deliveries(s, fleet, topo, params, up, round, (k - 1) as nat);
        let b = spray_round::deliveries(s, fleet, topo, params, up, round, k);
        assert(a.nodes[k - 1].held == s.nodes[k - 1].held);
        let n = spray_round::contact_size(a.nodes[k - 1], params);
        match topo.tower_of(k - 1) {
            Some(tower_id) => {
                if up[k - 1] {
                    let announced = spray_round::contact_announced(
                        a,
                        fleet,
                        params,
                        tower_id,
                        k - 1,
                    );
                    lemma_landed(announced, k - 1, round, n);
                    lemma_paired_on(s, a, b);
                    assert forall|j: int| k <= j < s.nodes.len() implies (
                    #[trigger] b.nodes[j]).held == s.nodes[j].held by {
                        assert(a.nodes[j].held == s.nodes[j].held);
                    }
                }
            },
            None => {},
        }
    }
}

/// Whether every copy under way is of a record that was originated.
spec fn flying_genuine(nodes: Seq<EpiModel>, sprays: Seq<Spray>) -> bool {
    forall|j: int| 0 <= j < sprays.len() ==> genuine(nodes, (#[trigger] sprays[j]).copy)
}

proof fn lemma_sprayed(g: SprayGather, topo: Topology, up: Seq<bool>, picks: Seq<u64>, k: nat)
    requires
        k <= g.s.nodes.len(),
        g.sprays.len() == 0,
    ensures
        ({
            let b = spray_round::all_sprayed(g, topo, up, picks, k);
            &&& tallied(g.s, b.s)
            &&& tidy(g.s.nodes) ==> flying_genuine(b.s.nodes, b.sprays)
            &&& b.s.stats.delivered == g.s.stats.delivered
            &&& b.s.stats.satellite == g.s.stats.satellite
        }),
    decreases k,
{
    if k > 0 {
        lemma_sprayed(g, topo, up, picks, (k - 1) as nat);
        let a = spray_round::all_sprayed(g, topo, up, picks, (k - 1) as nat);
        let b = spray_round::all_sprayed(g, topo, up, picks, k);
        let held = a.s.nodes[k - 1].held;
        spray_laws::lemma_spray_place(held, 0);
        if b.sprays.len() > a.sprays.len() {
            let p = spray_round::spray_place(held, 0)->Some_0;
            let c = held[p];
            let give = c.copies / 2;
            let left = held.update(p, Copy_ { copies: (c.copies - give) as u32, ..c });
            assert(b.s.nodes == a.s.nodes.update(
                k - 1,
                EpiModel { held: left, ..a.s.nodes[k - 1] },
            ));
            lemma_swap_held(a.s, k - 1, left);
            if tidy(g.s.nodes) {
                assert forall|j: int| 0 <= j < left.len() implies genuine(
                    a.s.nodes,
                    #[trigger] left[j],
                ) by {
                    assert(genuine(a.s.nodes, a.s.nodes[k - 1].held[j]));
                }
                lemma_fewer_held(a.s.nodes, k - 1, left);
                assert(genuine(a.s.nodes, a.s.nodes[k - 1].held[p]));
                assert forall|j: int| 0 <= j < b.sprays.len() implies genuine(
                    b.s.nodes,
                    (#[trigger] b.sprays[j]).copy,
                ) by {
                    if j < a.sprays.len() {
                        assert(b.sprays[j] == a.sprays[j]);
                        assert(genuine(a.s.nodes, a.sprays[j].copy));
                    }
                }
            }
            lemma_paired_on(g.s, a.s, b.s);
        } else {
            assert(b.s.nodes == a.s.nodes && b.sprays == a.sprays);
        }
    }
}

proof fn lemma_handed(
    s: SprayState,
    fleet: Seq<Balloon>,
    params: EpidemicParams,
    sprays: Seq<Spray>,
    k: nat,
)
    requires
        k <= sprays.len(),
        spray_laws::sent_by(sprays, s.nodes.len() as int),
    ensures
        ({
            let b = spray_round::all_handed(s, fleet, params, sprays, k);
            &&& paired(s, b)
            &&& tidy(s.nodes) && flying_genuine(s.nodes, sprays) ==> tidy(b.nodes)
            &&& b.stats.delivered == s.stats.delivered
            &&& b.stats.satellite == s.stats.satellite
        }),
    decreases k,
{
    if k > 0 {
        lemma_handed(s, fleet, params, sprays, (k - 1) as nat);
        let a = spray_round::all_handed(s, fleet, params, sprays, (k - 1) as nat);
        let b = spray_round::all_handed(s, fleet, params, sprays, k);
        let h = sprays[k - 1];
        assert(0 <= h.from < s.nodes.len());
        let ok = tidy(s.nodes) && flying_genuine(s.nodes, sprays);
        if ok {
            assert(genuine(s.nodes, h.copy));
            if h.copy.origin_id < s.nodes.len() {
                assert(a.nodes[h.copy.origin_id as int].bundle_seq
                    == s.nodes[h.copy.origin_id as int].bundle_seq);
            }
        }
        if h.to < a.nodes.len() && a.nodes[h.to as int].held.len() < params.relay_queue_capacity {
            let held = a.nodes[h.to as int].held.push(h.copy);
            lemma_swap_held(a, h.to as int, held);
            if ok {
                assert forall|j: int| 0 <= j < held.len() implies genuine(
                    a.nodes,
                    #[trigger] held[j],
                ) by {
                    if j < held.len() - 1 {
                        assert(genuine(a.nodes, a.nodes[h.to as int].held[j]));
                    }
                }
                lemma_fewer_held(a.nodes, h.to as int, held);
            }
        } else {
            let old_held = a.nodes[h.from].held;
            spray_laws::lemma_copy_place(old_held, 0, h.copy.origin_id, h.copy.seq);
            match spray_round::copy_place(old_held, 0, h.copy.origin_id, h.copy.seq) {
                Some(p) => {
                    let held = old_held.update(
                        p,
                        Copy_ {
                            copies: spray_round::capped(old_held[p].copies, h.copy.copies),
                            ..old_held[p]
                        },
                    );
                    lemma_swap_held(a, h.from, held);
                    if ok {
                        assert forall|j: int| 0 <= j < held.len() implies genuine(
                            a.nodes,
                            #[trigger] held[j],
                        ) by {
                            assert(genuine(a.nodes, a.nodes[h.from].held[j]));
                        }
                        lemma_fewer_held(a.nodes, h.from, held);
                    }
                },
                None => {},
            }
        }
        lemma_paired_on(s, a, b);
    }
}

/// Whether each balloon is known by its place.
pub open spec fn by_place(fleet: Seq<Balloon>) -> bool {
    forall|i: int| 0 <= i < fleet.len() ==> (#[trigger] fleet[i]).id == i
}

proof fn lemma_originated(
    s: SprayState,
    fleet: Seq<Balloon>,
    params: EpidemicParams,
    up: Seq<bool>,
    round: u64,
    k: nat,
)
    requires
        k <= s.nodes.len(),
        k <= fleet.len(),
        s.stats.originated + k <= u64::MAX,
        forall|j: int| 0 <= j < s.nodes.len() ==> (#[trigger] s.nodes[j]).bundle_seq < u64::MAX,
    ensures
        ({
            let b = spray_round::originations(s, fleet, params, up, round, k);
            &&& settled_stays(s.nodes, b.nodes)
            &&& settled_records(b.nodes) == settled_records(s.nodes)
            &&& b.stats.originated - made_records(b.nodes) == s.stats.originated - made_records(
                s.nodes,
            )
            &&& s.stats.originated <= b.stats.originated <= s.stats.originated + k
            &&& counted(b) == counted(s)
            &&& b.stats.delivered == s.stats.delivered
            &&& b.latencies == s.latencies
            &&& tidy(s.nodes) && by_place(fleet) ==> tidy(b.nodes)
            &&& forall|j: int| k <= j < s.nodes.len() ==> #[trigger] b.nodes[j] == s.nodes[j]
        }),
    decreases k,
{
    if k > 0 {
        lemma_originated(s, fleet, params, up, round, (k - 1) as nat);
        let a = spray_round::originations(s, fleet, params, up, round, (k - 1) as nat);
        let b = spray_round::originations(s, fleet, params, up, round, k);
        let i = k - 1;
        assert(a.nodes[i] == s.nodes[i]);
        if up[i] && spray_round::may_originate(a.nodes[i], fleet[i].id, params, round) {
            let n = spray_round::originating(a.nodes[i], fleet[i], params, round);
            lemma_settled_update(a.nodes, i, n);
            lemma_made_update(a.nodes, i, n);
            assert(b.nodes == a.nodes.update(i, n));
            if tidy(a.nodes) && by_place(fleet) {
                assert(fleet[i].id == i);
                assert forall|x: int, j: int|
                    0 <= x < b.nodes.len() && 0 <= j < b.nodes[x].held.len() implies genuine(
                    b.nodes,
                    #[trigger] b.nodes[x].held[j],
                ) by {
                    if x != i || j < a.nodes[i].held.len() {
                        assert(b.nodes[x].held[j] == a.nodes[x].held[j]);
                        assert(genuine(a.nodes, a.nodes[x].held[j]));
                    }
                }
                assert forall|x: int, y: int|
                    0 <= x < b.nodes.len() && 0 <= y < b.nodes[x].settled.len() implies (
                #[trigger] b.nodes[x].settled[y]) < b.nodes[x].bundle_seq by {
                    assert(a.nodes[x].settled[y] < a.nodes[x].bundle_seq);
                }
                assert forall|x: int| 0 <= x < b.nodes.len() implies (
                #[trigger] b.nodes[x]).settled.no_duplicates() by {
                    assert(a.nodes[x].settled.no_duplicates());
                }
            }
            assert forall|x: int| 0 <= x < s.nodes.len() implies s.nodes[x].settled.is_prefix_of(
                (#[trigger] b.nodes[x]).settled,
            ) by {
                assert(s.nodes[x].settled.is_prefix_of(a.nodes[x].settled));
            }
        }
    }
}

/// No more fits below a number than there are numbers below it.
proof fn lemma_pigeons(list: Seq<u64>, top: u64)
    requires
        list.no_duplicates(),
        forall|x: int| 0 <= x < list.len() ==> (#[trigger] list[x]) < top,
    ensures
        list.len() <= top,
{
    let all = list.map_values(|v: u64| v as int);
    assert(all.no_duplicates()) by {
        assert forall|x: int, y: int|
            0 <= x < all.len() && 0 <= y < all.len() && x != y implies all[x] != all[y] by {
            assert(list[x] != list[y]);
        }
    }
    all.unique_seq_to_set();
    let below = vstd::set_lib::set_int_range(0, top as int);
    vstd::set_lib::lemma_int_range(0, top as int);
    assert(all.to_set().subset_of(below)) by {
        assert forall|v: int| all.to_set().contains(v) implies below.contains(v) by {
            let x = all.index_of(v);
            assert(list[x] < top);
        }
    }
    vstd::set_lib::lemma_len_subset(all.to_set(), below);
}

proof fn lemma_no_more_settled(nodes: Seq<EpiModel>, k: nat)
    requires
        k <= nodes.len(),
        tidy(nodes),
    ensures
        settled_records(nodes.take(k as int)) <= made_records(nodes.take(k as int)),
    decreases k,
{
    if k > 0 {
        lemma_no_more_settled(nodes, (k - 1) as nat);
        assert(nodes.take(k as int).drop_last() =~= nodes.take(k - 1));
        assert(nodes[k - 1].settled.no_duplicates());
        assert forall|x: int| 0 <= x < nodes[k - 1].settled.len() implies (
        #[trigger] nodes[k - 1].settled[x]) < nodes[k - 1].bundle_seq by {}
        lemma_pigeons(nodes[k - 1].settled, nodes[k - 1].bundle_seq);
    }
}

proof fn lemma_held_shrinks(a: Seq<EpiModel>, b: Seq<EpiModel>, k: nat)
    requires
        k <= a.len() == b.len(),
        forall|j: int| 0 <= j < a.len() ==> (#[trigger] b[j]).held.len() <= a[j].held.len(),
    ensures
        spray_round::copies_held(b, k) <= spray_round::copies_held(a, k),
    decreases k,
{
    if k > 0 {
        lemma_held_shrinks(a, b, (k - 1) as nat);
        assert(b[k - 1].held.len() <= a[k - 1].held.len());
    }
}

proof fn lemma_held_prefix(nodes: Seq<EpiModel>, k: nat, n: nat)
    requires
        k <= n,
    ensures
        spray_round::copies_held(nodes, k) <= spray_round::copies_held(nodes, n),
    decreases n - k,
{
    if k < n {
        lemma_held_prefix(nodes, k, (n - 1) as nat);
    }
}

/// Each record counts once: over a round the counters of records delivered and
/// of records given up to satellite grow together by as many records as come
/// by their first outcome. What is settled stays settled, so a record that
/// counted before does not count again, however many of its copies arrive or
/// age out; and what is settled was originated, and is settled once. Every
/// delivery that counts leaves its latency.
pub proof fn each_record_counts_once(
    s: SprayState,
    fleet: Seq<Balloon>,
    topo: Topology,
    params: EpidemicParams,
    round: u64,
    draws: Seq<u64>,
    picks: Seq<u64>,
)
    requires
        spray_round::round_fits(s, params, round),
    ensures
        ({
            let after = spray_round::spray_round(s, fleet, topo, params, round, draws, picks);
            &&& counted(after) - counted(s) == settled_records(after.nodes) - settled_records(
                s.nodes,
            )
            &&& settled_stays(s.nodes, after.nodes)
            &&& after.stats.originated - s.stats.originated == made_records(after.nodes)
                - made_records(s.nodes)
            &&& after.latencies.len() - s.latencies.len() == after.stats.delivered
                - s.stats.delivered
            &&& tidy(s.nodes) && by_place(fleet) ==> tidy(after.nodes)
        }),
{
    let m = spray_round::taking_part(s.nodes, fleet);
    let n = s.nodes.len();
    let max_age = params.bundle_max_age_rounds;
    let up = spray_round::spray_awake(s, fleet, params, round);
    lemma_held_prefix(s.nodes, m, n);
    lemma_expired(s, round, max_age, m);
    let opened = spray_round::nodes_expired(s, round, max_age, m);
    let woken = spray_round::woken(opened, params, round, draws, m);
    assert(paired(opened, woken) && (tidy(opened.nodes) ==> tidy(woken.nodes))) by {
        lemma_settled_same(opened.nodes, woken.nodes);
        assert(spray_laws::same_seqs(opened.nodes, woken.nodes));
        if tidy(opened.nodes) {
            assert forall|x: int, j: int|
                0 <= x < woken.nodes.len() && 0 <= j < woken.nodes[x].held.len() implies genuine(
                woken.nodes,
                #[trigger] woken.nodes[x].held[j],
            ) by {
                assert(genuine(opened.nodes, opened.nodes[x].held[j]));
            }
            assert forall|x: int, y: int|
                0 <= x < woken.nodes.len() && 0 <= y < woken.nodes[x].settled.len() implies (
            #[trigger] woken.nodes[x].settled[y]) < woken.nodes[x].bundle_seq by {
                assert(opened.nodes[x].settled[y] < opened.nodes[x].bundle_seq);
            }
            assert forall|x: int| 0 <= x < woken.nodes.len() implies (
            #[trigger] woken.nodes[x]).settled.no_duplicates() by {
                assert(opened.nodes[x].settled.no_duplicates());
            }
        }
    }
    lemma_held_shrinks(s.nodes, opened.nodes, m);
    lemma_held_shrinks(opened.nodes, woken.nodes, m);
    lemma_delivered(woken, fleet, topo, params, up, round, m);
    let delivered = spray_round::spray_delivered(s, fleet, topo, params, round, draws);
    let g0 = SprayGather { s: delivered, sprays: Seq::empty() };
    let g = spray_round::all_sprayed(g0, topo, up, picks, m);
    lemma_sprayed(g0, topo, up, picks, m);
    spray_laws::lemma_sprays_keep_seqs(g0, topo, up, picks, m, m as int);
    let handed = spray_round::all_handed(g.s, fleet, params, g.sprays, g.sprays.len());
    lemma_handed(g.s, fleet, params, g.sprays, g.sprays.len());
    lemma_paired_on(s, opened, woken);
    lemma_paired_on(s, woken, delivered);
    lemma_paired_on(s, delivered, g.s);
    lemma_paired_on(s, g.s, handed);
    assert forall|j: int| 0 <= j < handed.nodes.len() implies (
    #[trigger] handed.nodes[j]).bundle_seq < u64::MAX by {
        assert(handed.nodes[j].bundle_seq == s.nodes[j].bundle_seq);
    }
    lemma_originated(handed, fleet, params, up, round, m);
    lemma_made_same(s.nodes, handed.nodes);
    let after = spray_round::spray_round(s, fleet, topo, params, round, draws, picks);
    assert forall|i: int| 0 <= i < s.nodes.len() implies s.nodes[i].settled.is_prefix_of(
        (#[trigger] after.nodes[i]).settled,
    ) by {
        assert(s.nodes[i].settled.is_prefix_of(handed.nodes[i].settled));
        assert(handed.nodes[i].settled.is_prefix_of(after.nodes[i].settled));
    }
}

/// Whether the books of a fleet are in order: its nodes are tidy, and what the
/// counters have beyond these nodes' records (from a fleet before this one) is
/// no more settled than originated.
pub open spec fn books_in_order(s: SprayState) -> bool {
    &&& tidy(s.nodes)
    &&& counted(s) - settled_records(s.nodes) <= s.stats.originated - made_records(s.nodes)
}

/// No more records leave circulation than were originated, from round to
/// round.
pub proof fn no_more_leaves_than_was_made(
    s: SprayState,
    fleet: Seq<Balloon>,
    topo: Topology,
    params: EpidemicParams,
    round: u64,
    draws: Seq<u64>,
    picks: Seq<u64>,
)
    requires
        spray_round::round_fits(s, params, round),
        by_place(fleet),
        books_in_order(s),
    ensures
        ({
            let after = spray_round::spray_round(s, fleet, topo, params, round, draws, picks);
            &&& books_in_order(after)
            &&& after.stats.delivered + after.stats.satellite <= after.stats.originated
        }),
{
    each_record_counts_once(s, fleet, topo, params, round, draws, picks);
    books_bound_the_counters(
        spray_round::spray_round(s, fleet, topo, params, round, draws, picks),
    );
}

/// Where the books are in order, no more records have left circulation than
/// were originated.
pub proof fn books_bound_the_counters(s: SprayState)
    requires
        books_in_order(s),
    ensures
        s.stats.delivered + s.stats.satellite <= s.stats.originated,
{
    lemma_no_more_settled(s.nodes, s.nodes.len());
    assert(s.nodes.take(s.nodes.len() as int) =~= s.nodes);
}

/// Nodes that have done nothing have settled and originated nothing.
pub(crate) proof fn lemma_nothing_yet(nodes: Seq<EpiModel>)
    requires
        forall|i: int|
            0 <= i < nodes.len() ==> (#[trigger] nodes[i]).settled.len() == 0
                && nodes[i].bundle_seq == 0,
    ensures
        settled_records(nodes) == 0,
        made_records(nodes) == 0,
    decreases nodes.len(),
{
    if nodes.len() > 0 {
        assert(nodes[nodes.len() - 1].bundle_seq == 0);
        lemma_nothing_yet(nodes.drop_last());
    }
}

} // verus!
