//! What a round of spray-and-wait gets done: what lands, what is shared and how,
//! and what stays where it is.
use vstd::prelude::*;

use crate::balloon::Balloon;
use crate::mesh_adjacency::Topology;
use crate::telemetry;

use super::params::EpidemicParams;
use super::spray_round;
use super::spray_round::{EpiModel, Spray, SprayGather, SprayState};
use super::Copy_;

verus! {

/// The copies among these that still have time left.
pub open spec fn alive(held: Seq<Copy_>, round: u64, max_age: u64) -> Seq<Copy_> {
    held.filter(|c: Copy_| round <= c.created_at_round + max_age)
}

/// Whether two copies are of the same record.
pub open spec fn same_record(a: Copy_, b: Copy_) -> bool {
    &&& a.origin_id == b.origin_id
    &&& a.seq == b.seq
    &&& a.created_at_round == b.created_at_round
    &&& a.record == b.record
}

/// Whether a balloon has a copy of a record.
pub open spec fn has_record(held: Seq<Copy_>, origin_id: u32, seq: u64) -> bool {
    exists|x: int|
        0 <= x < held.len() && (#[trigger] held[x]).origin_id == origin_id && held[x].seq == seq
}

/// How many copies one tower contact takes.
pub open spec fn taken_at_tower(live: nat, params: EpidemicParams) -> nat {
    if live < params.tower_contact {
        live
    } else {
        params.tower_contact as nat
    }
}

/// Whether a balloon has a tower contact this round.
pub open spec fn contacts(n: EpiModel, topo: Topology, round: u64, i: int) -> bool {
    round >= n.next_wake_round && topo.tower_of(i) is Some
}

/// How many of its copies a balloon leaves at a tower this round.
pub open spec fn left_at_tower(
    n: EpiModel,
    topo: Topology,
    params: EpidemicParams,
    round: u64,
    i: int,
) -> nat {
    if contacts(n, topo, round, i) {
        taken_at_tower(alive(n.held, round, params.bundle_max_age_rounds).len(), params)
    } else {
        0
    }
}

/// What a balloon still holds once what is too old and what a tower has taken are
/// gone.
pub open spec fn kept(
    n: EpiModel,
    topo: Topology,
    params: EpidemicParams,
    round: u64,
    i: int,
) -> Seq<Copy_> {
    alive(n.held, round, params.bundle_max_age_rounds).skip(
        left_at_tower(n, topo, params, round, i) as int,
    )
}

/// How many copies the first `k` balloons leave at towers this round.
pub open spec fn all_left_at_towers(
    nodes: Seq<EpiModel>,
    topo: Topology,
    params: EpidemicParams,
    round: u64,
    k: nat,
) -> nat
    decreases k,
{
    if k == 0 {
        0
    } else {
        all_left_at_towers(nodes, topo, params, round, (k - 1) as nat) + left_at_tower(
            nodes[k - 1],
            topo,
            params,
            round,
            k - 1,
        )
    }
}

/// How many nodes take part.
pub open spec fn party(nodes: Seq<EpiModel>, fleet: Seq<Balloon>) -> nat {
    if nodes.len() < fleet.len() {
        nodes.len()
    } else {
        fleet.len()
    }
}

proof fn lemma_alive(held: Seq<Copy_>, k: nat, round: u64, max_age: u64)
    requires
        k <= held.len(),
    ensures
        spray_round::live_copies(held, k, round, max_age) == alive(
            held.take(k as int),
            round,
            max_age,
        ),
    decreases k,
{
    reveal(Seq::filter);
    if k > 0 {
        lemma_alive(held, (k - 1) as nat, round, max_age);
        assert(held.take(k as int).drop_last() =~= held.take(k - 1));
    } else {
        assert(held.take(0).len() == 0);
    }
}

proof fn lemma_alive_among(held: Seq<Copy_>, round: u64, max_age: u64)
    ensures
        alive(held, round, max_age).len() <= held.len(),
        forall|x: int|
            0 <= x < alive(held, round, max_age).len() ==> held.contains(
                #[trigger] alive(held, round, max_age)[x],
            ),
    decreases held.len(),
{
    reveal(Seq::filter);
    if held.len() > 0 {
        lemma_alive_among(held.drop_last(), round, max_age);
        let rest = alive(held.drop_last(), round, max_age);
        let all = alive(held, round, max_age);
        assert forall|x: int| 0 <= x < all.len() implies held.contains(#[trigger] all[x]) by {
            if x < rest.len() {
                assert(all[x] == rest[x]);
                let y = held.drop_last().index_of(rest[x]);
                assert(held[y] == rest[x]);
            } else {
                assert(held[held.len() - 1] == all[x]);
            }
        }
    }
}

/// Whether nothing but what is known of outcomes has changed from one list of
/// nodes to the next, and no outcome has been taken back.
pub(crate) open spec fn same_hands(a: Seq<EpiModel>, b: Seq<EpiModel>) -> bool {
    &&& a.len() == b.len()
    &&& forall|j: int|
        0 <= j < a.len() ==> {
            &&& (#[trigger] b[j]).held == a[j].held
            &&& b[j].next_wake_round == a[j].next_wake_round
        }
    &&& outcomes_stay(a, b)
}

pub(crate) open spec fn outcomes_stay(a: Seq<EpiModel>, b: Seq<EpiModel>) -> bool {
    &&& a.len() == b.len()
    &&& forall|j: int, q: u64|
        0 <= j < a.len() && a[j].settled.contains(q) ==> #[trigger] b[j].settled.contains(q)
}

pub(crate) proof fn lemma_outcomes_on(a: Seq<EpiModel>, b: Seq<EpiModel>, c: Seq<EpiModel>)
    requires
        outcomes_stay(a, b),
        outcomes_stay(b, c),
    ensures
        outcomes_stay(a, c),
{
    assert forall|j: int, q: u64| 0 <= j < a.len() && a[j].settled.contains(q) implies #[trigger] c[j].settled.contains(
    q) by {
        assert(b[j].settled.contains(q));
    }
}

pub(crate) proof fn lemma_with_outcome(
    nodes: Seq<EpiModel>,
    o: u32,
    q: u64,
    channel: crate::protocol::dv_dtn::bundle::Channel,
)
    ensures
        same_hands(nodes, spray_round::with_outcome(nodes, o, q, channel)),
        o < nodes.len() ==> spray_round::with_outcome(
            nodes,
            o,
            q,
            channel,
        )[o as int].settled.contains(q),
{
    let b = spray_round::with_outcome(nodes, o, q, channel);
    if spray_round::is_first(nodes, o, q) {
        let was = nodes[o as int].settled;
        assert(b[o as int].settled == was.push(q));
        assert(was.push(q)[was.len() as int] == q);
        assert forall|x: u64| was.contains(x) implies was.push(q).contains(x) by {
            let y = was.index_of(x);
            assert(was.push(q)[y] == x);
        }
    }
}

proof fn lemma_copies_expired(s: SprayState, late: Seq<Copy_>, k: nat)
    ensures
        same_hands(s.nodes, spray_round::copies_expired(s, late, k).nodes),
        spray_round::copies_expired(s, late, k).stats.delivered == s.stats.delivered,
        spray_round::copies_expired(s, late, k).stats.duplicate_arrivals
            == s.stats.duplicate_arrivals,
    decreases k,
{
    if k > 0 {
        lemma_copies_expired(s, late, (k - 1) as nat);
        let m = spray_round::copies_expired(s, late, (k - 1) as nat);
        let b = spray_round::copies_expired(s, late, k);
        let c = late[k - 1];
        lemma_with_outcome(
            m.nodes,
            c.origin_id,
            c.seq,
            crate::protocol::dv_dtn::bundle::Channel::Satellite,
        );
        lemma_outcomes_on(s.nodes, m.nodes, b.nodes);
        assert forall|j: int| 0 <= j < s.nodes.len() implies {
            &&& (#[trigger] b.nodes[j]).held == s.nodes[j].held
            &&& b.nodes[j].next_wake_round == s.nodes[j].next_wake_round
        } by {
            assert(m.nodes[j].held == s.nodes[j].held);
        }
    }
}

pub(crate) proof fn lemma_nodes_expired(s: SprayState, round: u64, max_age: u64, k: nat)
    requires
        k <= s.nodes.len(),
    ensures
        ({
            let b = spray_round::nodes_expired(s, round, max_age, k);
            &&& b.nodes.len() == s.nodes.len()
            &&& b.stats.delivered == s.stats.delivered
            &&& b.stats.duplicate_arrivals == s.stats.duplicate_arrivals
            &&& outcomes_stay(s.nodes, b.nodes)
            &&& forall|j: int|
                0 <= j < s.nodes.len() ==> (#[trigger] b.nodes[j]).next_wake_round
                    == s.nodes[j].next_wake_round && b.nodes[j].held == (if j < k {
                    alive(s.nodes[j].held, round, max_age)
                } else {
                    s.nodes[j].held
                })
        }),
    decreases k,
{
    if k > 0 {
        lemma_nodes_expired(s, round, max_age, (k - 1) as nat);
        let a = spray_round::nodes_expired(s, round, max_age, (k - 1) as nat);
        let b = spray_round::nodes_expired(s, round, max_age, k);
        let held = a.nodes[k - 1].held;
        let late = spray_round::late_copies(held, held.len(), round, max_age);
        let live = spray_round::live_copies(held, held.len(), round, max_age);
        let start = SprayState {
            nodes: a.nodes.update(k - 1, EpiModel { held: live, ..a.nodes[k - 1] }),
            ..a
        };
        lemma_alive(held, held.len(), round, max_age);
        assert(held.take(held.len() as int) =~= held);
        lemma_copies_expired(start, late, late.len());
        assert(outcomes_stay(a.nodes, start.nodes));
        lemma_outcomes_on(a.nodes, start.nodes, b.nodes);
        lemma_outcomes_on(s.nodes, a.nodes, b.nodes);
        assert forall|j: int| 0 <= j < s.nodes.len() implies (#[trigger] b.nodes[j]).next_wake_round
            == s.nodes[j].next_wake_round && b.nodes[j].held == (if j < k {
            alive(s.nodes[j].held, round, max_age)
        } else {
            s.nodes[j].held
        }) by {
            assert(b.nodes[j].held == start.nodes[j].held);
            assert(a.nodes[j].next_wake_round == s.nodes[j].next_wake_round);
        }
    }
}

/// The first `k` copies of a node land: they are gone from its hands, their
/// records have an outcome, and each counts as an arrival.
proof fn lemma_copies_landed(s: SprayState, i: int, round: u64, k: nat)
    requires
        0 <= i < s.nodes.len(),
        k <= s.nodes[i].held.len(),
        s.stats.delivered + k <= u64::MAX,
        s.stats.duplicate_arrivals + k <= u64::MAX,
    ensures
        ({
            let b = spray_round::copies_landed(s, i, round, k);
            &&& b.nodes.len() == s.nodes.len()
            &&& b.nodes[i].held == s.nodes[i].held.skip(k as int)
            &&& forall|j: int|
                0 <= j < s.nodes.len() && j != i ==> (#[trigger] b.nodes[j]).held
                    == s.nodes[j].held
            &&& outcomes_stay(s.nodes, b.nodes)
            &&& forall|x: int|
                0 <= x < k && (#[trigger] s.nodes[i].held[x]).origin_id < s.nodes.len()
                    ==> b.nodes[s.nodes[i].held[x].origin_id as int].settled.contains(
                    s.nodes[i].held[x].seq,
                )
            &&& b.stats.delivered + b.stats.duplicate_arrivals == s.stats.delivered
                + s.stats.duplicate_arrivals + k
            &&& s.stats.delivered <= b.stats.delivered <= s.stats.delivered + k
            &&& s.stats.duplicate_arrivals <= b.stats.duplicate_arrivals
                <= s.stats.duplicate_arrivals + k
        }),
    decreases k,
{
    let b = spray_round::copies_landed(s, i, round, k);
    if k > 0 {
        lemma_copies_landed(s, i, round, (k - 1) as nat);
        let a = spray_round::copies_landed(s, i, round, (k - 1) as nat);
        let held = a.nodes[i].held;
        let c = held[0];
        assert(c == s.nodes[i].held[k - 1]);
        let taken = a.nodes.update(
            i,
            EpiModel { held: held.subrange(1, held.len() as int), ..a.nodes[i] },
        );
        lemma_with_outcome(
            taken,
            c.origin_id,
            c.seq,
            crate::protocol::dv_dtn::bundle::Channel::Radio,
        );
        assert(outcomes_stay(a.nodes, taken));
        lemma_outcomes_on(a.nodes, taken, b.nodes);
        lemma_outcomes_on(s.nodes, a.nodes, b.nodes);
        assert(b.nodes[i].held == taken[i].held);
        assert(held.subrange(1, held.len() as int) =~= s.nodes[i].held.skip(k as int));
        assert forall|j: int| 0 <= j < s.nodes.len() && j != i implies (
        #[trigger] b.nodes[j]).held == s.nodes[j].held by {
            assert(b.nodes[j].held == taken[j].held);
            assert(a.nodes[j].held == s.nodes[j].held);
        }
        assert forall|x: int|
            0 <= x < k && (#[trigger] s.nodes[i].held[x]).origin_id
                < s.nodes.len() implies b.nodes[s.nodes[i].held[x].origin_id as int].settled.contains(
        s.nodes[i].held[x].seq) by {
            if x < k - 1 {
                assert(a.nodes[s.nodes[i].held[x].origin_id as int].settled.contains(
                    s.nodes[i].held[x].seq,
                ));
            }
        }
    } else {
        assert(s.nodes[i].held.skip(0) =~= s.nodes[i].held);
    }
}

proof fn lemma_deliveries(
    s: SprayState,
    w: SprayState,
    fleet: Seq<Balloon>,
    topo: Topology,
    params: EpidemicParams,
    up: Seq<bool>,
    round: u64,
    k: nat,
    m: nat,
)
    requires
        k <= m <= s.nodes.len(),
        w.nodes.len() == s.nodes.len(),
        forall|j: int|
            0 <= j < m ==> (#[trigger] w.nodes[j]).held == alive(
                s.nodes[j].held,
                round,
                params.bundle_max_age_rounds,
            ),
        up.len() == m,
        forall|j: int| 0 <= j < m ==> #[trigger] up[j] == (round >= s.nodes[j].next_wake_round),
        w.stats.delivered + all_left_at_towers(s.nodes, topo, params, round, m) <= u64::MAX,
        w.stats.duplicate_arrivals + all_left_at_towers(s.nodes, topo, params, round, m)
            <= u64::MAX,
    ensures
        ({
            let b = spray_round::deliveries(w, fleet, topo, params, up, round, k);
            &&& b.nodes.len() == s.nodes.len()
            &&& outcomes_stay(w.nodes, b.nodes)
            &&& b.stats.delivered + b.stats.duplicate_arrivals == w.stats.delivered
                + w.stats.duplicate_arrivals + all_left_at_towers(s.nodes, topo, params, round, k)
            &&& b.stats.delivered <= w.stats.delivered + all_left_at_towers(
                s.nodes,
                topo,
                params,
                round,
                k,
            )
            &&& b.stats.duplicate_arrivals <= w.stats.duplicate_arrivals + all_left_at_towers(
                s.nodes,
                topo,
                params,
                round,
                k,
            )
            &&& forall|j: int|
                0 <= j < k ==> (#[trigger] b.nodes[j]).held == kept(
                    s.nodes[j],
                    topo,
                    params,
                    round,
                    j,
                )
            &&& forall|j: int|
                k <= j < s.nodes.len() ==> (#[trigger] b.nodes[j]).held == w.nodes[j].held
            &&& forall|j: int, x: int|
                0 <= j < k && 0 <= x < left_at_tower(s.nodes[j], topo, params, round, j)
                    && w.nodes[j].held[x].origin_id < s.nodes.len() ==> b.nodes[(
                #[trigger] w.nodes[j].held[x]).origin_id as int].settled.contains(
                    w.nodes[j].held[x].seq,
                )
        }),
    decreases k,
{
    let b = spray_round::deliveries(w, fleet, topo, params, up, round, k);
    if k > 0 {
        lemma_deliveries(s, w, fleet, topo, params, up, round, (k - 1) as nat, m);
        lemma_left_grows(s.nodes, topo, params, round, k, m);
        let a = spray_round::deliveries(w, fleet, topo, params, up, round, (k - 1) as nat);
        let i = k - 1;
        assert(a.nodes[i].held == w.nodes[i].held);
        assert(up[i] == (round >= s.nodes[i].next_wake_round));
        let live = w.nodes[i].held;
        let c = left_at_tower(s.nodes[i], topo, params, round, i);
        assert(w.nodes[i].held == alive(s.nodes[i].held, round, params.bundle_max_age_rounds));
        if contacts(s.nodes[i], topo, round, i) {
            let n = spray_round::contact_size(a.nodes[i], params);
            assert(n == c);
            let announced = spray_round::contact_announced(
                a,
                fleet,
                params,
                topo.tower_of(i)->Some_0,
                i,
            );
            lemma_copies_landed(announced, i, round, n);
        } else {
            assert(b == a);
            assert(live.skip(0) =~= live);
        }
        lemma_outcomes_on(w.nodes, a.nodes, b.nodes);
        assert forall|j: int| 0 <= j < k implies (#[trigger] b.nodes[j]).held == kept(
            s.nodes[j],
            topo,
            params,
            round,
            j,
        ) by {
            if j < k - 1 {
                assert(a.nodes[j].held == kept(s.nodes[j], topo, params, round, j));
            }
        }
        assert forall|j: int, x: int|
            0 <= j < k && 0 <= x < left_at_tower(s.nodes[j], topo, params, round, j)
                && w.nodes[j].held[x].origin_id < s.nodes.len() implies b.nodes[(
        #[trigger] w.nodes[j].held[x]).origin_id as int].settled.contains(
            w.nodes[j].held[x].seq,
        ) by {
            if j < k - 1 {
                assert(a.nodes[w.nodes[j].held[x].origin_id as int].settled.contains(
                    w.nodes[j].held[x].seq,
                ));
            } else {
                assert(a.nodes[i].held[x] == w.nodes[i].held[x]);
            }
        }
    }
}

proof fn lemma_left_grows(
    nodes: Seq<EpiModel>,
    topo: Topology,
    params: EpidemicParams,
    round: u64,
    k: nat,
    m: nat,
)
    requires
        k <= m,
    ensures
        all_left_at_towers(nodes, topo, params, round, k) <= all_left_at_towers(
            nodes,
            topo,
            params,
            round,
            m,
        ),
    decreases m - k,
{
    if k < m {
        lemma_left_grows(nodes, topo, params, round, k, (m - 1) as nat);
    }
}

proof fn lemma_left_held(
    nodes: Seq<EpiModel>,
    topo: Topology,
    params: EpidemicParams,
    round: u64,
    k: nat,
)
    requires
        k <= nodes.len(),
    ensures
        all_left_at_towers(nodes, topo, params, round, k) <= spray_round::copies_held(nodes, k),
    decreases k,
{
    if k > 0 {
        lemma_left_held(nodes, topo, params, round, (k - 1) as nat);
        lemma_alive_among(nodes[k - 1].held, round, params.bundle_max_age_rounds);
    }
}

proof fn lemma_held_grows(nodes: Seq<EpiModel>, k: nat, m: nat)
    requires
        k <= m,
    ensures
        spray_round::copies_held(nodes, k) <= spray_round::copies_held(nodes, m),
    decreases m - k,
{
    if k < m {
        lemma_held_grows(nodes, k, (m - 1) as nat);
    }
}

/// What everyone holds once the tower contacts are over.
proof fn lemma_delivered(
    s: SprayState,
    fleet: Seq<Balloon>,
    topo: Topology,
    params: EpidemicParams,
    round: u64,
    draws: Seq<u64>,
)
    requires
        spray_round::round_fits(s, params, round),
    ensures
        ({
            let b = spray_round::spray_delivered(s, fleet, topo, params, round, draws);
            let up = spray_round::spray_awake(s, fleet, params, round);
            let m = party(s.nodes, fleet);
            &&& b.nodes.len() == s.nodes.len()
            &&& up.len() == m
            &&& forall|j: int|
                0 <= j < m ==> #[trigger] up[j] == (round >= s.nodes[j].next_wake_round)
            &&& outcomes_stay(s.nodes, b.nodes)
            &&& b.stats.delivered + b.stats.duplicate_arrivals == s.stats.delivered
                + s.stats.duplicate_arrivals + all_left_at_towers(
                s.nodes,
                topo,
                params,
                round,
                m,
            )
            &&& forall|j: int|
                0 <= j < m ==> (#[trigger] b.nodes[j]).held == kept(
                    s.nodes[j],
                    topo,
                    params,
                    round,
                    j,
                )
            &&& forall|j: int|
                m <= j < s.nodes.len() ==> (#[trigger] b.nodes[j]).held == s.nodes[j].held
            &&& forall|j: int, x: int|
                #![trigger alive(s.nodes[j].held, round, params.bundle_max_age_rounds)[x]]
                0 <= j < m && 0 <= x < left_at_tower(s.nodes[j], topo, params, round, j) ==> {
                    let c = alive(s.nodes[j].held, round, params.bundle_max_age_rounds)[x];
                    c.origin_id < s.nodes.len() ==> b.nodes[c.origin_id as int].settled.contains(
                        c.seq,
                    )
                }
        }),
{
    let m = party(s.nodes, fleet);
    let opened = spray_round::nodes_expired(s, round, params.bundle_max_age_rounds, m);
    lemma_nodes_expired(s, round, params.bundle_max_age_rounds, m);
    let w = spray_round::woken(opened, params, round, draws, m);
    let up = spray_round::spray_awake(s, fleet, params, round);
    assert forall|j: int| 0 <= j < m implies #[trigger] up[j] == (round
        >= s.nodes[j].next_wake_round) by {
        assert(opened.nodes[j].next_wake_round == s.nodes[j].next_wake_round);
    }
    assert forall|j: int| 0 <= j < m implies (#[trigger] w.nodes[j]).held == alive(
        s.nodes[j].held,
        round,
        params.bundle_max_age_rounds,
    ) by {
        assert(opened.nodes[j].held == alive(
            s.nodes[j].held,
            round,
            params.bundle_max_age_rounds,
        ));
    }
    lemma_left_held(s.nodes, topo, params, round, m);
    lemma_held_grows(s.nodes, m, s.nodes.len());
    lemma_deliveries(s, w, fleet, topo, params, up, round, m, m);
    let b = spray_round::spray_delivered(s, fleet, topo, params, round, draws);
    assert(outcomes_stay(opened.nodes, w.nodes));
    lemma_outcomes_on(s.nodes, opened.nodes, w.nodes);
    lemma_outcomes_on(s.nodes, w.nodes, b.nodes);
    assert forall|j: int| m <= j < s.nodes.len() implies (#[trigger] b.nodes[j]).held
        == s.nodes[j].held by {
        assert(w.nodes[j].held == opened.nodes[j].held);
    }
    assert forall|j: int, x: int|
        #![trigger alive(s.nodes[j].held, round, params.bundle_max_age_rounds)[x]]
        0 <= j < m && 0 <= x < left_at_tower(s.nodes[j], topo, params, round, j) implies {
        let c = alive(s.nodes[j].held, round, params.bundle_max_age_rounds)[x];
        c.origin_id < s.nodes.len() ==> b.nodes[c.origin_id as int].settled.contains(c.seq)
    } by {
        assert(w.nodes[j].held[x] == alive(
            s.nodes[j].held,
            round,
            params.bundle_max_age_rounds,
        )[x]);
    }
}

// ---------------------------------------------------------------------------
// Sharing
// ---------------------------------------------------------------------------

proof fn lemma_lacks(held: Seq<Copy_>, k: int, o: u32, q: u64)
    requires
        0 <= k <= held.len(),
    ensures
        spray_round::copy_place(held, k, o, q) is None <==> forall|x: int|
            k <= x < held.len() ==> !((#[trigger] held[x]).origin_id == o && held[x].seq == q),
        spray_round::copy_place(held, k, o, q) matches Some(p) ==> k <= p < held.len()
            && held[p].origin_id == o && held[p].seq == q && forall|x: int|
            k <= x < p ==> !((#[trigger] held[x]).origin_id == o && held[x].seq == q),
    decreases held.len() - k,
{
    if k < held.len() {
        lemma_lacks(held, k + 1, o, q);
    }
}

pub(crate) proof fn lemma_first_to_share(held: Seq<Copy_>, k: int, p: int)
    requires
        0 <= k <= p < held.len(),
        held[p].copies > 1,
        forall|x: int| k <= x < p ==> (#[trigger] held[x]).copies <= 1,
    ensures
        spray_round::spray_place(held, k) == Some(p),
    decreases p - k,
{
    if k < p {
        assert(held[k].copies <= 1);
        lemma_first_to_share(held, k + 1, p);
    }
}

pub(crate) proof fn lemma_share_place(held: Seq<Copy_>, k: int)
    requires
        0 <= k <= held.len(),
    ensures
        spray_round::spray_place(held, k) matches Some(p) ==> k <= p < held.len()
            && held[p].copies > 1,
    decreases held.len() - k,
{
    if k < held.len() {
        lemma_share_place(held, k + 1);
    }
}

/// Who may be sprayed to: every neighbour that lacks the record, and nobody else.
pub(crate) proof fn lemma_candidates(nodes: Seq<EpiModel>, list: Seq<u32>, k: nat, o: u32, q: u64)
    requires
        k <= list.len(),
    ensures
        ({
            let able = spray_round::candidates(nodes, list, k, o, q);
            &&& forall|x: int|
                0 <= x < able.len() ==> list.contains(#[trigger] able[x]) && able[x] < nodes.len()
                    && !has_record(nodes[able[x] as int].held, o, q)
            &&& forall|y: int|
                0 <= y < k && (#[trigger] list[y]) < nodes.len() && !has_record(
                    nodes[list[y] as int].held,
                    o,
                    q,
                ) ==> able.contains(list[y])
        }),
    decreases k,
{
    if k > 0 {
        lemma_candidates(nodes, list, (k - 1) as nat, o, q);
        let before = spray_round::candidates(nodes, list, (k - 1) as nat, o, q);
        let able = spray_round::candidates(nodes, list, k, o, q);
        let nb = list[k - 1];
        if nb < nodes.len() {
            let held = nodes[nb as int].held;
            lemma_lacks(held, 0, o, q);
            if !has_record(held, o, q) {
                assert forall|x: int| 0 <= x < held.len() implies !((
                #[trigger] held[x]).origin_id == o && held[x].seq == q) by {}
                assert(able[before.len() as int] == nb);
            } else {
                let x = choose|x: int|
                    0 <= x < held.len() && (#[trigger] held[x]).origin_id == o && held[x].seq == q;
                assert(spray_round::copy_place(held, 0, o, q) is Some);
            }
        }
        assert forall|x: int| 0 <= x < able.len() implies list.contains(#[trigger] able[x])
            && able[x] < nodes.len() && !has_record(nodes[able[x] as int].held, o, q) by {
            if x < before.len() {
                assert(able[x] == before[x]);
            } else {
                assert(list[k - 1] == able[x]);
                if has_record(nodes[nb as int].held, o, q) {
                    let held = nodes[nb as int].held;
                    let z = choose|z: int|
                        0 <= z < held.len() && (#[trigger] held[z]).origin_id == o && held[z].seq
                            == q;
                    assert(false);
                }
            }
        }
        assert forall|y: int|
            0 <= y < k && (#[trigger] list[y]) < nodes.len() && !has_record(
                nodes[list[y] as int].held,
                o,
                q,
            ) implies able.contains(list[y]) by {
            if y < k - 1 {
                let z = before.index_of(list[y]);
                assert(able[z] == list[y]);
            } else {
                assert(able[before.len() as int] == nb);
            }
        }
    }
}

/// Whether two lists of nodes hold the same records in the same places.
spec fn same_records(a: Seq<EpiModel>, b: Seq<EpiModel>) -> bool {
    &&& a.len() == b.len()
    &&& forall|j: int|
        0 <= j < a.len() ==> (#[trigger] b[j]).held.len() == a[j].held.len() && b[j].settled
            == a[j].settled
    &&& forall|j: int, x: int|
        0 <= j < a.len() && 0 <= x < a[j].held.len() ==> same_record(
            #[trigger] b[j].held[x],
            a[j].held[x],
        )
}

proof fn lemma_same_lack(a: Seq<EpiModel>, b: Seq<EpiModel>, j: int, o: u32, q: u64)
    requires
        same_records(a, b),
        0 <= j < a.len(),
    ensures
        has_record(a[j].held, o, q) == has_record(b[j].held, o, q),
{
    assert(b[j].held.len() == a[j].held.len());
    if has_record(a[j].held, o, q) {
        let x = choose|x: int|
            0 <= x < a[j].held.len() && (#[trigger] a[j].held[x]).origin_id == o
                && a[j].held[x].seq == q;
        assert(same_record(b[j].held[x], a[j].held[x]));
    }
    if has_record(b[j].held, o, q) {
        let x = choose|x: int|
            0 <= x < b[j].held.len() && (#[trigger] b[j].held[x]).origin_id == o
                && b[j].held[x].seq == q;
        assert(same_record(b[j].held[x], a[j].held[x]));
    }
}

/// Whether a handover is half of what its sender has of a record, to a neighbour
/// that lacks it: of the copies one half goes and one half stays, and if they are
/// odd the larger half stays.
spec fn fair_half(h: Spray, before: Seq<EpiModel>, after: Seq<EpiModel>, topo: Topology) -> bool {
    exists|p: int|
        {
            let c = before[h.from].held[p];
            &&& 0 <= p < before[h.from].held.len()
            &&& spray_round::spray_place(before[h.from].held, 0) == Some(p)
            &&& same_record(h.copy, c)
            &&& #[trigger] after[h.from].held[p] == (Copy_ {
                copies: after[h.from].held[p].copies,
                ..c
            })
            &&& h.copy.copies + after[h.from].held[p].copies == c.copies
            &&& h.copy.copies <= after[h.from].held[p].copies <= h.copy.copies + 1
            &&& topo.neighbors_of(h.from).contains(h.to)
            &&& h.to < before.len()
            &&& !has_record(before[h.to as int].held, c.origin_id, c.seq)
        }
}

/// Whether a balloon has something to share, and somebody to share it with.
spec fn can_share(nodes: Seq<EpiModel>, topo: Topology, up: Seq<bool>, j: int) -> bool {
    &&& up[j]
    &&& topo.tower_of(j) is None
    &&& spray_round::spray_place(nodes[j].held, 0) matches Some(p) && exists|y: int|
        0 <= y < topo.neighbors_of(j).len() && (#[trigger] topo.neighbors_of(j)[y]) < nodes.len()
            && !has_record(
            nodes[topo.neighbors_of(j)[y] as int].held,
            nodes[j].held[p].origin_id,
            nodes[j].held[p].seq,
        )
}

proof fn lemma_sprayed(
    g0: SprayGather,
    topo: Topology,
    up: Seq<bool>,
    picks: Seq<u64>,
    k: nat,
)
    requires
        k <= g0.s.nodes.len(),
        g0.sprays.len() == 0,
    ensures
        ({
            let g = spray_round::all_sprayed(g0, topo, up, picks, k);
            &&& same_records(g0.s.nodes, g.s.nodes)
            &&& g.s.stats.delivered == g0.s.stats.delivered
            &&& g.s.stats.duplicate_arrivals == g0.s.stats.duplicate_arrivals
            &&& forall|j: int|
                k <= j < g0.s.nodes.len() ==> (#[trigger] g.s.nodes[j]).held
                    == g0.s.nodes[j].held
            &&& g.sprays.len() <= k
            &&& forall|y: int|
                0 <= y < g.sprays.len() ==> 0 <= (#[trigger] g.sprays[y]).from < k && fair_half(
                    g.sprays[y],
                    g0.s.nodes,
                    g.s.nodes,
                    topo,
                )
            &&& forall|y: int, z: int|
                0 <= y < z < g.sprays.len() ==> (#[trigger] g.sprays[y]).from < (
                #[trigger] g.sprays[z]).from
            &&& forall|j: int|
                0 <= j < k && #[trigger] can_share(g0.s.nodes, topo, up, j) ==> exists|y: int|
                    0 <= y < g.sprays.len() && (#[trigger] g.sprays[y]).from == j
        }),
    decreases k,
{
    if k > 0 {
        lemma_sprayed(g0, topo, up, picks, (k - 1) as nat);
        let a = spray_round::all_sprayed(g0, topo, up, picks, (k - 1) as nat);
        let g = spray_round::all_sprayed(g0, topo, up, picks, k);
        let i = k - 1;
        let held = a.s.nodes[i].held;
        assert(held == g0.s.nodes[i].held);
        let list = topo.neighbors_of(i);
        lemma_share_place(held, 0);
        if up[i] && topo.tower_of(i) is None && spray_round::spray_place(held, 0) is Some
            && list.len() > 0 {
            let p = spray_round::spray_place(held, 0)->Some_0;
            let c = held[p];
            let able = spray_round::candidates(a.s.nodes, list, list.len(), c.origin_id, c.seq);
            lemma_candidates(a.s.nodes, list, list.len(), c.origin_id, c.seq);
            if able.len() > 0 {
                let h = g.sprays.last();
                let x = picks[i] as int % able.len() as int;
                assert(0 <= x < able.len());
                assert(h.to == able[x]);
                lemma_same_lack(g0.s.nodes, a.s.nodes, h.to as int, c.origin_id, c.seq);
                assert(g.s.nodes[i].held[p] == (Copy_ {
                    copies: g.s.nodes[i].held[p].copies,
                    ..c
                }));
                assert(fair_half(h, g0.s.nodes, g.s.nodes, topo));
            } else if can_share(g0.s.nodes, topo, up, i) {
                let y = choose|y: int|
                    0 <= y < list.len() && (#[trigger] list[y]) < g0.s.nodes.len() && !has_record(
                        g0.s.nodes[list[y] as int].held,
                        c.origin_id,
                        c.seq,
                    );
                lemma_same_lack(g0.s.nodes, a.s.nodes, list[y] as int, c.origin_id, c.seq);
                assert(able.contains(list[y]));
            }
        }
        assert forall|j: int, x: int|
            0 <= j < g0.s.nodes.len() && 0 <= x < g0.s.nodes[j].held.len() implies same_record(
            #[trigger] g.s.nodes[j].held[x],
            g0.s.nodes[j].held[x],
        ) by {
            assert(a.s.nodes[j].held.len() == g0.s.nodes[j].held.len());
            assert(same_record(a.s.nodes[j].held[x], g0.s.nodes[j].held[x]));
        }
        assert forall|j: int| 0 <= j < g0.s.nodes.len() implies (
        #[trigger] g.s.nodes[j]).held.len() == g0.s.nodes[j].held.len() && g.s.nodes[j].settled
            == g0.s.nodes[j].settled by {
            assert(a.s.nodes[j].held.len() == g0.s.nodes[j].held.len());
        }
        assert forall|y: int| 0 <= y < g.sprays.len() implies 0 <= (#[trigger] g.sprays[y]).from < k
            && fair_half(g.sprays[y], g0.s.nodes, g.s.nodes, topo) by {
            if y < a.sprays.len() {
                let h = a.sprays[y];
                assert(g.sprays[y] == h);
                assert(h.from < k - 1);
                assert(g.s.nodes[h.from] == a.s.nodes[h.from]);
                assert(fair_half(h, g0.s.nodes, a.s.nodes, topo));
                let p = choose|p: int|
                    {
                        let c = g0.s.nodes[h.from].held[p];
                        &&& 0 <= p < g0.s.nodes[h.from].held.len()
                        &&& spray_round::spray_place(g0.s.nodes[h.from].held, 0) == Some(p)
                        &&& same_record(h.copy, c)
                        &&& #[trigger] a.s.nodes[h.from].held[p] == (Copy_ {
                            copies: a.s.nodes[h.from].held[p].copies,
                            ..c
                        })
                        &&& h.copy.copies + a.s.nodes[h.from].held[p].copies == c.copies
                        &&& h.copy.copies <= a.s.nodes[h.from].held[p].copies <= h.copy.copies + 1
                        &&& topo.neighbors_of(h.from).contains(h.to)
                        &&& h.to < g0.s.nodes.len()
                        &&& !has_record(g0.s.nodes[h.to as int].held, c.origin_id, c.seq)
                    };
                let c = g0.s.nodes[h.from].held[p];
                assert(g.s.nodes[h.from].held[p] == (Copy_ {
                    copies: g.s.nodes[h.from].held[p].copies,
                    ..c
                }));
            }
        }
        assert forall|j: int|
            0 <= j < k && #[trigger] can_share(g0.s.nodes, topo, up, j) implies exists|y: int|
            0 <= y < g.sprays.len() && (#[trigger] g.sprays[y]).from == j by {
            if j < k - 1 {
                let y = choose|y: int| 0 <= y < a.sprays.len() && (#[trigger] a.sprays[y]).from == j;
                assert(g.sprays[y].from == j);
            } else {
                assert(g.sprays[a.sprays.len() as int].from == j);
            }
        }
    }
}

/// Whether the balloon that a handover goes to has room for all that can come.
spec fn roomy(h: Spray, nodes: Seq<EpiModel>, params: EpidemicParams, most: nat) -> bool {
    h.to < nodes.len() && nodes[h.to as int].held.len() + most <= params.relay_queue_capacity
}

/// Whether every handover is of something that its sender holds.
spec fn all_from_holders(sprays: Seq<Spray>, nodes: Seq<EpiModel>) -> bool {
    forall|y: int|
        0 <= y < sprays.len() ==> 0 <= (#[trigger] sprays[y]).from < nodes.len() && has_record(
            nodes[sprays[y].from].held,
            sprays[y].copy.origin_id,
            sprays[y].copy.seq,
        )
}

/// Whether, from one list of nodes to the next, everyone holds the same records
/// in the same places, and at most so many more behind them.
spec fn only_more(a: Seq<EpiModel>, b: Seq<EpiModel>, most: nat) -> bool {
    &&& a.len() == b.len()
    &&& forall|j: int|
        0 <= j < a.len() ==> a[j].held.len() <= (#[trigger] b[j]).held.len() <= a[j].held.len()
            + most && b[j].settled == a[j].settled
    &&& forall|j: int, x: int|
        0 <= j < a.len() && 0 <= x < a[j].held.len() ==> same_record(
            #[trigger] b[j].held[x],
            a[j].held[x],
        )
}

/// One handover reaches its receiver, or goes back to where it was taken from.
proof fn lemma_one_handed(
    s: Seq<EpiModel>,
    a: SprayState,
    fleet: Seq<Balloon>,
    params: EpidemicParams,
    h: Spray,
    most: nat,
)
    requires
        only_more(s, a.nodes, most),
        0 <= h.from < s.len(),
        has_record(s[h.from].held, h.copy.origin_id, h.copy.seq),
    ensures
        ({
            let b = spray_round::copies_handed(a, fleet, params, h);
            let fits = h.to < a.nodes.len() && a.nodes[h.to as int].held.len()
                < params.relay_queue_capacity;
            &&& only_more(s, b.nodes, most + 1)
            &&& b.stats.delivered == a.stats.delivered
            &&& b.stats.duplicate_arrivals == a.stats.duplicate_arrivals
            &&& fits ==> b.nodes == a.nodes.update(
                h.to as int,
                EpiModel {
                    held: a.nodes[h.to as int].held.push(h.copy),
                    ..a.nodes[h.to as int]
                },
            )
            &&& !fits ==> {
                &&& forall|j: int|
                    0 <= j < a.nodes.len() && j != h.from ==> #[trigger] b.nodes[j] == a.nodes[j]
                &&& b.nodes[h.from].held.len() == a.nodes[h.from].held.len()
                &&& forall|x: int|
                    s[h.from].held.len() <= x < a.nodes[h.from].held.len()
                        ==> #[trigger] b.nodes[h.from].held[x] == a.nodes[h.from].held[x]
            }
        }),
{
    let b = spray_round::copies_handed(a, fleet, params, h);
    let held = a.nodes[h.from].held;
    lemma_lacks(held, 0, h.copy.origin_id, h.copy.seq);
    let z = choose|z: int|
        0 <= z < s[h.from].held.len() && (#[trigger] s[h.from].held[z]).origin_id
            == h.copy.origin_id && s[h.from].held[z].seq == h.copy.seq;
    assert(held.len() >= s[h.from].held.len());
    assert(same_record(a.nodes[h.from].held[z], s[h.from].held[z]));
    assert(held[z].origin_id == h.copy.origin_id);
    let p = spray_round::copy_place(held, 0, h.copy.origin_id, h.copy.seq)->Some_0;
    assert(p <= z);
    let fits = h.to < a.nodes.len() && a.nodes[h.to as int].held.len()
        < params.relay_queue_capacity;
    if !fits {
        let c = Copy_ { copies: spray_round::capped(held[p].copies, h.copy.copies), ..held[p] };
        assert(b.nodes == a.nodes.update(
            h.from,
            EpiModel { held: held.update(p, c), ..a.nodes[h.from] },
        ));
    }
    assert forall|j: int| 0 <= j < s.len() implies s[j].held.len() <= (
    #[trigger] b.nodes[j]).held.len() <= s[j].held.len() + most + 1 && b.nodes[j].settled
        == s[j].settled by {
        assert(a.nodes[j].held.len() >= s[j].held.len());
    }
    assert forall|j: int, x: int| 0 <= j < s.len() && 0 <= x < s[j].held.len() implies same_record(
        #[trigger] b.nodes[j].held[x],
        s[j].held[x],
    ) by {
        assert(a.nodes[j].held.len() >= s[j].held.len());
        assert(same_record(a.nodes[j].held[x], s[j].held[x]));
    }
}

proof fn lemma_handed(
    s: SprayState,
    fleet: Seq<Balloon>,
    params: EpidemicParams,
    sprays: Seq<Spray>,
    k: nat,
)
    requires
        k <= sprays.len(),
        all_from_holders(sprays, s.nodes),
    ensures
        ({
            let b = spray_round::all_handed(s, fleet, params, sprays, k);
            &&& only_more(s.nodes, b.nodes, k)
            &&& b.stats.delivered == s.stats.delivered
            &&& b.stats.duplicate_arrivals == s.stats.duplicate_arrivals
        }),
    decreases k,
{
    if k > 0 {
        lemma_handed(s, fleet, params, sprays, (k - 1) as nat);
        let a = spray_round::all_handed(s, fleet, params, sprays, (k - 1) as nat);
        let h = sprays[k - 1];
        lemma_one_handed(s.nodes, a, fleet, params, h, (k - 1) as nat);
    }
}

/// A handover to somebody with room for all that can come is what its receiver
/// has of it in the end, and nothing comes back to its sender.
proof fn lemma_handed_over(
    s: SprayState,
    fleet: Seq<Balloon>,
    params: EpidemicParams,
    sprays: Seq<Spray>,
    k: nat,
    y: int,
    p: int,
)
    requires
        k <= sprays.len(),
        all_from_holders(sprays, s.nodes),
        0 <= y < sprays.len(),
        roomy(sprays[y], s.nodes, params, sprays.len()),
        forall|z: int|
            0 <= z < sprays.len() && z != y ==> (#[trigger] sprays[z]).from != sprays[y].from,
        0 <= p < s.nodes[sprays[y].from].held.len(),
    ensures
        ({
            let b = spray_round::all_handed(s, fleet, params, sprays, k);
            let t = sprays[y].to as int;
            &&& b.nodes.len() == s.nodes.len()
            &&& b.nodes[sprays[y].from].held.len() > p
            &&& b.nodes[sprays[y].from].held[p] == s.nodes[sprays[y].from].held[p]
            &&& k > y ==> b.nodes[t].held.skip(s.nodes[t].held.len() as int).contains(
                sprays[y].copy,
            )
        }),
    decreases k,
{
    lemma_handed(s, fleet, params, sprays, k);
    let b = spray_round::all_handed(s, fleet, params, sprays, k);
    let i = sprays[y].from;
    let t = sprays[y].to as int;
    assert(b.nodes[i].held.len() >= s.nodes[i].held.len());
    if k > 0 {
        lemma_handed_over(s, fleet, params, sprays, (k - 1) as nat, y, p);
        lemma_handed(s, fleet, params, sprays, (k - 1) as nat);
        let a = spray_round::all_handed(s, fleet, params, sprays, (k - 1) as nat);
        let h = sprays[k - 1];
        lemma_one_handed(s.nodes, a, fleet, params, h, (k - 1) as nat);
        let fits = h.to < a.nodes.len() && a.nodes[h.to as int].held.len()
            < params.relay_queue_capacity;
        let len = s.nodes[t].held.len() as int;
        let (was, now) = (a.nodes[t].held, b.nodes[t].held);
        assert(len <= was.len() <= len + (k - 1)) by {
            assert(a.nodes[t].held.len() >= s.nodes[t].held.len());
        }
        if k - 1 == y {
            assert(fits);
            assert(now == was.push(h.copy));
            assert(now.skip(len)[was.len() - len] == h.copy);
        } else {
            assert(h.from != i);
            assert(now.len() >= was.len() && forall|x: int|
                len <= x < was.len() ==> #[trigger] now[x] == was[x]);
            if k > y {
                let x = was.skip(len).index_of(sprays[y].copy);
                assert(was[x + len] == sprays[y].copy);
                assert(now[x + len] == was[x + len]);
                assert(now.skip(len)[x] == sprays[y].copy);
            }
        }
    }
}

proof fn lemma_originated(
    s: SprayState,
    fleet: Seq<Balloon>,
    params: EpidemicParams,
    up: Seq<bool>,
    round: u64,
    k: nat,
)
    requires
        k <= s.nodes.len(),
    ensures
        ({
            let b = spray_round::originations(s, fleet, params, up, round, k);
            &&& b.nodes.len() == s.nodes.len()
            &&& b.stats.delivered == s.stats.delivered
            &&& b.stats.duplicate_arrivals == s.stats.duplicate_arrivals
            &&& forall|j: int|
                0 <= j < s.nodes.len() ==> s.nodes[j].held.is_prefix_of(
                    (#[trigger] b.nodes[j]).held,
                ) && b.nodes[j].settled == s.nodes[j].settled
        }),
    decreases k,
{
    if k > 0 {
        lemma_originated(s, fleet, params, up, round, (k - 1) as nat);
        let a = spray_round::originations(s, fleet, params, up, round, (k - 1) as nat);
        let b = spray_round::originations(s, fleet, params, up, round, k);
        assert forall|j: int| 0 <= j < s.nodes.len() implies s.nodes[j].held.is_prefix_of(
            (#[trigger] b.nodes[j]).held,
        ) && b.nodes[j].settled == s.nodes[j].settled by {
            assert(s.nodes[j].held.is_prefix_of(a.nodes[j].held));
            assert(a.nodes[j].held.is_prefix_of(b.nodes[j].held));
            assert(s.nodes[j].held =~= b.nodes[j].held.subrange(0, s.nodes[j].held.len() as int));
        }
    }
}

// ---------------------------------------------------------------------------
// The laws
// ---------------------------------------------------------------------------

/// Copies land, and otherwise stay put. A balloon that is awake in range of a
/// tower leaves there as many copies as the contact takes, oldest first, and each
/// of their records has an outcome from then on; over the fleet, the arrivals
/// counted, first or later, are as many as the copies left. Whatever was neither
/// left nor too old stays with its holder, in its place.
pub proof fn copies_land_or_stay(
    s: SprayState,
    fleet: Seq<Balloon>,
    topo: Topology,
    params: EpidemicParams,
    round: u64,
    draws: Seq<u64>,
    picks: Seq<u64>,
)
    requires
        spray_round::round_fits(s, params, round),
    ensures
        ({
            let after = spray_round::spray_round(s, fleet, topo, params, round, draws, picks);
            let m = party(s.nodes, fleet);
            &&& after.nodes.len() == s.nodes.len()
            &&& after.stats.delivered + after.stats.duplicate_arrivals == s.stats.delivered
                + s.stats.duplicate_arrivals + all_left_at_towers(
                s.nodes,
                topo,
                params,
                round,
                m,
            )
            &&& forall|i: int, x: int|
                #![trigger alive(s.nodes[i].held, round, params.bundle_max_age_rounds)[x]]
                0 <= i < m && 0 <= x < left_at_tower(s.nodes[i], topo, params, round, i) ==> {
                    let c = alive(s.nodes[i].held, round, params.bundle_max_age_rounds)[x];
                    c.origin_id < s.nodes.len()
                        ==> after.nodes[c.origin_id as int].settled.contains(c.seq)
                }
            &&& forall|i: int|
                0 <= i < m ==> (#[trigger] after.nodes[i]).held.len() >= kept(
                    s.nodes[i],
                    topo,
                    params,
                    round,
                    i,
                ).len()
            &&& forall|i: int, x: int|
                0 <= i < m && 0 <= x < kept(s.nodes[i], topo, params, round, i).len()
                    ==> same_record(
                    #[trigger] after.nodes[i].held[x],
                    kept(s.nodes[i], topo, params, round, i)[x],
                )
        }),
{
    let m = party(s.nodes, fleet);
    let up = spray_round::spray_awake(s, fleet, params, round);
    let d = spray_round::spray_delivered(s, fleet, topo, params, round, draws);
    lemma_delivered(s, fleet, topo, params, round, draws);
    let g0 = SprayGather { s: d, sprays: Seq::empty() };
    let g = spray_round::all_sprayed(g0, topo, up, picks, m);
    lemma_sprayed(g0, topo, up, picks, m);
    lemma_senders_hold(g0, g, topo, m);
    let handed = spray_round::all_handed(g.s, fleet, params, g.sprays, g.sprays.len());
    lemma_handed(g.s, fleet, params, g.sprays, g.sprays.len());
    let after = spray_round::spray_round(s, fleet, topo, params, round, draws, picks);
    lemma_originated(handed, fleet, params, up, round, m);
    assert forall|i: int, x: int|
        #![trigger alive(s.nodes[i].held, round, params.bundle_max_age_rounds)[x]]
        0 <= i < m && 0 <= x < left_at_tower(s.nodes[i], topo, params, round, i) implies {
        let c = alive(s.nodes[i].held, round, params.bundle_max_age_rounds)[x];
        c.origin_id < s.nodes.len() ==> after.nodes[c.origin_id as int].settled.contains(c.seq)
    } by {
        let c = alive(s.nodes[i].held, round, params.bundle_max_age_rounds)[x];
        if c.origin_id < s.nodes.len() {
            let o = c.origin_id as int;
            assert(d.nodes[o].settled.contains(c.seq));
            assert(g.s.nodes[o].settled == d.nodes[o].settled);
            assert(handed.nodes[o].settled == g.s.nodes[o].settled);
            assert(after.nodes[o].settled == handed.nodes[o].settled);
        }
    }
    assert forall|i: int| 0 <= i < m implies (#[trigger] after.nodes[i]).held.len() >= kept(
        s.nodes[i],
        topo,
        params,
        round,
        i,
    ).len() by {
        assert(d.nodes[i].held == kept(s.nodes[i], topo, params, round, i));
        assert(g.s.nodes[i].held.len() == d.nodes[i].held.len());
        assert(handed.nodes[i].held.len() >= g.s.nodes[i].held.len());
        assert(handed.nodes[i].held.is_prefix_of(after.nodes[i].held));
    }
    assert forall|i: int, x: int|
        0 <= i < m && 0 <= x < kept(
            s.nodes[i],
            topo,
            params,
            round,
            i,
        ).len() implies same_record(
        #[trigger] after.nodes[i].held[x],
        kept(s.nodes[i], topo, params, round, i)[x],
    ) by {
        assert(d.nodes[i].held == kept(s.nodes[i], topo, params, round, i));
        assert(g.s.nodes[i].held.len() == d.nodes[i].held.len());
        assert(same_record(g.s.nodes[i].held[x], d.nodes[i].held[x]));
        assert(handed.nodes[i].held.len() >= g.s.nodes[i].held.len());
        assert(same_record(handed.nodes[i].held[x], g.s.nodes[i].held[x]));
        assert(handed.nodes[i].held.is_prefix_of(after.nodes[i].held));
        assert(after.nodes[i].held[x] == handed.nodes[i].held[x]);
    }
}

/// Whoever hands something over holds some of it still.
proof fn lemma_senders_hold(g0: SprayGather, g: SprayGather, topo: Topology, m: nat)
    requires
        m <= g0.s.nodes.len(),
        same_records(g0.s.nodes, g.s.nodes),
        forall|y: int|
            0 <= y < g.sprays.len() ==> 0 <= (#[trigger] g.sprays[y]).from < m && fair_half(
                g.sprays[y],
                g0.s.nodes,
                g.s.nodes,
                topo,
            ),
    ensures
        all_from_holders(g.sprays, g.s.nodes),
{
    assert forall|y: int| 0 <= y < g.sprays.len() implies 0 <= (#[trigger] g.sprays[y]).from
        < g.s.nodes.len() && has_record(
        g.s.nodes[g.sprays[y].from].held,
        g.sprays[y].copy.origin_id,
        g.sprays[y].copy.seq,
    ) by {
        let h = g.sprays[y];
        let (before, after) = (g0.s.nodes, g.s.nodes);
        assert(fair_half(h, before, after, topo));
        let p = choose|p: int|
            {
                let c = before[h.from].held[p];
                &&& 0 <= p < before[h.from].held.len()
                &&& same_record(h.copy, c)
                &&& #[trigger] after[h.from].held[p] == (Copy_ {
                    copies: after[h.from].held[p].copies,
                    ..c
                })
            };
        assert(after[h.from].held.len() == before[h.from].held.len());
        assert(after[h.from].held[p].origin_id == h.copy.origin_id);
    }
}

/// Whether two balloons share the copies of a record between them: one half each
/// to one copy, the odd one being the first balloon's, and otherwise as it was.
pub open spec fn halved(c: Copy_, mine: Copy_, yours: Copy_) -> bool {
    &&& same_record(mine, c)
    &&& same_record(yours, c)
    &&& mine.copies + yours.copies == c.copies
    &&& yours.copies <= mine.copies <= yours.copies + 1
}

/// Copies are shared by halves. A balloon that is awake, out of range of every
/// tower, and has more than one copy of a record hands half of the first such
/// record to a neighbour that lacks it, if there is one: it keeps the larger half
/// where it was, and the neighbour, if all have room, has the other.
pub proof fn copies_are_shared_by_halves(
    s: SprayState,
    fleet: Seq<Balloon>,
    topo: Topology,
    params: EpidemicParams,
    round: u64,
    draws: Seq<u64>,
    picks: Seq<u64>,
    i: int,
    p: int,
    friend: u32,
)
    requires
        spray_round::round_fits(s, params, round),
        0 <= i < party(s.nodes, fleet),
        round >= s.nodes[i].next_wake_round,
        topo.tower_of(i) is None,
        ({
            let live = alive(s.nodes[i].held, round, params.bundle_max_age_rounds);
            &&& 0 <= p < live.len()
            &&& live[p].copies > 1
            &&& forall|x: int| 0 <= x < p ==> (#[trigger] live[x]).copies <= 1
            &&& friend < s.nodes.len()
            &&& topo.neighbors_of(i).contains(friend)
            &&& !has_record(s.nodes[friend as int].held, live[p].origin_id, live[p].seq)
        }),
        forall|nb: u32|
            #[trigger] topo.neighbors_of(i).contains(nb) && nb < s.nodes.len()
                ==> s.nodes[nb as int].held.len() + party(s.nodes, fleet)
                <= params.relay_queue_capacity,
    ensures
        ({
            let c = alive(s.nodes[i].held, round, params.bundle_max_age_rounds)[p];
            let after = spray_round::spray_round(
                s,
                fleet,
                topo,
                params,
                round,
                draws,
                picks,
            ).nodes;
            &&& p < after[i].held.len()
            &&& exists|nb: u32, yours: Copy_|
                {
                    &&& topo.neighbors_of(i).contains(nb)
                    &&& nb < s.nodes.len()
                    &&& #[trigger] after[nb as int].held.contains(yours)
                    &&& halved(c, after[i].held[p], yours)
                }
        }),
{
    let m = party(s.nodes, fleet);
    let up = spray_round::spray_awake(s, fleet, params, round);
    let d = spray_round::spray_delivered(s, fleet, topo, params, round, draws);
    lemma_delivered(s, fleet, topo, params, round, draws);
    let g0 = SprayGather { s: d, sprays: Seq::empty() };
    let g = spray_round::all_sprayed(g0, topo, up, picks, m);
    lemma_sprayed(g0, topo, up, picks, m);
    lemma_senders_hold(g0, g, topo, m);
    let handed = spray_round::all_handed(g.s, fleet, params, g.sprays, g.sprays.len());
    lemma_handed(g.s, fleet, params, g.sprays, g.sprays.len());
    let after = spray_round::spray_round(s, fleet, topo, params, round, draws, picks);
    lemma_originated(handed, fleet, params, up, round, m);
    let live = alive(s.nodes[i].held, round, params.bundle_max_age_rounds);
    let c = live[p];
    assert(d.nodes[i].held == kept(s.nodes[i], topo, params, round, i));
    assert(live.skip(0) =~= live);
    assert(d.nodes[i].held == live);
    lemma_first_to_share(live, 0, p);
    assert(up[i]);
    let list = topo.neighbors_of(i);
    let y0 = list.index_of(friend);
    lemma_fewer_records(s, d, fleet, topo, params, round, friend as int, c.origin_id, c.seq);
    assert(list[y0] < d.nodes.len());
    assert(can_share(d.nodes, topo, up, i));
    let y = choose|y: int| 0 <= y < g.sprays.len() && (#[trigger] g.sprays[y]).from == i;
    let h = g.sprays[y];
    assert(fair_half(h, d.nodes, g.s.nodes, topo));
    assert(g.s.nodes[i].held[p] == (Copy_ { copies: g.s.nodes[i].held[p].copies, ..c }));
    let t = h.to as int;
    assert(topo.neighbors_of(i).contains(h.to));
    lemma_alive_among(s.nodes[t].held, round, params.bundle_max_age_rounds);
    assert(d.nodes[t].held.len() <= s.nodes[t].held.len()) by {
        if t < m {
            assert(d.nodes[t].held == kept(s.nodes[t], topo, params, round, t));
        } else {
            assert(d.nodes[t].held == s.nodes[t].held);
        }
    }
    assert(g.s.nodes[t].held.len() == d.nodes[t].held.len());
    assert(roomy(h, g.s.nodes, params, g.sprays.len()));
    assert forall|z: int| 0 <= z < g.sprays.len() && z != y implies (#[trigger] g.sprays[z]).from
        != g.sprays[y].from by {
        if z < y {
            assert(g.sprays[z].from < g.sprays[y].from);
        } else {
            assert(g.sprays[y].from < g.sprays[z].from);
        }
    }
    assert(g.s.nodes[i].held.len() == d.nodes[i].held.len());
    lemma_handed_over(g.s, fleet, params, g.sprays, g.sprays.len(), y, p);
    assert(handed.nodes[i].held.is_prefix_of(after.nodes[i].held));
    assert(after.nodes[i].held[p] == handed.nodes[i].held[p]);
    let len = g.s.nodes[t].held.len() as int;
    let x = handed.nodes[t].held.skip(len).index_of(h.copy);
    assert(handed.nodes[t].held.is_prefix_of(after.nodes[t].held));
    assert(after.nodes[t].held[x + len] == handed.nodes[t].held[x + len]);
    assert(after.nodes[h.to as int].held.contains(h.copy));
    assert(halved(c, after.nodes[i].held[p], h.copy));
}

/// Nobody comes by a record before copies are shared.
proof fn lemma_fewer_records(
    s: SprayState,
    d: SprayState,
    fleet: Seq<Balloon>,
    topo: Topology,
    params: EpidemicParams,
    round: u64,
    j: int,
    o: u32,
    q: u64,
)
    requires
        0 <= j < s.nodes.len(),
        d.nodes.len() == s.nodes.len(),
        d.nodes[j].held == (if j < party(s.nodes, fleet) {
            kept(s.nodes[j], topo, params, round, j)
        } else {
            s.nodes[j].held
        }),
        !has_record(s.nodes[j].held, o, q),
    ensures
        !has_record(d.nodes[j].held, o, q),
{
    let held = s.nodes[j].held;
    lemma_alive_among(held, round, params.bundle_max_age_rounds);
    if has_record(d.nodes[j].held, o, q) {
        let x = choose|x: int|
            0 <= x < d.nodes[j].held.len() && (#[trigger] d.nodes[j].held[x]).origin_id == o
                && d.nodes[j].held[x].seq == q;
        if j < party(s.nodes, fleet) {
            let live = alive(held, round, params.bundle_max_age_rounds);
            let skipped = left_at_tower(s.nodes[j], topo, params, round, j) as int;
            assert(d.nodes[j].held[x] == live[x + skipped]);
            let z = held.index_of(live[x + skipped]);
            assert(held[z].origin_id == o && held[z].seq == q);
        }
    }
}

/// A balloon originates a record exactly when it is awake, its time has come, it
/// has room, and it holds none of its own: it then holds the whole budget of one
/// new record, measured now, with the next number and in the last place, and the
/// next is due an interval later.
pub proof fn a_record_is_originated_when_due(
    s: SprayState,
    fleet: Seq<Balloon>,
    params: EpidemicParams,
    up: Seq<bool>,
    round: u64,
    i: int,
)
    requires
        0 <= i < s.nodes.len(),
        s.nodes[i].bundle_seq < u64::MAX,
        s.stats.originated < u64::MAX,
        round + params.bundle_interval_rounds <= u64::MAX,
    ensures
        ({
            let n = s.nodes[i];
            let id = fleet[i].id;
            let after = spray_round::origination(s, fleet, params, up, round, i);
            let now = up[i] && round >= n.next_bundle_round && n.held.len()
                < params.relay_queue_capacity && forall|x: int|
                0 <= x < n.held.len() ==> (#[trigger] n.held[x]).origin_id != id;
            &&& !now ==> after == s
            &&& now ==> {
                let m = after.nodes[i];
                &&& m.held == n.held.push(
                    Copy_ {
                        origin_id: id,
                        seq: n.bundle_seq,
                        created_at_round: round,
                        record: telemetry::fresh_record(id, fleet[i].reading, n.bundle_seq, round),
                        copies: params.copies,
                    },
                )
                &&& m.bundle_seq == n.bundle_seq + 1
                &&& m.next_bundle_round == round + params.bundle_interval_rounds
                &&& after.stats.originated == s.stats.originated + 1
                &&& m.outstanding matches Some(o) && o.seq == n.bundle_seq && o.created_at_round
                    == round
                &&& m.log.len() > 0 && m.log.last() == m.held.last().record
                &&& n.log.len() < params.comms_log_capacity ==> m.log.drop_last() == n.log
                &&& n.log.len() >= params.comms_log_capacity && n.log.len() > 0
                    ==> m.log.drop_last() == n.log.skip(1)
            }
        }),
{
    let n = s.nodes[i];
    let m = spray_round::origination(s, fleet, params, up, round, i).nodes[i];
    if m.log.len() > 0 {
        if n.log.len() > 0 {
            assert(n.log.skip(1) =~= n.log.subrange(1, n.log.len() as int));
            assert(n.log.skip(1).push(m.log.last()).drop_last() =~= n.log.skip(1));
        }
        assert(n.log.push(m.log.last()).drop_last() =~= n.log);
    }
    assert(spray_round::holds_own(n.held, fleet[i].id) <==> !(forall|x: int|
        0 <= x < n.held.len() ==> (#[trigger] n.held[x]).origin_id != fleet[i].id));
}

} // verus!
