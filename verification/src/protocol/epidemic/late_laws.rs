//! What happens in spray-and-wait to what is late, who wakes next when, and whom
//! a copy may go to.
use vstd::prelude::*;

use crate::balloon::Balloon;
use crate::mesh_adjacency::Topology;
use crate::protocol::dv_dtn::bundle::{AckState, Channel};

use super::params::EpidemicParams;
use super::spray_round;
use super::spray_round::{EpiModel, SprayGather, SprayState};
use super::spread_laws;
use super::Copy_;

verus! {

/// The copies among these that have run out of time.
pub open spec fn too_late(held: Seq<Copy_>, round: u64, max_age: u64) -> Seq<Copy_> {
    held.filter(|c: Copy_| round > c.created_at_round + max_age)
}

/// How many copies of the first `k` nodes have.
pub open spec fn all_too_late(nodes: Seq<EpiModel>, round: u64, max_age: u64, k: nat) -> nat
    decreases k,
{
    if k == 0 {
        0
    } else {
        all_too_late(nodes, round, max_age, (k - 1) as nat) + too_late(
            nodes[k - 1].held,
            round,
            max_age,
        ).len()
    }
}

proof fn lemma_late(held: Seq<Copy_>, k: nat, round: u64, max_age: u64)
    requires
        k <= held.len(),
    ensures
        spray_round::late_copies(held, k, round, max_age) == too_late(
            held.take(k as int),
            round,
            max_age,
        ),
    decreases k,
{
    reveal(Seq::filter);
    if k > 0 {
        lemma_late(held, (k - 1) as nat, round, max_age);
        assert(held.take(k as int).drop_last() =~= held.take(k - 1));
    } else {
        assert(held.take(0).len() == 0);
    }
}

/// Whether the record of a copy has an outcome.
pub open spec fn settled_for(nodes: Seq<EpiModel>, c: Copy_) -> bool {
    c.origin_id < nodes.len() ==> nodes[c.origin_id as int].settled.contains(c.seq)
}

proof fn lemma_expired_counts(s: SprayState, late: Seq<Copy_>, k: nat)
    requires
        k <= late.len(),
        s.stats.copies_expired + k <= u64::MAX,
    ensures
        ({
            let b = spray_round::copies_expired(s, late, k);
            &&& b.stats.copies_expired == s.stats.copies_expired + k
            &&& spread_laws::outcomes_stay(s.nodes, b.nodes)
            &&& forall|x: int| 0 <= x < k ==> settled_for(b.nodes, #[trigger] late[x])
        }),
    decreases k,
{
    if k > 0 {
        lemma_expired_counts(s, late, (k - 1) as nat);
        let a = spray_round::copies_expired(s, late, (k - 1) as nat);
        let b = spray_round::copies_expired(s, late, k);
        let c = late[k - 1];
        spread_laws::lemma_with_outcome(a.nodes, c.origin_id, c.seq, Channel::Satellite);
        spread_laws::lemma_outcomes_on(s.nodes, a.nodes, b.nodes);
        assert forall|x: int| 0 <= x < k implies settled_for(b.nodes, #[trigger] late[x]) by {
            if x < k - 1 {
                assert(settled_for(a.nodes, late[x]));
            }
        }
    }
}

proof fn lemma_fewer_late(nodes: Seq<EpiModel>, round: u64, max_age: u64, j: nat, k: nat)
    requires
        j <= k <= nodes.len(),
    ensures
        all_too_late(nodes, round, max_age, j) <= all_too_late(nodes, round, max_age, k),
    decreases k,
{
    if j < k {
        lemma_fewer_late(nodes, round, max_age, j, (k - 1) as nat);
    }
}

/// What is late goes up. When a round opens, exactly the copies past the age limit
/// leave their holders, each is counted, and each of their records has an outcome
/// from then on, so that no copy of it counts again.
pub proof fn what_is_late_goes_up(s: SprayState, round: u64, max_age: u64, k: nat)
    requires
        k <= s.nodes.len(),
        s.stats.copies_expired + all_too_late(s.nodes, round, max_age, k) <= u64::MAX,
    ensures
        ({
            let b = spray_round::nodes_expired(s, round, max_age, k);
            &&& b.nodes.len() == s.nodes.len()
            &&& b.stats.copies_expired == s.stats.copies_expired + all_too_late(
                s.nodes,
                round,
                max_age,
                k,
            )
            &&& forall|i: int|
                0 <= i < k ==> (#[trigger] b.nodes[i]).held == spread_laws::alive(
                    s.nodes[i].held,
                    round,
                    max_age,
                )
            &&& forall|i: int, x: int|
                #![trigger too_late(s.nodes[i].held, round, max_age)[x]]
                0 <= i < k && 0 <= x < too_late(s.nodes[i].held, round, max_age).len()
                    ==> settled_for(b.nodes, too_late(s.nodes[i].held, round, max_age)[x])
        }),
    decreases k,
{
    spread_laws::lemma_nodes_expired(s, round, max_age, k);
    if k > 0 {
        lemma_fewer_late(s.nodes, round, max_age, (k - 1) as nat, k);
        what_is_late_goes_up(s, round, max_age, (k - 1) as nat);
        spread_laws::lemma_nodes_expired(s, round, max_age, (k - 1) as nat);
        let a = spray_round::nodes_expired(s, round, max_age, (k - 1) as nat);
        let b = spray_round::nodes_expired(s, round, max_age, k);
        let held = a.nodes[k - 1].held;
        assert(held == s.nodes[k - 1].held);
        let late = spray_round::late_copies(held, held.len(), round, max_age);
        lemma_late(held, held.len(), round, max_age);
        assert(held.take(held.len() as int) =~= held);
        let start = SprayState {
            nodes: a.nodes.update(
                k - 1,
                EpiModel {
                    held: spray_round::live_copies(held, held.len(), round, max_age),
                    ..a.nodes[k - 1]
                },
            ),
            ..a
        };
        lemma_expired_counts(start, late, late.len());
        assert(spread_laws::outcomes_stay(a.nodes, start.nodes));
        spread_laws::lemma_outcomes_on(a.nodes, start.nodes, b.nodes);
        assert forall|i: int, x: int|
            #![trigger too_late(s.nodes[i].held, round, max_age)[x]]
            0 <= i < k && 0 <= x < too_late(s.nodes[i].held, round, max_age).len()
            implies settled_for(b.nodes, too_late(s.nodes[i].held, round, max_age)[x]) by {
            let c = too_late(s.nodes[i].held, round, max_age)[x];
            if i < k - 1 {
                assert(settled_for(a.nodes, c));
            } else {
                assert(settled_for(b.nodes, late[x]));
            }
        }
    }
}

/// An outcome is noted once, with the balloon whose record it is: the first that a
/// record comes by says over which channel it went, and any later one says nothing.
pub proof fn the_first_outcome_is_noted(
    nodes: Seq<EpiModel>,
    origin_id: u32,
    seq: u64,
    channel: Channel,
)
    requires
        origin_id < nodes.len(),
    ensures
        ({
            let n = nodes[origin_id as int];
            let b = spray_round::with_outcome(nodes, origin_id, seq, channel);
            let m = b[origin_id as int];
            &&& n.settled.contains(seq) ==> b == nodes
            &&& !n.settled.contains(seq) ==> {
                &&& m.settled == n.settled.push(seq)
                &&& m.last_channel == Some(channel)
                &&& m.last_resolved matches Some(r) && r.seq == seq && r.channel == Some(channel)
                &&& m.outstanding == n.outstanding
                &&& m.held == n.held
                &&& forall|j: int|
                    0 <= j < nodes.len() && j != origin_id ==> #[trigger] b[j] == nodes[j]
            }
        }),
{
}

/// A balloon gives up on a record when it is past the age limit, and not before. One
/// whose slot has come sleeps for an interval, give or take the jitter, and any
/// other keeps its slot.
pub proof fn waking_is_in_time(
    s: SprayState,
    params: EpidemicParams,
    round: u64,
    draws: Seq<u64>,
    m: nat,
    i: int,
)
    requires
        m <= s.nodes.len(),
        0 <= i < m,
        draws[i] <= 2 * params.wake_jitter_rounds,
        round + params.wake_interval_rounds + params.wake_jitter_rounds + 1 <= u64::MAX,
    ensures
        ({
            let n = s.nodes[i];
            let w = spray_round::woken(s, params, round, draws, m).nodes[i];
            &&& w.held == n.held
            &&& n.outstanding is None ==> w.outstanding is None
            &&& n.outstanding matches Some(o) ==> {
                let late = round > o.created_at_round + params.bundle_max_age_rounds;
                &&& o.state != AckState::Pending || !late ==> w.outstanding == Some(o)
                &&& o.state == AckState::Pending && late ==> (w.outstanding matches Some(p)
                    && p.seq == o.seq && p.state == AckState::TimedOut)
            }
            &&& round < n.next_wake_round ==> w.next_wake_round == n.next_wake_round
            &&& round >= n.next_wake_round ==> {
                &&& w.next_wake_round >= round + 1
                &&& w.next_wake_round + params.wake_jitter_rounds >= round
                    + params.wake_interval_rounds
                &&& w.next_wake_round == round + 1 || w.next_wake_round <= round
                    + params.wake_interval_rounds + params.wake_jitter_rounds
            }
        }),
{
}

/// Any neighbour that lacks the record may be the one to get the copies: for each
/// there is a pick that chooses it.
pub proof fn any_neighbour_may_be_chosen(
    g: SprayGather,
    topo: Topology,
    up: Seq<bool>,
    picks: Seq<u64>,
    i: int,
    p: int,
    friend: u32,
) -> (pick: u64)
    requires
        0 <= i < g.s.nodes.len(),
        i < picks.len(),
        up[i],
        topo.tower_of(i) is None,
        topo.neighbors_of(i).contains(friend),
        topo.neighbors_of(i).len() <= u64::MAX,
        friend < g.s.nodes.len(),
        0 <= p < g.s.nodes[i].held.len(),
        g.s.nodes[i].held[p].copies > 1,
        forall|x: int| 0 <= x < p ==> (#[trigger] g.s.nodes[i].held[x]).copies <= 1,
        !spread_laws::has_record(
            g.s.nodes[friend as int].held,
            g.s.nodes[i].held[p].origin_id,
            g.s.nodes[i].held[p].seq,
        ),
    ensures
        ({
            let after = spray_round::sprayed(g, topo, up, picks.update(i, pick), i);
            &&& after.sprays.len() == g.sprays.len() + 1
            &&& after.sprays.last().from == i
            &&& after.sprays.last().to == friend
            &&& after.sprays.last().copy.seq == g.s.nodes[i].held[p].seq
            &&& after.sprays.last().copy.origin_id == g.s.nodes[i].held[p].origin_id
        }),
{
    let held = g.s.nodes[i].held;
    let list = topo.neighbors_of(i);
    let c = held[p];
    spread_laws::lemma_first_to_share(held, 0, p);
    let able = spray_round::candidates(g.s.nodes, list, list.len(), c.origin_id, c.seq);
    spread_laws::lemma_candidates(g.s.nodes, list, list.len(), c.origin_id, c.seq);
    assert(list[list.index_of(friend)] == friend);
    assert(able.contains(friend));
    let f = able.index_of(friend);
    lemma_no_more_able(g.s.nodes, list, list.len(), c.origin_id, c.seq);
    let pick = f as u64;
    assert(picks.update(i, pick)[i] == f);
    assert(f % (able.len() as int) == f) by (nonlinear_arith)
        requires
            0 <= f < able.len(),
    ;
    pick
}

proof fn lemma_no_more_able(
    nodes: Seq<EpiModel>,
    list: Seq<u32>,
    k: nat,
    origin_id: u32,
    seq: u64,
)
    requires
        k <= list.len(),
    ensures
        spray_round::candidates(nodes, list, k, origin_id, seq).len() <= k,
    decreases k,
{
    if k > 0 {
        lemma_no_more_able(nodes, list, (k - 1) as nat, origin_id, seq);
    }
}

/// Whether a balloon holds copies of a record of its own, or has no room.
pub open spec fn own_or_full(n: EpiModel, id: u32, params: EpidemicParams) -> bool {
    ||| n.held.len() >= params.relay_queue_capacity
    ||| spray_round::holds_own(n.held, id)
}

/// Whoever is due has something of its own: every balloon that is awake and whose time
/// has come ends a round with a record of its own in hand, or without room for one.
pub proof fn whoever_is_due_has_something_of_its_own(
    s: SprayState,
    fleet: Seq<Balloon>,
    params: EpidemicParams,
    up: Seq<bool>,
    round: u64,
    k: nat,
    i: int,
)
    requires
        k <= s.nodes.len(),
        0 <= i < s.nodes.len(),
        up[i],
        round >= s.nodes[i].next_bundle_round,
    ensures
        ({
            let b = spray_round::originations(s, fleet, params, up, round, k).nodes;
            &&& b.len() == s.nodes.len()
            &&& i < k ==> own_or_full(b[i], fleet[i].id, params)
            &&& i >= k ==> b[i] == s.nodes[i]
        }),
    decreases k,
{
    if k > 0 {
        whoever_is_due_has_something_of_its_own(
            s,
            fleet,
            params,
            up,
            round,
            (k - 1) as nat,
            i,
        );
        let a = spray_round::originations(s, fleet, params, up, round, (k - 1) as nat).nodes;
        let b = spray_round::originations(s, fleet, params, up, round, k).nodes;
        if i == k - 1 && spray_round::may_originate(a[i], fleet[i].id, params, round) {
            assert(b[i].held[a[i].held.len() as int].origin_id == fleet[i].id);
        }
    }
}

/// Nobody shares out of turn: a balloon that is asleep, in range of a tower, alone, or
/// down to single copies hands nothing over and keeps what it has.
pub proof fn nobody_shares_out_of_turn(
    g: SprayGather,
    topo: Topology,
    up: Seq<bool>,
    picks: Seq<u64>,
    i: int,
)
    requires
        0 <= i < g.s.nodes.len(),
        !up[i] || topo.tower_of(i) is Some || topo.neighbors_of(i).len() == 0 || forall|x: int|
            0 <= x < g.s.nodes[i].held.len() ==> (#[trigger] g.s.nodes[i].held[x]).copies <= 1,
    ensures
        spray_round::sprayed(g, topo, up, picks, i) == g,
{
    spread_laws::lemma_share_place(g.s.nodes[i].held, 0);
}

} // verus!
