//! Who wakes, and when next.
use vstd::prelude::*;

use super::beacon;
use super::linkstate;
use super::params::DvDtnParams;
use super::NodeModel;

verus! {

/// Those awake in a round are the nodes whose slot has come, each of them once
/// and in order.
pub proof fn all_who_are_due_wake(nodes: Seq<NodeModel>, k: nat, round: u64)
    requires
        k <= nodes.len() <= usize::MAX,
    ensures
        ({
            let awake = beacon::awake_of(nodes, k, round);
            &&& forall|a: int, b: int|
                0 <= a < b < awake.len() ==> (#[trigger] awake[a]) < (#[trigger] awake[b])
            &&& forall|a: int|
                0 <= a < awake.len() ==> (#[trigger] awake[a]) < k && round
                    >= nodes[awake[a] as int].next_beacon_round
            &&& forall|i: int|
                0 <= i < k && round >= (#[trigger] nodes[i]).next_beacon_round ==> awake.contains(
                    i as usize,
                )
        }),
    decreases k,
{
    linkstate::lemma_awake_rises(nodes, k, round);
    if k > 0 {
        all_who_are_due_wake(nodes, (k - 1) as nat, round);
        let before = beacon::awake_of(nodes, (k - 1) as nat, round);
        let awake = beacon::awake_of(nodes, k, round);
        assert forall|i: int|
            0 <= i < k && round >= (#[trigger] nodes[i]).next_beacon_round implies awake.contains(
            i as usize,
        ) by {
            if i < k - 1 {
                let x = before.index_of(i as usize);
                assert(awake[x] == i);
            } else {
                assert(awake[awake.len() - 1] == i);
            }
        }
    }
}

/// A node that wakes sleeps on average for its interval, and within the jitter
/// of it: the next slot is later than this one, and unless that makes it later
/// it is no further from the interval than the jitter. A node that sleeps on
/// keeps its slot.
pub proof fn the_next_slot_is_an_interval_off(
    n: NodeModel,
    params: DvDtnParams,
    round: u64,
    draw: u64,
)
    requires
        draw <= 2 * params.beacon_jitter_rounds,
        round + params.beacon_interval_rounds + params.beacon_jitter_rounds + 1 <= u64::MAX,
    ensures
        ({
            let next = beacon::rescheduled(n, params, round, draw).next_beacon_round;
            &&& round < n.next_beacon_round ==> next == n.next_beacon_round
            &&& round >= n.next_beacon_round ==> {
                &&& next >= round + 1
                &&& next + params.beacon_jitter_rounds >= round + params.beacon_interval_rounds
                &&& next == round + 1 || next <= round + params.beacon_interval_rounds
                    + params.beacon_jitter_rounds
            }
        }),
        // Every length of sleep in between comes with some draw.
        round >= n.next_beacon_round && draw < 2 * params.beacon_jitter_rounds
            && params.beacon_interval_rounds > params.beacon_jitter_rounds ==> beacon::rescheduled(
            n,
            params,
            round,
            (draw + 1) as u64,
        ).next_beacon_round == beacon::rescheduled(n, params, round, draw).next_beacon_round + 1,
{
}

} // verus!
