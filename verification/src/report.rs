//! Where a delivery run's wake slots went, and whether everything it started
//! came to an end.
use vstd::prelude::*;
use vstd::string::*;

use crate::config;
use crate::protocol::dv_dtn::bundle_stats;
use crate::protocol::dv_dtn::bundle_stats::BundleStats;
use crate::protocol::dv_dtn::params::DvDtnParams;
use crate::protocol::stats;
use crate::protocol::stats::Ratio;
use crate::text;

verus! {

/// A count and its hundredfold share.
#[derive(Debug, Clone, Copy, PartialEq, Eq, Structural)]
pub struct Part {
    pub count: u64,
    pub percent: Ratio,
}

/// A count as a part of another.
pub open spec fn part_of(count: u64, of: u64) -> Part {
    Part { count, percent: stats::share(100 * count as nat, of as nat) }
}

fn part(count: u64, of: u64) -> (p: Part)
    ensures
        p == part_of(count, of),
{
    Part {
        count,
        percent: if of == 0 {
            Ratio { num: 0, den: 1 }
        } else {
            Ratio { num: 100 * (count as u128), den: of as u128 }
        },
    }
}

/// The slot budget, broken down.
#[derive(Debug)]
pub struct SlotReport {
    /// Wake slots in a bundle's life.
    pub budget: u64,
    /// Wake slots with a bundle in hand.
    pub held_slots: u64,
    pub stall_rate: Ratio,
    pub moved: Part,
    pub no_belief: Part,
    pub stale_next_hop: Part,
    pub tower_gone: Part,
    pub blocked: Part,
    pub tower_adjacent: Ratio,
    /// What the last hop could pass per round.
    pub ceiling: Ratio,
    pub originated_per_round: Ratio,
    pub delivered_per_round: Ratio,
    pub ceiling_utilisation: Ratio,
    pub believed_depth: Ratio,
    pub delivered_depth: Ratio,
    pub satellite_depth: Ratio,
    pub belief_histogram: String,
    pub delivered_histogram: String,
    pub satellite_histogram: String,
    pub acked: Part,
    pub ack_lost: Part,
    /// Delivered, and the ack neither home nor lost.
    pub owed: u64,
}

/// The filled places among the first `k` of a histogram.
pub open spec fn histogram_text(h: Seq<u64>, k: nat) -> Seq<char>
    decreases k,
{
    if k == 0 {
        Seq::empty()
    } else {
        let before = histogram_text(h, (k - 1) as nat);
        if h[k - 1] > 0 {
            before + " "@ + text::decimal((k - 1) as nat) + ":"@ + text::decimal(h[k - 1] as nat)
        } else {
            before
        }
    }
}

fn histogram(h: &[u64; 32]) -> (s: String)
    ensures
        s@ == histogram_text(h@, 21),
{
    let mut s: String = String::new();
    let mut k: usize = 0;
    while k < 21
        invariant
            k <= 21,
            s@ == histogram_text(h@, k as nat),
        decreases 21 - k,
    {
        if h[k] > 0 {
            s.append(" ");
            text::push_decimal(&mut s, k as u64);
            s.append(":");
            text::push_decimal(&mut s, h[k]);
        }
        k += 1;
    }
    s
}

/// Acks that are still due.
pub open spec fn still_owed(st: BundleStats) -> int {
    if st.delivered >= st.acked + st.ack_lost {
        st.delivered - (st.acked + st.ack_lost)
    } else {
        0
    }
}

/// Whether a report says where the slots went.
pub open spec fn reports(r: SlotReport, st: BundleStats, params: DvDtnParams) -> bool {
    let held = st.slots_with_bundle;
    &&& r.budget == config::BUNDLE_MAX_AGE_ROUNDS / config::BEACON_INTERVAL_ROUNDS
    &&& r.held_slots == held
    &&& r.stall_rate == stats::share((held - st@.used()) as nat, held as nat)
    &&& r.moved == part_of(st@.used() as u64, held)
    &&& r.no_belief == part_of(st.stall_no_belief, held)
    &&& r.stale_next_hop == part_of(st.stall_stale_next_hop, held)
    &&& r.tower_gone == part_of(st.stall_tower_gone, held)
    &&& r.blocked == part_of(st.blocked, held)
    &&& r.tower_adjacent == stats::share(
        st.tower_adjacent_samples as nat,
        st.rounds_sampled as nat,
    )
    &&& r.ceiling == stats::share(
        st.tower_adjacent_samples as nat * params.batch.tower_contact as nat,
        st.rounds_sampled as nat * params.beacon_interval_rounds as nat,
    )
    &&& r.originated_per_round == stats::share(st.originated as nat, st.rounds_sampled as nat)
    &&& r.delivered_per_round == stats::share(st.delivered as nat, st.rounds_sampled as nat)
    &&& r.ceiling_utilisation == bundle_stats::utilisation(st, params)
    &&& r.believed_depth == stats::share(
        bundle_stats::hist_weight(st.belief_hops@, 32),
        bundle_stats::hist_count(st.belief_hops@, 32),
    )
    &&& r.delivered_depth == stats::share(
        bundle_stats::hist_weight(st.delivered_hops@, 32),
        bundle_stats::hist_count(st.delivered_hops@, 32),
    )
    &&& r.satellite_depth == stats::share(
        bundle_stats::hist_weight(st.satellite_hops@, 32),
        bundle_stats::hist_count(st.satellite_hops@, 32),
    )
    &&& r.belief_histogram@ == histogram_text(st.belief_hops@, 21)
    &&& r.delivered_histogram@ == histogram_text(st.delivered_hops@, 21)
    &&& r.satellite_histogram@ == histogram_text(st.satellite_hops@, 21)
    &&& r.acked == part_of(st.acked, st.delivered)
    &&& r.ack_lost == part_of(st.ack_lost, st.delivered)
    &&& r.owed == still_owed(st)
}

/// Where the slots went.
pub fn report_slots(st: &BundleStats, params: &DvDtnParams) -> (r: SlotReport)
    requires
        st@.stalls() <= u64::MAX,
        params.beacon_interval_rounds > 0,
    ensures
        reports(r, *st, *params),
{
    let held: u64 = st.slots_with_bundle;
    SlotReport {
        budget: config::BUNDLE_MAX_AGE_ROUNDS / config::BEACON_INTERVAL_ROUNDS,
        held_slots: held,
        stall_rate: st.stall_rate(),
        moved: part(st.slots_used(), held),
        no_belief: part(st.stall_no_belief, held),
        stale_next_hop: part(st.stall_stale_next_hop, held),
        tower_gone: part(st.stall_tower_gone, held),
        blocked: part(st.blocked, held),
        tower_adjacent: st.mean_tower_adjacent(),
        ceiling: st.delivery_capacity_per_round(params),
        originated_per_round: stats::ratio(st.originated, st.rounds_sampled),
        delivered_per_round: stats::ratio(st.delivered, st.rounds_sampled),
        ceiling_utilisation: st.ceiling_utilisation(params),
        believed_depth: bundle_stats::hist_mean(&st.belief_hops),
        delivered_depth: bundle_stats::hist_mean(&st.delivered_hops),
        satellite_depth: bundle_stats::hist_mean(&st.satellite_hops),
        belief_histogram: histogram(&st.belief_hops),
        delivered_histogram: histogram(&st.delivered_hops),
        satellite_histogram: histogram(&st.satellite_hops),
        acked: part(st.acked, st.delivered),
        ack_lost: part(st.ack_lost, st.delivered),
        owed: st.delivered.saturating_sub(st.acked.saturating_add(st.ack_lost)),
    }
}

/// What is left over once a run has drained.
#[derive(Debug, Clone, Copy, PartialEq, Eq, Structural)]
pub struct Remainder {
    /// Bundles originated that neither left circulation nor are being carried.
    pub unaccounted: i128,
    pub in_flight: u64,
    /// Delivered bundles whose ack is neither settled nor under way.
    pub acks_unaccounted: i128,
    pub acks_in_flight: u64,
}

/// What is left over of a run, given what is still being carried.
pub fn remainder(st: &BundleStats, in_flight: u64, acks_in_flight: u64) -> (r: Remainder)
    ensures
        r.unaccounted == st.originated - st@.resolved() - in_flight,
        r.in_flight == in_flight,
        r.acks_unaccounted == st.delivered - (st.acked + st.ack_lost) - acks_in_flight,
        r.acks_in_flight == acks_in_flight,
{
    Remainder {
        unaccounted: st.originated as i128 - st.delivered as i128 - st.dropped_loop as i128
            - st.dropped_ttl as i128 - st.satellite as i128 - in_flight as i128,
        in_flight,
        acks_unaccounted: st.delivered as i128 - st.acked as i128 - st.ack_lost as i128
            - acks_in_flight as i128,
        acks_in_flight,
    }
}

impl Remainder {
    /// Whether nothing leaked and nothing is stuck.
    pub fn clean(&self) -> (r: bool)
        ensures
            r == (self.unaccounted == 0 && self.in_flight == 0 && self.acks_unaccounted == 0
                && self.acks_in_flight == 0),
    {
        self.unaccounted == 0 && self.in_flight == 0 && self.acks_unaccounted == 0
            && self.acks_in_flight == 0
    }
}

/// The parts of a report make up the whole: the slots that moved a bundle and those
/// that stalled are all the slots in hand, and what is owed is what was delivered and
/// neither heard of nor lost.
pub proof fn the_parts_make_up_the_whole(r: SlotReport, st: BundleStats, params: DvDtnParams)
    requires
        reports(r, st, params),
        st.slots_with_bundle >= st.stall_no_belief + st.stall_stale_next_hop + st.stall_tower_gone
            + st.blocked,
        st.delivered >= st.acked + st.ack_lost,
    ensures
        r.moved.count + r.no_belief.count + r.stale_next_hop.count + r.tower_gone.count
            + r.blocked.count == r.held_slots,
        r.owed + r.acked.count + r.ack_lost.count == st.delivered,
{
}

} // verus!
