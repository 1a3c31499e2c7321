//! Whether a protocol can take a round: whether its counters, dates and
//! sequence numbers leave room for one more.
use std::collections::HashMap;

use vstd::prelude::*;

use super::dv_dtn::aodv_round;
use super::dv_dtn::beacon;
use super::dv_dtn::beacon::TowerBeacon;
use super::dv_dtn::bundle_round;
use super::dv_dtn::bundle_stats;
use super::dv_dtn::bundle_stats::BundleStats;
use super::dv_dtn::dv_round;
use super::dv_dtn::linkstate;
use super::dv_dtn::params::{Discovery, DvDtnParams, RingSearch};
use super::dv_dtn::{aodv, DvDtn, NodeModel};
use super::epidemic;
use super::epidemic::spray_round;
use super::epidemic::spray_round::EpiModel;
use super::epidemic::Epidemic;
use super::mesh::MeshProtocol;
use super::StepCtx;

verus! {

fn schedule_ready(round: u64, interval: u64, jitter: u64) -> (r: bool)
    ensures
        r == beacon::schedule_fits(round, interval, jitter),
{
    (interval as u128) + 2 * (jitter as u128) <= 0x7fff_ffff_ffff_ffff && (round as u128) + (
    interval as u128) + (jitter as u128) + 1 <= 0xffff_ffff_ffff_ffff
}

fn histogram_ready(h: &[u64; 32], w: u64) -> (r: bool)
    ensures
        r == bundle_stats::hist_room(h@, w as int),
{
    let mut k: usize = 0;
    while k < 32
        invariant
            k <= 32,
            forall|x: int| 0 <= x < k ==> #[trigger] h@[x] + w <= u64::MAX,
        decreases 32 - k,
    {
        if h[k] > u64::MAX - w {
            assert(h@[k as int] + w > u64::MAX);
            return false;
        }
        k += 1;
    }
    true
}

fn counters_ready(st: &BundleStats, w: u64) -> (r: bool)
    ensures
        r == st@.room(w as int),
{
    let top: u64 = u64::MAX - w;
    st.originated <= top && st.delivered <= top && st.dropped_loop <= top && st.dropped_ttl <= top
        && st.satellite <= top && st.blocked <= top && st.acked <= top && st.ack_lost <= top
        && st.slots_with_bundle <= top && st.stall_no_belief <= top && st.stall_stale_next_hop
        <= top && st.stall_tower_gone <= top && st.tower_adjacent_samples <= top
        && st.rounds_sampled <= top && histogram_ready(&st.delivered_hops, w) && histogram_ready(
        &st.satellite_hops,
        w,
    ) && histogram_ready(&st.belief_hops, w)
}

proof fn lemma_seen_sums(nodes: Seq<NodeModel>, n: int, k: nat)
    requires
        k <= n <= nodes.len(),
    ensures
        bundle_round::queued(nodes.take(n), k) == bundle_round::queued(nodes, k),
        bundle_round::acks_held(nodes.take(n), k) == bundle_round::acks_held(nodes, k),
    decreases k,
{
    if k > 0 {
        lemma_seen_sums(nodes, n, (k - 1) as nat);
    }
}

proof fn lemma_sums_grow(nodes: Seq<NodeModel>, a: nat, b: nat)
    requires
        a <= b,
    ensures
        bundle_round::queued(nodes, a) <= bundle_round::queued(nodes, b),
        bundle_round::acks_held(nodes, a) <= bundle_round::acks_held(nodes, b),
    decreases b - a,
{
    if a < b {
        lemma_sums_grow(nodes, a, (b - 1) as nat);
    }
}

/// The ids of the towers there is state for.
fn tower_ids(towers: &HashMap<u32, TowerBeacon>) -> (r: Vec<u32>)
    ensures
        r@.to_set() == towers@.dom(),
{
    broadcast use vstd::std_specs::hash::group_hash_axioms;

    let mut r: Vec<u32> = Vec::new();
    for id in it: towers.keys()
        invariant
            it.seq().unref().to_set() == towers@.dom(),
            r@ =~= it.seq().unref().take(it.index() as int),
            it.index() == it.seq().len() ==> r@.to_set() == towers@.dom(),
    {
        r.push(*id);
        assert(it.index() + 1 == it.seq().len() ==> r@ =~= it.seq().unref());
    }
    r
}

fn waves_ready(towers: &HashMap<u32, TowerBeacon>, n: usize) -> (r: bool)
    ensures
        r == beacon::waves_fit(beacon::tower_models(towers@), n as nat),
{
    broadcast use vstd::std_specs::hash::group_hash_axioms;

    let top: u64 = u64::MAX - n as u64;
    let ids: Vec<u32> = tower_ids(towers);
    let ghost m = beacon::tower_models(towers@);
    let mut k: usize = 0;
    while k < ids.len()
        invariant
            k <= ids@.len(),
            top == u64::MAX - n,
            m == beacon::tower_models(towers@),
            ids@.to_set() == towers@.dom(),
            forall|x: int| 0 <= x < k ==> (#[trigger] m[ids@[x]]).epoch <= top,
        decreases ids@.len() - k,
    {
        broadcast use vstd::std_specs::hash::group_hash_axioms;

        let id: u32 = ids[k];
        assert(ids@.to_set().contains(ids@[k as int]));
        if let Some(t) = towers.get(&id) {
            if t.epoch > top {
                assert(m[id].epoch + n > u64::MAX);
                return false;
            }
        }
        k += 1;
    }
    assert forall|id: u32| m.contains_key(id) implies (#[trigger] m[id]).epoch + n <= u64::MAX by {
        assert(ids@.to_set().contains(id));
        let x = ids@.index_of(id);
        assert(m[ids@[x]].epoch <= top);
    }
    true
}

fn hunt_ready(state: &aodv::State, params: &DvDtnParams, round: u64) -> (r: bool)
    ensures
        r == aodv_round::hunt_fits(state@, *params, round),
{
    if !schedule_ready(round, params.beacon_interval_rounds, params.beacon_jitter_rounds) {
        return false;
    }
    if params.ring_search == RingSearch::Expanding && params.beacon_max_hops < 1 {
        return false;
    }
    let mut i: usize = 0;
    while i < state.nodes.len()
        invariant
            i <= state.nodes@.len(),
            forall|x: int|
                0 <= x < i ==> (#[trigger] state@[x]).next_rreq_id < u64::MAX
                    && aodv_round::small_replies(state@[x].replies),
        decreases state.nodes@.len() - i,
    {
        assert(state@[i as int] == state.nodes@[i as int]@);
        if state.nodes[i].next_rreq_id == u64::MAX {
            return false;
        }
        let mut j: usize = 0;
        while j < state.nodes[i].replies.len()
            invariant
                i < state.nodes@.len(),
                state@[i as int] == state.nodes@[i as int]@,
                j <= state.nodes@[i as int].replies@.len(),
                forall|y: int|
                    0 <= y < j ==> (#[trigger] state.nodes@[i as int].replies@[y]).hops < u32::MAX,
            decreases state.nodes@[i as int].replies@.len() - j,
        {
            if state.nodes[i].replies[j].hops == u32::MAX {
                assert(state@[i as int].replies[j as int].hops == u32::MAX);
                return false;
            }
            j += 1;
        }
        i += 1;
    }
    true
}

fn gossip_ready(state: &linkstate::State, params: &DvDtnParams, round: u64) -> (r: bool)
    ensures
        r == linkstate::gossip_fits(state@, *params, round),
{
    if !schedule_ready(round, params.beacon_interval_rounds, params.beacon_jitter_rounds) {
        return false;
    }
    let mut i: usize = 0;
    while i < state.nodes.len()
        invariant
            i <= state.nodes@.len(),
            forall|x: int| 0 <= x < i ==> (#[trigger] state@.nodes[x]).seq < u64::MAX,
        decreases state.nodes@.len() - i,
    {
        assert(state@.nodes[i as int] == state.nodes@[i as int]@);
        if state.nodes[i].seq == u64::MAX {
            return false;
        }
        i += 1;
    }
    true
}

impl DvDtn {
    /// What a round over the first `n` nodes can add to any one counter, if
    /// that can be told at all.
    fn round_load(&self, n: usize) -> (r: Option<u64>)
        requires
            n <= self.nodes@.len(),
        ensures
            match r {
                Some(w) => w == dv_round::load(self@.nodes.take(n as int)),
                None => dv_round::load(self@.nodes.take(n as int)) > u64::MAX,
            },
    {
        let ghost nodes = self@.nodes;
        proof {
            lemma_seen_sums(nodes, n as int, n as nat);
        }
        let mut bundles: u128 = 0;
        let mut acks: u128 = 0;
        let mut i: usize = 0;
        while i < n
            invariant
                i <= n,
                n <= nodes.len(),
                nodes == self@.nodes,
                bundles == bundle_round::queued(nodes, i as nat),
                acks == bundle_round::acks_held(nodes, i as nat),
                bundles <= u64::MAX,
                acks <= u64::MAX,
                bundle_round::queued(nodes.take(n as int), n as nat) == bundle_round::queued(
                    nodes,
                    n as nat,
                ),
                bundle_round::acks_held(nodes.take(n as int), n as nat)
                    == bundle_round::acks_held(nodes, n as nat),
            decreases n - i,
        {
            assert(nodes[i as int] == self.nodes@[i as int]@);
            proof {
                lemma_sums_grow(nodes, (i + 1) as nat, n as nat);
            }
            bundles = bundles + self.nodes[i].queue.len() as u128;
            acks = acks + self.nodes[i].ack_queue.len() as u128;
            if bundles > 0xffff_ffff_ffff_ffff || acks > 0xffff_ffff_ffff_ffff {
                return None;
            }
            i += 1;
        }
        let sum: u128 = 3 * bundles + acks + 8 * (n as u128) + 1;
        if sum > 0xffff_ffff_ffff_ffff {
            None
        } else {
            Some(sum as u64)
        }
    }

    fn numbers_ready(&self, n: usize) -> (r: bool)
        requires
            n <= self.nodes@.len(),
        ensures
            r == forall|i: int|
                0 <= i < n ==> (#[trigger] self@.nodes[i]).bundle_seq + n <= u64::MAX,
    {
        let mut i: usize = 0;
        while i < n
            invariant
                i <= n,
                n <= self.nodes@.len(),
                forall|x: int|
                    0 <= x < i ==> (#[trigger] self@.nodes[x]).bundle_seq + n <= u64::MAX,
            decreases n - i,
        {
            assert(self@.nodes[i as int] == self.nodes@[i as int]@);
            if self.nodes[i].bundle_seq > u64::MAX - n as u64 {
                assert(self@.nodes[i as int].bundle_seq + n > u64::MAX);
                return false;
            }
            i += 1;
        }
        true
    }

    /// Whether a round can be taken.
    pub fn can_step(&self, ctx: StepCtx<'_>) -> (r: bool)
        ensures
            r == dv_round::dv_fits(
                self@,
                ctx.balloons@,
                ctx.towers@,
                self.params,
                ctx.round,
            ),
    {
        let n: usize = ctx.balloons.len();
        if n > self.nodes.len() {
            return false;
        }
        let found: bool = match self.params.discovery {
            Discovery::Proactive => schedule_ready(
                ctx.round,
                self.params.beacon_interval_rounds,
                self.params.beacon_jitter_rounds,
            ) && waves_ready(&self.towers, ctx.towers.len()),
            Discovery::Reactive => hunt_ready(&self.aodv, &self.params, ctx.round),
            Discovery::LinkState => gossip_ready(&self.linkstate, &self.params, ctx.round),
        };
        if !found {
            return false;
        }
        match self.round_load(n) {
            Some(w) => counters_ready(&self.stats, w) && self.numbers_ready(n) && ctx.round
                <= u64::MAX - self.params.bundle_interval_rounds,
            None => false,
        }
    }
}

impl Epidemic {
    /// Whether a round can be taken.
    pub fn can_step(&self, ctx: StepCtx<'_>) -> (r: bool)
        ensures
            r == spray_round::round_fits(self.state(), self.params, ctx.round),
    {
        let ghost nodes = epidemic::models(self.nodes@);
        let n: usize = self.nodes.len();
        let mut held: u128 = 0;
        let mut i: usize = 0;
        while i < n
            invariant
                i <= n,
                n == self.nodes@.len(),
                nodes == epidemic::models(self.nodes@),
                held == spray_round::copies_held(nodes, i as nat),
                held <= u64::MAX,
                forall|x: int| 0 <= x < i ==> (#[trigger] nodes[x]).bundle_seq < u64::MAX,
            decreases n - i,
        {
            assert(nodes[i as int] == self.nodes@[i as int]@);
            proof {
                lemma_held_grows(nodes, (i + 1) as nat, n as nat);
            }
            if self.nodes[i].bundle_seq == u64::MAX {
                return false;
            }
            held = held + self.nodes[i].held.len() as u128;
            if held > 0xffff_ffff_ffff_ffff {
                return false;
            }
            i += 1;
        }
        let w: u128 = 2 * held + 3 * (n as u128);
        if w > 0xffff_ffff_ffff_ffff {
            return false;
        }
        let top: u64 = u64::MAX - w as u64;
        let st: &epidemic::stats::EpidemicStats = &self.stats;
        st.originated <= top && st.delivered <= top && st.duplicate_arrivals <= top && st.satellite
            <= top && st.copies_expired <= top && st.handoffs <= top && st.blocked <= top
            && st.no_candidate <= top && ctx.round <= u64::MAX - self.params.bundle_interval_rounds
            && schedule_ready(
            ctx.round,
            self.params.wake_interval_rounds,
            self.params.wake_jitter_rounds,
        )
    }
}

proof fn lemma_held_grows(nodes: Seq<EpiModel>, a: nat, b: nat)
    requires
        a <= b,
    ensures
        spray_round::copies_held(nodes, a) <= spray_round::copies_held(nodes, b),
    decreases b - a,
{
    if a < b {
        lemma_held_grows(nodes, a, (b - 1) as nat);
    }
}

impl MeshProtocol {
    /// Whether a round can be taken.
    pub fn can_step(&self, ctx: StepCtx<'_>) -> (r: bool)
        ensures
            r == self.fits(ctx@),
    {
        match self {
            MeshProtocol::DvDtn(d) => d.can_step(ctx),
            MeshProtocol::Epidemic(e) => e.can_step(ctx),
        }
    }
}

} // verus!
