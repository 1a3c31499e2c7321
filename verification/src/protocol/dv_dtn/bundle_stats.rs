//! Counters and histograms of the delivery logic.
use vstd::prelude::*;

use crate::protocol::stats;
use crate::protocol::stats::{LatencyStats, Ratio};

use super::params::DvDtnParams;

verus! {

/// Buckets of a hop histogram.
pub const HOP_BUCKETS: usize = 32;

/// Cumulative outcomes. Every bundle that leaves circulation lands in exactly
/// one of `delivered`, `dropped_loop`, `dropped_ttl` and `satellite`.
#[derive(Debug, Clone, Copy)]
pub struct BundleStats {
    pub originated: u64,
    pub delivered: u64,
    pub dropped_loop: u64,
    pub dropped_ttl: u64,
    /// Bundles that aged out before reaching a tower and went to satellite.
    pub satellite: u64,
    /// Handoffs refused by a full receiver. The sender keeps the bundle.
    pub blocked: u64,
    /// Acks that completed the full reverse path.
    pub acked: u64,
    /// Acks that aged out, or were dropped by a full ack queue.
    pub ack_lost: u64,
    /// Wake slots where the holder had at least one bundle in hand.
    pub slots_with_bundle: u64,
    /// ...of which the holder had no route belief at all.
    pub stall_no_belief: u64,
    /// ...of which the believed next hop was no longer a neighbour.
    pub stall_stale_next_hop: u64,
    /// ...of which the balloon believed it could hear a tower, but couldn't.
    pub stall_tower_gone: u64,
    /// Hops travelled by bundles that reached a tower.
    pub delivered_hops: [u64; 32],
    /// Hops travelled before going to satellite.
    pub satellite_hops: [u64; 32],
    /// Believed distance-to-tower, sampled once per wake slot per balloon.
    pub belief_hops: [u64; 32],
    /// Summed over rounds: balloons with a tower in radio range.
    pub tower_adjacent_samples: u64,
    /// Rounds over which the above was sampled.
    pub rounds_sampled: u64,
    /// Origination to tower.
    pub delivery_latency: LatencyStats,
    /// Origination to the origin finding out.
    pub ack_latency: LatencyStats,
    /// Origination to leaving the origin's queue.
    pub first_hop_latency: LatencyStats,
}

/// The mathematical content of a `BundleStats`.
#[verifier::ext_equal]
pub struct Tally {
    pub originated: int,
    pub delivered: int,
    pub dropped_loop: int,
    pub dropped_ttl: int,
    pub satellite: int,
    pub blocked: int,
    pub acked: int,
    pub ack_lost: int,
    pub slots_with_bundle: int,
    pub stall_no_belief: int,
    pub stall_stale_next_hop: int,
    pub stall_tower_gone: int,
    pub delivered_hops: Seq<u64>,
    pub satellite_hops: Seq<u64>,
    pub belief_hops: Seq<u64>,
    pub tower_adjacent_samples: int,
    pub rounds_sampled: int,
    pub delivery_latency: LatencyStats,
    pub ack_latency: LatencyStats,
    pub first_hop_latency: LatencyStats,
}

impl View for BundleStats {
    type V = Tally;

    open spec fn view(&self) -> Tally {
        Tally {
            originated: self.originated as int,
            delivered: self.delivered as int,
            dropped_loop: self.dropped_loop as int,
            dropped_ttl: self.dropped_ttl as int,
            satellite: self.satellite as int,
            blocked: self.blocked as int,
            acked: self.acked as int,
            ack_lost: self.ack_lost as int,
            slots_with_bundle: self.slots_with_bundle as int,
            stall_no_belief: self.stall_no_belief as int,
            stall_stale_next_hop: self.stall_stale_next_hop as int,
            stall_tower_gone: self.stall_tower_gone as int,
            delivered_hops: self.delivered_hops@,
            satellite_hops: self.satellite_hops@,
            belief_hops: self.belief_hops@,
            tower_adjacent_samples: self.tower_adjacent_samples as int,
            rounds_sampled: self.rounds_sampled as int,
            delivery_latency: self.delivery_latency,
            ack_latency: self.ack_latency,
            first_hop_latency: self.first_hop_latency,
        }
    }
}

/// A histogram after one more sample: the bucket of `n` grows by one, and
/// everything past the last bucket counts in the last.
pub open spec fn bumped(hist: Seq<u64>, n: int) -> Seq<u64> {
    let k = if n < 31 {
        n
    } else {
        31
    };
    hist.update(k, (hist[k] + 1) as u64)
}

/// Whether every bucket can take `w` more samples.
pub open spec fn hist_room(hist: Seq<u64>, w: int) -> bool {
    forall|k: int| 0 <= k < hist.len() ==> #[trigger] hist[k] + w <= u64::MAX
}

/// Whether no bucket has shrunk, nor grown by more than `w`.
pub open spec fn hist_grown(a: Seq<u64>, b: Seq<u64>, w: int) -> bool {
    &&& a.len() == b.len()
    &&& forall|k: int| 0 <= k < a.len() ==> a[k] <= #[trigger] b[k] <= a[k] + w
}

pub fn bump(hist: &mut [u64; 32], n: usize)
    requires
        hist_room(old(hist)@, 1),
    ensures
        final(hist)@ == bumped(old(hist)@, n as int),
        hist_grown(old(hist)@, final(hist)@, 1),
{
    let k: usize = if n < 31 {
        n
    } else {
        31
    };
    let ghost before = hist@;
    assert(before[k as int] + 1 <= u64::MAX);
    let grown: u64 = hist[k] + 1;
    hist[k] = grown;
    assert(hist@ =~= bumped(before, n as int));
}

impl Tally {
    /// Whether every counter can grow by `w` and still fit its type.
    pub open spec fn room(self, w: int) -> bool {
        &&& self.originated + w <= u64::MAX
        &&& self.delivered + w <= u64::MAX
        &&& self.dropped_loop + w <= u64::MAX
        &&& self.dropped_ttl + w <= u64::MAX
        &&& self.satellite + w <= u64::MAX
        &&& self.blocked + w <= u64::MAX
        &&& self.acked + w <= u64::MAX
        &&& self.ack_lost + w <= u64::MAX
        &&& self.slots_with_bundle + w <= u64::MAX
        &&& self.stall_no_belief + w <= u64::MAX
        &&& self.stall_stale_next_hop + w <= u64::MAX
        &&& self.stall_tower_gone + w <= u64::MAX
        &&& self.tower_adjacent_samples + w <= u64::MAX
        &&& self.rounds_sampled + w <= u64::MAX
        &&& hist_room(self.delivered_hops, w)
        &&& hist_room(self.satellite_hops, w)
        &&& hist_room(self.belief_hops, w)
    }

    /// Whether no counter of `later` has shrunk, nor grown by more than `w`.
    pub open spec fn grown(self, later: Tally, w: int) -> bool {
        &&& self.originated <= later.originated <= self.originated + w
        &&& self.delivered <= later.delivered <= self.delivered + w
        &&& self.dropped_loop <= later.dropped_loop <= self.dropped_loop + w
        &&& self.dropped_ttl <= later.dropped_ttl <= self.dropped_ttl + w
        &&& self.satellite <= later.satellite <= self.satellite + w
        &&& self.blocked <= later.blocked <= self.blocked + w
        &&& self.acked <= later.acked <= self.acked + w
        &&& self.ack_lost <= later.ack_lost <= self.ack_lost + w
        &&& self.slots_with_bundle <= later.slots_with_bundle <= self.slots_with_bundle + w
        &&& self.stall_no_belief <= later.stall_no_belief <= self.stall_no_belief + w
        &&& self.stall_stale_next_hop <= later.stall_stale_next_hop <= self.stall_stale_next_hop + w
        &&& self.stall_tower_gone <= later.stall_tower_gone <= self.stall_tower_gone + w
        &&& self.tower_adjacent_samples <= later.tower_adjacent_samples
            <= self.tower_adjacent_samples + w
        &&& self.rounds_sampled <= later.rounds_sampled <= self.rounds_sampled + w
        &&& hist_grown(self.delivered_hops, later.delivered_hops, w)
        &&& hist_grown(self.satellite_hops, later.satellite_hops, w)
        &&& hist_grown(self.belief_hops, later.belief_hops, w)
    }

    /// Bundles that have left circulation, however they left.
    pub open spec fn resolved(self) -> int {
        self.delivered + self.dropped_loop + self.dropped_ttl + self.satellite
    }
}

/// Growth adds up.
pub proof fn lemma_growth_adds_up(a: Tally, b: Tally, c: Tally, v: int, w: int)
    requires
        a.grown(b, v),
        b.grown(c, w),
    ensures
        a.grown(c, v + w),
{
    lemma_hist_growth_adds_up(a.delivered_hops, b.delivered_hops, c.delivered_hops, v, w);
    lemma_hist_growth_adds_up(a.satellite_hops, b.satellite_hops, c.satellite_hops, v, w);
    lemma_hist_growth_adds_up(a.belief_hops, b.belief_hops, c.belief_hops, v, w);
}

proof fn lemma_hist_growth_adds_up(a: Seq<u64>, b: Seq<u64>, c: Seq<u64>, v: int, w: int)
    requires
        hist_grown(a, b, v),
        hist_grown(b, c, w),
    ensures
        hist_grown(a, c, v + w),
{
    assert forall|k: int| 0 <= k < a.len() implies a[k] <= #[trigger] c[k] <= a[k] + (v + w) by {
        assert(b[k] <= c[k] <= b[k] + w);
    }
}

/// What has grown by at most `v` still has the rest of its room.
pub proof fn lemma_room_left(a: Tally, b: Tally, v: int, w: int)
    requires
        a.room(v + w),
        a.grown(b, v),
    ensures
        b.room(w),
{
    lemma_hist_room_left(a.delivered_hops, b.delivered_hops, v, w);
    lemma_hist_room_left(a.satellite_hops, b.satellite_hops, v, w);
    lemma_hist_room_left(a.belief_hops, b.belief_hops, v, w);
}

proof fn lemma_hist_room_left(a: Seq<u64>, b: Seq<u64>, v: int, w: int)
    requires
        hist_room(a, v + w),
        hist_grown(a, b, v),
    ensures
        hist_room(b, w),
{
    assert forall|k: int| 0 <= k < b.len() implies #[trigger] b[k] + w <= u64::MAX by {
        assert(a[k] + (v + w) <= u64::MAX);
    }
}

/// Less growth than allowed is allowed, and less room than there is is there.
pub proof fn lemma_growth_weakens(a: Tally, b: Tally, v: int, w: int)
    requires
        v <= w,
    ensures
        a.grown(b, v) ==> a.grown(b, w),
        a.room(w) ==> a.room(v),
{
    if a.grown(b, v) {
        assert(hist_grown(a.delivered_hops, b.delivered_hops, w));
        assert(hist_grown(a.satellite_hops, b.satellite_hops, w));
        assert(hist_grown(a.belief_hops, b.belief_hops, w));
    }
    if a.room(w) {
        assert forall|k: int| 0 <= k < a.delivered_hops.len() implies
            #[trigger] a.delivered_hops[k] + v <= u64::MAX by {
            assert(a.delivered_hops[k] + w <= u64::MAX);
        }
        assert forall|k: int| 0 <= k < a.satellite_hops.len() implies
            #[trigger] a.satellite_hops[k] + v <= u64::MAX by {
            assert(a.satellite_hops[k] + w <= u64::MAX);
        }
        assert forall|k: int| 0 <= k < a.belief_hops.len() implies
            #[trigger] a.belief_hops[k] + v <= u64::MAX by {
            assert(a.belief_hops[k] + w <= u64::MAX);
        }
    }
}

/// A tally before anything has happened.
pub open spec fn empty_tally() -> Tally {
    Tally {
        originated: 0,
        delivered: 0,
        dropped_loop: 0,
        dropped_ttl: 0,
        satellite: 0,
        blocked: 0,
        acked: 0,
        ack_lost: 0,
        slots_with_bundle: 0,
        stall_no_belief: 0,
        stall_stale_next_hop: 0,
        stall_tower_gone: 0,
        delivered_hops: Seq::new(32, |i: int| 0u64),
        satellite_hops: Seq::new(32, |i: int| 0u64),
        belief_hops: Seq::new(32, |i: int| 0u64),
        tower_adjacent_samples: 0,
        rounds_sampled: 0,
        delivery_latency: LatencyStats { sum: 0, count: 0 },
        ack_latency: LatencyStats { sum: 0, count: 0 },
        first_hop_latency: LatencyStats { sum: 0, count: 0 },
    }
}

impl Default for BundleStats {
    fn default() -> (r: BundleStats)
        ensures
            r@ == empty_tally(),
    {
        let r: BundleStats = BundleStats {
            originated: 0,
            delivered: 0,
            dropped_loop: 0,
            dropped_ttl: 0,
            satellite: 0,
            blocked: 0,
            acked: 0,
            ack_lost: 0,
            slots_with_bundle: 0,
            stall_no_belief: 0,
            stall_stale_next_hop: 0,
            stall_tower_gone: 0,
            delivered_hops: [0; 32],
            satellite_hops: [0; 32],
            belief_hops: [0; 32],
            tower_adjacent_samples: 0,
            rounds_sampled: 0,
            delivery_latency: LatencyStats::default(),
            ack_latency: LatencyStats::default(),
            first_hop_latency: LatencyStats::default(),
        };
        assert(r@ =~~= empty_tally());
        r
    }
}

impl BundleStats {
    /// Bundles that have left circulation, however they left.
    pub fn resolved(&self) -> (r: u64)
        ensures
            r == stats::capped(self@.resolved()),
    {
        self.delivered.saturating_add(self.dropped_loop).saturating_add(
            self.dropped_ttl,
        ).saturating_add(self.satellite)
    }

    /// Wake slots that actually moved a bundle. A refused handoff wastes the
    /// slot just as a stale next hop does.
    pub fn slots_used(&self) -> (r: u64)
        requires
            self@.stalls() <= u64::MAX,
        ensures
            r == self@.used(),
    {
        self.slots_with_bundle.saturating_sub(
            self.stall_no_belief + self.stall_stale_next_hop + self.stall_tower_gone + self.blocked,
        )
    }

    /// Bundles originated that never reached any terminal state.
    pub fn unresolved(&self) -> (r: u64)
        requires
            self@.resolved() <= u64::MAX,
        ensures
            r == self@.left(),
    {
        self.originated.saturating_sub(self.resolved())
    }
}


impl Tally {
    /// What a waking holder ran into instead of moving a bundle.
    pub open spec fn stalls(self) -> int {
        self.stall_no_belief + self.stall_stale_next_hop + self.stall_tower_gone + self.blocked
    }

    /// Wake slots that moved a bundle.
    pub open spec fn used(self) -> nat {
        if self.slots_with_bundle >= self.stalls() {
            (self.slots_with_bundle - self.stalls()) as nat
        } else {
            0
        }
    }

    /// Bundles still in circulation.
    pub open spec fn left(self) -> nat {
        if self.originated >= self.resolved() {
            (self.originated - self.resolved()) as nat
        } else {
            0
        }
    }
}

/// Everything counted in the first `k` buckets of a histogram.
pub open spec fn hist_count(h: Seq<u64>, k: nat) -> nat
    decreases k,
{
    if k == 0 {
        0
    } else {
        hist_count(h, (k - 1) as nat) + h[k - 1] as nat
    }
}

/// The same, each weighed by its bucket.
pub open spec fn hist_weight(h: Seq<u64>, k: nat) -> nat
    decreases k,
{
    if k == 0 {
        0
    } else {
        hist_weight(h, (k - 1) as nat) + ((k - 1) as nat) * (h[k - 1] as nat)
    }
}

/// The mean of a saturating histogram, zero if it is empty.
pub fn hist_mean(h: &[u64; 32]) -> (r: Ratio)
    ensures
        r == stats::share(hist_weight(h@, 32), hist_count(h@, 32)),
{
    let mut count: u128 = 0;
    let mut weight: u128 = 0;
    let mut k: usize = 0;
    while k < 32
        invariant
            k <= 32,
            count == hist_count(h@, k as nat),
            weight == hist_weight(h@, k as nat),
            count <= k * 0x1_0000_0000_0000_0000,
            weight <= k * 0x20_0000_0000_0000_0000,
        decreases 32 - k,
    {
        let c: u128 = h[k] as u128;
        let bucket: u128 = k as u128;
        assert(bucket * c <= 0x20_0000_0000_0000_0000) by (nonlinear_arith)
            requires
                bucket <= 32,
                c <= 0x1_0000_0000_0000_0000,
        ;
        assert((k as nat) * (h@[k as int] as nat) == bucket * c);
        count = count + c;
        let part: u128 = bucket * c;
        weight = weight + part;
        k = k + 1;
    }
    if count == 0 {
        Ratio { num: 0, den: 1 }
    } else {
        Ratio { num: weight, den: count }
    }
}

impl BundleStats {
    /// The share of wake slots with a bundle in hand that moved nothing.
    pub fn stall_rate(&self) -> (r: Ratio)
        requires
            self@.stalls() <= u64::MAX,
        ensures
            r == stats::share(
                (self.slots_with_bundle - self@.used()) as nat,
                self.slots_with_bundle as nat,
            ),
    {
        stats::ratio(self.slots_with_bundle - self.slots_used(), self.slots_with_bundle)
    }

    /// Balloons with a tower in range, per round.
    pub fn mean_tower_adjacent(&self) -> (r: Ratio)
        ensures
            r == stats::share(self.tower_adjacent_samples as nat, self.rounds_sampled as nat),
    {
        stats::ratio(self.tower_adjacent_samples, self.rounds_sampled)
    }

    /// What the balloons in range of a tower could hand over per round.
    pub fn delivery_capacity_per_round(&self, params: &DvDtnParams) -> (r: Ratio)
        requires
            params.beacon_interval_rounds > 0,
        ensures
            r == stats::share(
                self.tower_adjacent_samples as nat * params.batch.tower_contact as nat,
                self.rounds_sampled as nat * params.beacon_interval_rounds as nat,
            ),
    {
        let samples: u128 = self.tower_adjacent_samples as u128;
        let contact: u128 = params.batch.tower_contact as u128;
        let rounds: u128 = self.rounds_sampled as u128;
        let interval: u128 = params.beacon_interval_rounds as u128;
        proof {
            lemma_product_fits(samples as nat, contact as nat);
            lemma_product_fits(rounds as nat, interval as nat);
            assert(rounds > 0 <==> rounds * interval > 0) by (nonlinear_arith)
                requires
                    interval > 0,
            ;
        }
        if rounds == 0 {
            Ratio { num: 0, den: 1 }
        } else {
            Ratio { num: samples * contact, den: rounds * interval }
        }
    }

    /// The share of bundles out of circulation that reached a tower.
    pub fn completion_rate(&self) -> (r: Ratio)
        requires
            self@.resolved() <= u64::MAX,
        ensures
            r == stats::share(self.delivered as nat, self@.resolved() as nat),
    {
        stats::ratio(self.delivered, self.resolved())
    }

    pub fn unresolved_share(&self) -> (r: Ratio)
        requires
            self@.resolved() <= u64::MAX,
        ensures
            r == stats::share(self@.left(), self.originated as nat),
    {
        stats::ratio(self.unresolved(), self.originated)
    }

    pub fn delivered_per_originated(&self) -> (r: Ratio)
        ensures
            r == stats::share(self.delivered as nat, self.originated as nat),
    {
        stats::ratio(self.delivered, self.originated)
    }

    pub fn satellite_share(&self) -> (r: Ratio)
        requires
            self@.resolved() <= u64::MAX,
        ensures
            r == stats::share(self.satellite as nat, self@.resolved() as nat),
    {
        stats::ratio(self.satellite, self.resolved())
    }

    /// The share of bundles that the mesh itself lost.
    pub fn mesh_loss_rate(&self) -> (r: Ratio)
        requires
            self@.resolved() <= u64::MAX,
        ensures
            r == stats::share(
                (self.dropped_loop + self.dropped_ttl) as nat,
                self.originated as nat,
            ),
    {
        stats::ratio(self.dropped_loop + self.dropped_ttl, self.originated)
    }

    /// The share of deliveries that their origin learned of.
    pub fn ack_rate(&self) -> (r: Ratio)
        ensures
            r == stats::share(self.acked as nat, self.delivered as nat),
    {
        stats::ratio(self.acked, self.delivered)
    }

    pub fn delivered_per_slot_used(&self) -> (r: Ratio)
        requires
            self@.stalls() <= u64::MAX,
        ensures
            r == stats::share(self.delivered as nat, self@.used()),
    {
        stats::ratio(self.delivered, self.slots_used())
    }

    /// Deliveries per round as a share of what the balloons in range of a
    /// tower could have handed over.
    pub fn ceiling_utilisation(&self, params: &DvDtnParams) -> (r: Ratio)
        requires
            params.beacon_interval_rounds > 0,
        ensures
            r == utilisation(*self, *params),
    {
        let samples: u128 = self.tower_adjacent_samples as u128;
        let contact: u128 = params.batch.tower_contact as u128;
        let delivered: u128 = self.delivered as u128;
        let interval: u128 = params.beacon_interval_rounds as u128;
        proof {
            lemma_product_fits(samples as nat, contact as nat);
            lemma_product_fits(delivered as nat, interval as nat);
        }
        let ceiling: u128 = samples * contact;
        if self.rounds_sampled == 0 || ceiling == 0 {
            Ratio { num: 0, den: 1 }
        } else {
            Ratio { num: delivered * interval, den: ceiling }
        }
    }
}

/// Deliveries as a share of what the last hop could pass.
pub open spec fn utilisation(st: BundleStats, params: DvDtnParams) -> Ratio {
    if st.rounds_sampled == 0 {
        stats::share(0, 0)
    } else {
        stats::share(
            st.delivered as nat * params.beacon_interval_rounds as nat,
            st.tower_adjacent_samples as nat * params.batch.tower_contact as nat,
        )
    }
}

proof fn lemma_product_fits(a: nat, b: nat)
    requires
        a <= u64::MAX,
        b <= u64::MAX,
    ensures
        a * b <= u128::MAX,
{
    assert(a * b <= 0xffff_ffff_ffff_ffff * 0xffff_ffff_ffff_ffff) by (nonlinear_arith)
        requires
            a <= 0xffff_ffff_ffff_ffff,
            b <= 0xffff_ffff_ffff_ffff,
    ;
}

/// The books add up: slots in hand are slots used and slots stalled, and bundles
/// originated are bundles out of circulation and bundles in it.
pub proof fn the_books_add_up(t: Tally)
    requires
        t.slots_with_bundle >= t.stall_no_belief + t.stall_stale_next_hop + t.stall_tower_gone
            + t.blocked,
        t.originated >= t.delivered + t.dropped_loop + t.dropped_ttl + t.satellite,
    ensures
        t.used() + t.stall_no_belief + t.stall_stale_next_hop + t.stall_tower_gone + t.blocked
            == t.slots_with_bundle,
        t.left() + t.delivered + t.dropped_loop + t.dropped_ttl + t.satellite == t.originated,
        t.resolved() == t.delivered + t.dropped_loop + t.dropped_ttl + t.satellite,
{
}

/// One more sample adds one to what a histogram has counted.
pub proof fn a_sample_counts_once(h: Seq<u64>, n: int, k: nat)
    requires
        h.len() == 32,
        0 <= n,
        k <= 32,
        hist_room(h, 1),
    ensures
        hist_count(bumped(h, n), k) == hist_count(h, k) + (if n < k || k == 32 {
            1int
        } else {
            0
        }),
        n <= 31 ==> hist_weight(bumped(h, n), k) == hist_weight(h, k) + (if n < k {
            n
        } else {
            0
        }),
    decreases k,
{
    if k > 0 {
        a_sample_counts_once(h, n, (k - 1) as nat);
        let b = if n < 31 {
            n
        } else {
            31
        };
        let x = k - 1;
        assert(h[b] + 1 <= u64::MAX);
        if x == b {
            assert(x * (h[x] + 1) == x * h[x] + x) by (nonlinear_arith);
        }
    }
}

} // verus!
