//! Counters of spray-and-wait.
use vstd::prelude::*;

use crate::protocol::stats as tables;
use crate::protocol::stats::{LatencyStats, Ratio, StatValue};

verus! {

#[derive(Debug, Clone, Copy, PartialEq, Eq, Structural)]
pub struct EpidemicStats {
    pub originated: u64,
    /// First arrivals of a record at a tower: records, not copies.
    pub delivered: u64,
    /// Later arrivals of a record already delivered.
    pub duplicate_arrivals: u64,
    /// Records whose copies aged out before any reached a tower: records, not
    /// copies.
    pub satellite: u64,
    /// Individual copies dropped on age.
    pub copies_expired: u64,
    /// Copy handoffs that actually happened.
    pub handoffs: u64,
    /// Handoffs refused because the receiver was full.
    pub blocked: u64,
    /// Wake slots in which no neighbour lacked the record.
    pub no_candidate: u64,
    /// Origination to tower, of the copy that arrived first.
    pub delivery_latency: LatencyStats,
}

impl EpidemicStats {
    /// Whether every counter can grow by `w` and still fit its type.
    pub open spec fn room(self, w: int) -> bool {
        &&& self.originated + w <= u64::MAX
        &&& self.delivered + w <= u64::MAX
        &&& self.duplicate_arrivals + w <= u64::MAX
        &&& self.satellite + w <= u64::MAX
        &&& self.copies_expired + w <= u64::MAX
        &&& self.handoffs + w <= u64::MAX
        &&& self.blocked + w <= u64::MAX
        &&& self.no_candidate + w <= u64::MAX
    }

    /// Whether no counter of `later` has shrunk, nor grown by more than `w`.
    pub open spec fn grown(self, later: EpidemicStats, w: int) -> bool {
        &&& self.originated <= later.originated <= self.originated + w
        &&& self.delivered <= later.delivered <= self.delivered + w
        &&& self.duplicate_arrivals <= later.duplicate_arrivals <= self.duplicate_arrivals + w
        &&& self.satellite <= later.satellite <= self.satellite + w
        &&& self.copies_expired <= later.copies_expired <= self.copies_expired + w
        &&& self.handoffs <= later.handoffs <= self.handoffs + w
        &&& self.blocked <= later.blocked <= self.blocked + w
        &&& self.no_candidate <= later.no_candidate <= self.no_candidate + w
    }

    /// Records that have left circulation.
    pub fn resolved(&self) -> (r: u64)
        ensures
            r == tables::capped(self.delivered + self.satellite),
    {
        self.delivered.saturating_add(self.satellite)
    }

    /// Records originated that have not left circulation.
    pub fn unresolved(&self) -> (r: u64)
        requires
            self.delivered + self.satellite <= u64::MAX,
        ensures
            r == self.left(),
    {
        self.originated.saturating_sub(self.resolved())
    }

    /// The share of settled records that reached a tower.
    pub fn completion_rate(&self) -> (r: Ratio)
        requires
            self.delivered + self.satellite <= u64::MAX,
        ensures
            r == tables::share(self.delivered as nat, (self.delivered + self.satellite) as nat),
    {
        tables::ratio(self.delivered, self.resolved())
    }

    /// Copies transmitted per record delivered: the price of replication.
    pub fn handoffs_per_delivery(&self) -> (r: Ratio)
        ensures
            r == tables::share(self.handoffs as nat, self.delivered as nat),
    {
        tables::ratio(self.handoffs, self.delivered)
    }

    pub fn unresolved_share(&self) -> (r: Ratio)
        requires
            self.delivered + self.satellite <= u64::MAX,
        ensures
            r == tables::share(self.left(), self.originated as nat),
    {
        tables::ratio(self.unresolved(), self.originated)
    }

    pub fn delivered_per_originated(&self) -> (r: Ratio)
        ensures
            r == tables::share(self.delivered as nat, self.originated as nat),
    {
        tables::ratio(self.delivered, self.originated)
    }

    pub fn satellite_share(&self) -> (r: Ratio)
        requires
            self.delivered + self.satellite <= u64::MAX,
        ensures
            r == tables::share(self.satellite as nat, (self.delivered + self.satellite) as nat),
    {
        tables::ratio(self.satellite, self.resolved())
    }

    /// Records still in circulation.
    pub open spec fn left(self) -> nat {
        if self.originated >= self.delivered + self.satellite {
            (self.originated - (self.delivered + self.satellite)) as nat
        } else {
            0
        }
    }

    /// The counters as a keyed table, with what each first arrival took: of
    /// these it has the mean and the percentile by nearest rank that 95 in 100
    /// are within.
    pub open spec fn table(self, latencies: Seq<u64>) -> Seq<(Seq<char>, StatValue)> {
        let resolved = self.delivered + self.satellite;
        seq![
            ("originated"@, StatValue::Count(self.originated)),
            ("delivered"@, StatValue::Count(self.delivered)),
            ("resolved"@, StatValue::Count(resolved as u64)),
            (
                "completion_rate"@,
                StatValue::Ratio(tables::share(self.delivered as nat, resolved as nat)),
            ),
            ("satellite"@, StatValue::Count(self.satellite)),
            ("blocked"@, StatValue::Count(self.blocked)),
            ("duplicate_arrivals"@, StatValue::Count(self.duplicate_arrivals)),
            ("copies_expired"@, StatValue::Count(self.copies_expired)),
            ("handoffs"@, StatValue::Count(self.handoffs)),
            ("no_candidate"@, StatValue::Count(self.no_candidate)),
            (
                "handoffs_per_delivery"@,
                StatValue::Ratio(tables::share(self.handoffs as nat, self.delivered as nat)),
            ),
            ("unresolved"@, StatValue::Count(self.left() as u64)),
            (
                "unresolved_share"@,
                StatValue::Ratio(tables::share(self.left(), self.originated as nat)),
            ),
            (
                "delivered_per_originated"@,
                StatValue::Ratio(tables::share(self.delivered as nat, self.originated as nat)),
            ),
            (
                "satellite_share"@,
                StatValue::Ratio(tables::share(self.satellite as nat, resolved as nat)),
            ),
            (
                "delivery_latency_mean"@,
                StatValue::Ratio(
                    tables::share(
                        self.delivery_latency.sum as nat,
                        self.delivery_latency.count as nat,
                    ),
                ),
            ),
            (
                "delivery_latency_p95"@,
                StatValue::Ratio(tables::share(tables::percentile_of(latencies, 95) as nat, 1)),
            ),
        ]
    }
}

/// Nothing has happened yet.
pub open spec fn no_stats() -> EpidemicStats {
    EpidemicStats {
        originated: 0,
        delivered: 0,
        duplicate_arrivals: 0,
        satellite: 0,
        copies_expired: 0,
        handoffs: 0,
        blocked: 0,
        no_candidate: 0,
        delivery_latency: LatencyStats { sum: 0, count: 0 },
    }
}

impl Default for EpidemicStats {
    fn default() -> (r: EpidemicStats)
        ensures
            r == no_stats(),
    {
        EpidemicStats {
            originated: 0,
            delivered: 0,
            duplicate_arrivals: 0,
            satellite: 0,
            copies_expired: 0,
            handoffs: 0,
            blocked: 0,
            no_candidate: 0,
            delivery_latency: LatencyStats::default(),
        }
    }
}

} // verus!
