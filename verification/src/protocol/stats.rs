//! Counters shared by the protocols.
use vstd::prelude::*;

use crate::text;

verus! {

/// How long things took, as a running total and a count. Both stop at the
/// largest value they can hold. That gives the mean; for a percentile see
/// `percentile`, which works on the samples themselves.
#[derive(Debug, Clone, Copy, PartialEq, Eq, Structural)]
pub struct LatencyStats {
    pub sum: u64,
    pub count: u64,
}

/// Addition that stops at the top of the range.
pub open spec fn capped_sum(a: u64, b: u64) -> u64 {
    if a + b > u64::MAX {
        u64::MAX
    } else {
        (a + b) as u64
    }
}

/// A count, or the most its type can say.
pub open spec fn capped(n: int) -> u64 {
    if n > u64::MAX {
        u64::MAX
    } else {
        n as u64
    }
}

impl LatencyStats {
    /// The statistics after one more sample.
    pub open spec fn with(self, rounds: u64) -> LatencyStats {
        LatencyStats { sum: capped_sum(self.sum, rounds), count: capped_sum(self.count, 1) }
    }

    pub fn record(&mut self, rounds: u64)
        ensures
            *final(self) == old(self).with(rounds),
    {
        self.sum = self.sum.saturating_add(rounds);
        self.count = self.count.saturating_add(1);
    }
}

impl Default for LatencyStats {
    fn default() -> (r: LatencyStats)
        ensures
            r == (LatencyStats { sum: 0, count: 0 }),
    {
        LatencyStats { sum: 0, count: 0 }
    }
}


impl LatencyStats {
    /// The mean of the samples, zero if there are none.
    pub fn mean(&self) -> (r: Ratio)
        ensures
            r == share(self.sum as nat, self.count as nat),
    {
        ratio(self.sum, self.count)
    }
}

/// How many samples are no larger than a bound.
pub open spec fn at_most(samples: Seq<u64>, bound: int) -> nat
    decreases samples.len(),
{
    if samples.len() == 0 {
        0
    } else {
        at_most(samples.drop_last(), bound) + if samples.last() <= bound {
            1nat
        } else {
            0nat
        }
    }
}

/// Whether a value is the one at this place, from zero, once the samples stand
/// in order of size: no more than `rank` of them are below it, and more than
/// `rank` are no larger.
pub open spec fn is_ranked(samples: Seq<u64>, rank: nat, v: u64) -> bool {
    at_most(samples, v - 1) <= rank < at_most(samples, v as int)
}

/// The place of a percentile among this many samples in order of size: that
/// share of the way from the first to the last, rounded to the nearest place
/// and up from the middle.
pub open spec fn percentile_rank(len: nat, percent: nat) -> nat
    recommends
        len > 0,
{
    ((percent * (len - 1) + 50) / 100) as nat
}

/// A percentile by nearest rank, which is always one of the samples. Zero if
/// there are none.
pub open spec fn percentile_of(samples: Seq<u64>, percent: nat) -> u64 {
    if samples.len() == 0 {
        0
    } else {
        choose|v: u64| is_ranked(samples, percentile_rank(samples.len(), percent), v)
    }
}

proof fn lemma_at_most(samples: Seq<u64>, a: int, b: int)
    requires
        a <= b,
    ensures
        at_most(samples, a) <= at_most(samples, b) <= samples.len(),
        b >= u64::MAX ==> at_most(samples, b) == samples.len(),
        a < 0 ==> at_most(samples, a) == 0,
        at_most(samples, a) < at_most(samples, b) ==> exists|j: int|
            0 <= j < samples.len() && a < #[trigger] samples[j] <= b,
    decreases samples.len(),
{
    if samples.len() > 0 {
        lemma_at_most(samples.drop_last(), a, b);
        if at_most(samples, a) < at_most(samples, b) {
            if a < samples.last() <= b {
                assert(a < samples[samples.len() - 1] <= b);
            } else {
                let rest = samples.drop_last();
                let j = choose|j: int| 0 <= j < rest.len() && a < #[trigger] rest[j] <= b;
                assert(samples[j] == rest[j]);
            }
        }
    }
}

/// At most one value stands at a place.
proof fn lemma_one_is_ranked(samples: Seq<u64>, rank: nat, v: u64, w: u64)
    requires
        is_ranked(samples, rank, v),
        is_ranked(samples, rank, w),
    ensures
        v == w,
{
    if v < w {
        lemma_at_most(samples, v as int, w - 1);
    } else if w < v {
        lemma_at_most(samples, w as int, v - 1);
    }
}

/// How many samples are no larger than a bound.
fn count_at_most(samples: &Vec<u64>, bound: u64) -> (r: usize)
    ensures
        r == at_most(samples@, bound as int),
{
    let mut r: usize = 0;
    let mut k: usize = 0;
    while k < samples.len()
        invariant
            k <= samples@.len(),
            r <= k,
            r == at_most(samples@.take(k as int), bound as int),
        decreases samples@.len() - k,
    {
        assert(samples@.take(k + 1).drop_last() =~= samples@.take(k as int));
        if samples[k] <= bound {
            r = r + 1;
        }
        k = k + 1;
    }
    assert(samples@.take(k as int) =~= samples@);
    r
}

/// A percentile of some samples, in any order, by nearest rank.
pub fn percentile(samples: &Vec<u64>, percent: u8) -> (r: u64)
    requires
        percent <= 100,
    ensures
        r == percentile_of(samples@, percent as nat),
        samples@.len() > 0 ==> samples@.contains(r) && is_ranked(
            samples@,
            percentile_rank(samples@.len(), percent as nat),
            r,
        ),
        samples@.len() == 0 ==> r == 0,
{
    if samples.len() == 0 {
        return 0;
    }
    let n: u128 = samples.len() as u128;
    assert(percent * (n - 1) <= 100 * (n - 1)) by (nonlinear_arith)
        requires
            percent <= 100,
            n >= 1,
    ;
    assert(percent * (n - 1) >= 0) by (nonlinear_arith)
        requires
            n >= 1,
    ;
    let rank: usize = ((percent as u128 * (n - 1) + 50) / 100) as usize;
    assert(rank == percentile_rank(samples@.len(), percent as nat));
    assert(rank < samples@.len());
    let mut low: u64 = 0;
    let mut high: u64 = u64::MAX;
    proof {
        lemma_at_most(samples@, -1, u64::MAX as int);
    }
    while low < high
        invariant
            low <= high,
            at_most(samples@, low - 1) <= rank < at_most(samples@, high as int),
        decreases high - low,
    {
        let mid: u64 = low + (high - low) / 2;
        if count_at_most(samples, mid) > rank {
            high = mid;
        } else {
            low = mid + 1;
        }
    }
    proof {
        assert(is_ranked(samples@, rank as nat, low));
        let v = percentile_of(samples@, percent as nat);
        lemma_one_is_ranked(samples@, rank as nat, low, v);
        lemma_at_most(samples@, low - 1, low as int);
    }
    low
}

/// A quotient of whole numbers.
#[derive(Debug, Clone, Copy, PartialEq, Eq, Structural)]
pub struct Ratio {
    pub num: u128,
    pub den: u128,
}

/// Guarded division: nothing out of nothing is nothing.
pub open spec fn share(num: nat, den: nat) -> Ratio {
    if den == 0 {
        Ratio { num: 0, den: 1 }
    } else {
        Ratio { num: num as u128, den: den as u128 }
    }
}

/// Guarded division of two counts.
pub fn ratio(num: u64, den: u64) -> (r: Ratio)
    ensures
        r == share(num as nat, den as nat),
{
    if den == 0 {
        Ratio { num: 0, den: 1 }
    } else {
        Ratio { num: num as u128, den: den as u128 }
    }
}

#[derive(Debug, Clone, Copy, PartialEq, Eq, Structural)]
pub enum StatValue {
    Count(u64),
    Ratio(Ratio),
}

/// A flat keyed table of counters, in the order in which they were put in.
/// Protocols with different vocabularies can be put in the same table.
#[derive(Debug)]
pub struct StatsTable(Vec<(&'static str, StatValue)>);

impl View for StatsTable {
    type V = Seq<(Seq<char>, StatValue)>;

    closed spec fn view(&self) -> Seq<(Seq<char>, StatValue)> {
        self.0@.map_values(|e: (&'static str, StatValue)| (e.0@, e.1))
    }
}

/// The value of the first entry, from `k` on, under a key.
pub open spec fn entry_under(
    table: Seq<(Seq<char>, StatValue)>,
    key: Seq<char>,
    k: int,
) -> Option<StatValue>
    decreases table.len() - k,
{
    if k >= table.len() {
        None
    } else if table[k].0 == key {
        Some(table[k].1)
    } else {
        entry_under(table, key, k + 1)
    }
}

impl StatsTable {
    pub fn new() -> (r: StatsTable)
        ensures
            r@ == Seq::<(Seq<char>, StatValue)>::empty(),
    {
        let r: StatsTable = StatsTable(Vec::new());
        assert(r@ =~= Seq::empty());
        r
    }

    fn with(self, key: &'static str, v: StatValue) -> (r: StatsTable)
        ensures
            r@ == self@.push((key@, v)),
    {
        let ghost before = self@;
        let StatsTable(mut entries) = self;
        entries.push((key, v));
        let r: StatsTable = StatsTable(entries);
        assert(r@ =~= before.push((key@, v)));
        r
    }

    pub fn count(self, key: &'static str, v: u64) -> (r: StatsTable)
        ensures
            r@ == self@.push((key@, StatValue::Count(v))),
    {
        self.with(key, StatValue::Count(v))
    }

    pub fn ratio(self, key: &'static str, v: Ratio) -> (r: StatsTable)
        ensures
            r@ == self@.push((key@, StatValue::Ratio(v))),
    {
        self.with(key, StatValue::Ratio(v))
    }

    /// The value under a key.
    pub fn get(&self, key: &str) -> (r: Option<StatValue>)
        ensures
            r == entry_under(self@, key@, 0),
    {
        let mut k: usize = 0;
        while k < self.0.len()
            invariant
                k <= self.0@.len(),
                entry_under(self@, key@, 0) == entry_under(self@, key@, k as int),
            decreases self.0@.len() - k,
        {
            assert(self@[k as int] == (self.0@[k as int].0@, self.0@[k as int].1));
            let (name, value) = self.0[k];
            if text::same(name, key) {
                return Some(value);
            }
            k = k + 1;
        }
        None
    }

    pub fn keys(&self) -> (r: Vec<&'static str>)
        ensures
            r@.len() == self@.len(),
            forall|j: int| 0 <= j < r@.len() ==> (#[trigger] r@[j])@ == self@[j].0,
    {
        let mut r: Vec<&'static str> = Vec::new();
        while r.len() < self.0.len()
            invariant
                r@.len() <= self.0@.len(),
                forall|j: int| 0 <= j < r@.len() ==> (#[trigger] r@[j])@ == self@[j].0,
            decreases self.0@.len() - r@.len(),
        {
            let k: usize = r.len();
            r.push(self.0[k].0);
        }
        r
    }

    /// The entries in order.
    pub fn iter(&self) -> (r: Vec<(&'static str, StatValue)>)
        ensures
            r@.len() == self@.len(),
            forall|j: int|
                0 <= j < r@.len() ==> (#[trigger] r@[j]).0@ == self@[j].0 && r@[j].1 == self@[j].1,
    {
        let mut r: Vec<(&'static str, StatValue)> = Vec::new();
        while r.len() < self.0.len()
            invariant
                r@.len() <= self.0@.len(),
                forall|j: int|
                    0 <= j < r@.len() ==> (#[trigger] r@[j]).0@ == self@[j].0 && r@[j].1
                        == self@[j].1,
            decreases self.0@.len() - r@.len(),
        {
            let k: usize = r.len();
            r.push(self.0[k]);
        }
        r
    }

    pub fn is_empty(&self) -> (r: bool)
        ensures
            r == (self@.len() == 0),
    {
        self.0.len() == 0
    }
}

/// A share is an exact quotient, and nothing of nothing is nothing.
pub proof fn a_share_is_a_quotient(num: nat, den: nat)
    requires
        num <= u128::MAX,
        den <= u128::MAX,
    ensures
        share(num, den).den > 0,
        den > 0 ==> share(num, den).num * den == num * share(num, den).den,
        den == 0 ==> share(num, den).num == 0,
{
    if den > 0 {
        assert(share(num, den).num == num && share(num, den).den == den);
    }
}

/// Percentiles run from the least sample to the greatest, rise with the percentage,
/// and are never further than half a place from it.
pub proof fn percentiles_rise(len: nat, p: nat, q: nat)
    requires
        len > 0,
        p <= q <= 100,
    ensures
        percentile_rank(len, 0) == 0,
        percentile_rank(len, 100) == len - 1,
        percentile_rank(len, p) <= percentile_rank(len, q) < len,
        100 * percentile_rank(len, p) <= p * (len - 1) + 50,
        p * (len - 1) + 50 < 100 * percentile_rank(len, p) + 100,
{
    let n = len - 1;
    assert(0 * n == 0) by (nonlinear_arith);
    assert(p * n <= q * n && q * n <= 100 * n && 0 <= p * n) by (nonlinear_arith)
        requires
            0 <= p <= q <= 100,
            n >= 0,
    ;
}

} // verus!
