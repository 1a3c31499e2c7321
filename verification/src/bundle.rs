//! Delivery with a single carry slot: a balloon holds at most one bundle, and
//! hands it on along the next hop that it believes in. A next hop that is out
//! of range, and a receiver that is busy, make the bundle wait.
use vstd::prelude::*;

use crate::beacon::Station;
use crate::config;
use crate::mesh_adjacency::{MeshAdjacency, Topology};
use crate::protocol::dv_dtn::bundle as relay;

verus! {

/// One unit of telemetry in transit.
#[derive(Debug)]
pub struct Bundle {
    pub origin_id: u32,
    pub seq: u64,
    pub created_at_round: u64,
    /// Every balloon that has held this bundle, origin first.
    pub path: Vec<u32>,
}

/// The mathematical content of a `Bundle`.
#[verifier::ext_equal]
pub struct BundleModel {
    pub origin_id: u32,
    pub seq: u64,
    pub created_at_round: u64,
    pub path: Seq<u32>,
}

impl View for Bundle {
    type V = BundleModel;

    open spec fn view(&self) -> BundleModel {
        BundleModel {
            origin_id: self.origin_id,
            seq: self.seq,
            created_at_round: self.created_at_round,
            path: self.path@,
        }
    }
}

impl Bundle {
    /// How often it has been handed on.
    pub fn hops(&self) -> (r: usize)
        ensures
            r == (if self.path@.len() == 0 {
                0
            } else {
                self.path@.len() - 1
            }),
    {
        self.path.len().saturating_sub(1)
    }

    pub fn age(&self, round: u64) -> (r: u64)
        ensures
            r == relay::rounds_since(self.created_at_round, round),
    {
        round.saturating_sub(self.created_at_round)
    }
}

/// One balloon's delivery state.
#[derive(Debug)]
pub struct Carrier {
    pub carrying: Option<Bundle>,
    /// Next round it may originate a bundle.
    pub next_bundle_round: u64,
    pub bundle_seq: u64,
}

/// The mathematical content of a `Carrier`.
#[verifier::ext_equal]
pub struct CarrierModel {
    pub carrying: Option<BundleModel>,
    pub next_bundle_round: u64,
    pub bundle_seq: u64,
}

impl View for Carrier {
    type V = CarrierModel;

    open spec fn view(&self) -> CarrierModel {
        CarrierModel {
            carrying: match self.carrying {
                Some(b) => Some(b@),
                None => None,
            },
            next_bundle_round: self.next_bundle_round,
            bundle_seq: self.bundle_seq,
        }
    }
}

impl Carrier {
    /// A balloon that has carried nothing yet.
    pub fn new() -> (c: Carrier)
        ensures
            c@ == (CarrierModel { carrying: None, next_bundle_round: 0, bundle_seq: 0 }),
    {
        Carrier { carrying: None, next_bundle_round: 0, bundle_seq: 0 }
    }
}

/// The contents of the carriers.
pub open spec fn models(carriers: Seq<Carrier>) -> Seq<CarrierModel> {
    carriers.map_values(|c: Carrier| c@)
}

/// Cumulative outcomes. Every bundle that leaves circulation lands in exactly
/// one of `delivered`, `dropped_loop`, `dropped_ttl` and `expired`.
#[derive(Debug, Clone, Copy, PartialEq, Eq, Structural)]
pub struct BundleStats {
    pub originated: u64,
    pub delivered: u64,
    pub dropped_loop: u64,
    pub dropped_ttl: u64,
    pub expired: u64,
    /// Handoffs refused by a busy receiver. Not a loss: the sender retries.
    pub blocked: u64,
}

impl Default for BundleStats {
    fn default() -> (r: BundleStats)
        ensures
            r == (BundleStats {
                originated: 0,
                delivered: 0,
                dropped_loop: 0,
                dropped_ttl: 0,
                expired: 0,
                blocked: 0,
            }),
    {
        BundleStats {
            originated: 0,
            delivered: 0,
            dropped_loop: 0,
            dropped_ttl: 0,
            expired: 0,
            blocked: 0,
        }
    }
}

impl BundleStats {
    /// Bundles that have left circulation, however they left.
    pub open spec fn settled(self) -> int {
        self.delivered + self.dropped_loop + self.dropped_ttl + self.expired
    }

    /// Bundles that have left circulation, however they left.
    pub fn resolved(&self) -> (r: u64)
        requires
            self.settled() <= u64::MAX,
        ensures
            r == self.settled(),
    {
        self.delivered + self.dropped_loop + self.dropped_ttl + self.expired
    }

    /// Whether no counter is within `n` of its limit.
    pub open spec fn room(self, n: int) -> bool {
        &&& self.originated + n <= u64::MAX
        &&& self.delivered + n <= u64::MAX
        &&& self.dropped_loop + n <= u64::MAX
        &&& self.dropped_ttl + n <= u64::MAX
        &&& self.expired + n <= u64::MAX
        &&& self.blocked + n <= u64::MAX
    }
}

/// The carriers and the counters.
#[verifier::ext_equal]
pub struct Traffic {
    pub carriers: Seq<CarrierModel>,
    pub stats: BundleStats,
}

/// The traffic once carrier `i` has been emptied.
pub open spec fn emptied(t: Traffic, i: int, stats: BundleStats) -> Traffic {
    Traffic {
        carriers: t.carriers.update(i, CarrierModel { carrying: None, ..t.carriers[i] }),
        stats,
    }
}

/// After carrier `i` has let go of a bundle that is too old.
pub open spec fn lapsed(t: Traffic, i: int, round: u64) -> Traffic {
    match t.carriers[i].carrying {
        Some(b) => if relay::rounds_since(b.created_at_round, round)
            > config::BUNDLE_MAX_AGE_ROUNDS {
            emptied(t, i, BundleStats { expired: (t.stats.expired + 1) as u64, ..t.stats })
        } else {
            t
        },
        None => t,
    }
}

/// After the first `k` carriers have.
pub open spec fn all_lapsed(t: Traffic, round: u64, k: nat) -> Traffic
    decreases k,
{
    if k == 0 {
        t
    } else {
        lapsed(all_lapsed(t, round, (k - 1) as nat), k - 1, round)
    }
}

/// The traffic, and the handoffs that are to be made.
#[verifier::ext_equal]
pub struct Outbox {
    pub traffic: Traffic,
    pub moves: Seq<(usize, u32)>,
}

/// After balloon `i` has decided what to do with what it carries.
pub open spec fn decided(o: Outbox, stations: Seq<Station>, topo: Topology, i: int) -> Outbox {
    let t = o.traffic;
    match (t.carriers[i].carrying, stations[i].belief) {
        (Some(b), Some(belief)) => match belief.next_hop {
            None => if topo.tower_of(i) is Some {
                Outbox {
                    traffic: emptied(
                        t,
                        i,
                        BundleStats { delivered: (t.stats.delivered + 1) as u64, ..t.stats },
                    ),
                    ..o
                }
            } else {
                o
            },
            Some(next) => if !topo.neighbors_of(i).contains(next) {
                o
            } else if b.path.contains(next) {
                Outbox {
                    traffic: emptied(
                        t,
                        i,
                        BundleStats { dropped_loop: (t.stats.dropped_loop + 1) as u64, ..t.stats },
                    ),
                    ..o
                }
            } else if b.path.len() >= config::BUNDLE_MAX_HOPS {
                Outbox {
                    traffic: emptied(
                        t,
                        i,
                        BundleStats { dropped_ttl: (t.stats.dropped_ttl + 1) as u64, ..t.stats },
                    ),
                    ..o
                }
            } else {
                Outbox { moves: o.moves.push((i as usize, next)), ..o }
            },
        },
        _ => o,
    }
}

/// After the first `k` of those awake have.
pub open spec fn all_decided(
    t: Traffic,
    stations: Seq<Station>,
    topo: Topology,
    awake: Seq<usize>,
    k: nat,
) -> Outbox
    decreases k,
{
    if k == 0 {
        Outbox { traffic: t, moves: Seq::empty() }
    } else {
        decided(
            all_decided(t, stations, topo, awake, (k - 1) as nat),
            stations,
            topo,
            awake[k - 1] as int,
        )
    }
}

/// After one handoff: to a receiver with its slot free, or not at all.
pub open spec fn handed(t: Traffic, m: (usize, u32)) -> Traffic {
    let from = m.0 as int;
    let to = m.1 as int;
    if to < t.carriers.len() && t.carriers[to].carrying is None {
        match t.carriers[from].carrying {
            Some(b) => {
                let left = t.carriers.update(
                    from,
                    CarrierModel { carrying: None, ..t.carriers[from] },
                );
                Traffic {
                    carriers: left.update(
                        to,
                        CarrierModel {
                            carrying: Some(BundleModel { path: b.path.push(m.1), ..b }),
                            ..left[to]
                        },
                    ),
                    ..t
                }
            },
            None => t,
        }
    } else {
        Traffic { stats: BundleStats { blocked: (t.stats.blocked + 1) as u64, ..t.stats }, ..t }
    }
}

/// After the first `k` handoffs.
pub open spec fn all_handed(t: Traffic, moves: Seq<(usize, u32)>, k: nat) -> Traffic
    decreases k,
{
    if k == 0 {
        t
    } else {
        handed(all_handed(t, moves, (k - 1) as nat), moves[k - 1])
    }
}

/// After balloon `i` has originated a bundle, if its slot is free and it is
/// time.
pub open spec fn begun(t: Traffic, stations: Seq<Station>, i: int, round: u64) -> Traffic {
    let c = t.carriers[i];
    if c.carrying is Some || round < c.next_bundle_round {
        t
    } else {
        Traffic {
            carriers: t.carriers.update(
                i,
                CarrierModel {
                    carrying: Some(
                        BundleModel {
                            origin_id: stations[i].id,
                            seq: c.bundle_seq,
                            created_at_round: round,
                            path: seq![stations[i].id],
                        },
                    ),
                    next_bundle_round: (round + config::BUNDLE_INTERVAL_ROUNDS) as u64,
                    bundle_seq: (c.bundle_seq + 1) as u64,
                },
            ),
            stats: BundleStats { originated: (t.stats.originated + 1) as u64, ..t.stats },
        }
    }
}

/// After the first `k` of those awake have.
pub open spec fn all_begun(
    t: Traffic,
    stations: Seq<Station>,
    awake: Seq<usize>,
    round: u64,
    k: nat,
) -> Traffic
    decreases k,
{
    if k == 0 {
        t
    } else {
        begun(
            all_begun(t, stations, awake, round, (k - 1) as nat),
            stations,
            awake[k - 1] as int,
            round,
        )
    }
}

/// The traffic after a round: let go of what is too old, decide, hand on,
/// originate.
pub open spec fn traffic_after(
    t: Traffic,
    stations: Seq<Station>,
    topo: Topology,
    awake: Seq<usize>,
    round: u64,
) -> Traffic {
    let lapsed_all = all_lapsed(t, round, t.carriers.len());
    let out = all_decided(lapsed_all, stations, topo, awake, awake.len());
    let handed_all = all_handed(out.traffic, out.moves, out.moves.len());
    all_begun(handed_all, stations, awake, round, awake.len())
}

/// What a round demands: state for every balloon awake, and room in the
/// counters.
pub open spec fn round_fits(
    t: Traffic,
    stations: Seq<Station>,
    awake: Seq<usize>,
    round: u64,
) -> bool {
    &&& stations.len() == t.carriers.len()
    &&& forall|k: int| 0 <= k < awake.len() ==> #[trigger] awake[k] < t.carriers.len()
    &&& t.stats.room((t.carriers.len() + awake.len()) as int)
    &&& round + config::BUNDLE_INTERVAL_ROUNDS <= u64::MAX
    &&& forall|i: int|
        0 <= i < t.carriers.len() ==> (#[trigger] t.carriers[i]).bundle_seq + awake.len()
            <= u64::MAX
}

/// How many of the first `k` carriers hold a bundle.
pub open spec fn held(carriers: Seq<CarrierModel>, k: nat) -> nat
    decreases k,
{
    if k == 0 {
        0
    } else {
        held(carriers, (k - 1) as nat) + (if carriers[k - 1].carrying is Some {
            1nat
        } else {
            0
        })
    }
}

/// Bundles accounted for less bundles originated.
pub open spec fn balance(t: Traffic) -> int {
    held(t.carriers, t.carriers.len()) + t.stats.settled() - t.stats.originated
}

proof fn lemma_held_update(carriers: Seq<CarrierModel>, i: int, c: CarrierModel, k: nat)
    requires
        0 <= i < carriers.len(),
        k <= carriers.len(),
    ensures
        held(carriers.update(i, c), k) == held(carriers, k) + (if i < k {
            (if c.carrying is Some {
                1int
            } else {
                0
            }) - (if carriers[i].carrying is Some {
                1int
            } else {
                0
            })
        } else {
            0
        }),
    decreases k,
{
    if k > 0 {
        lemma_held_update(carriers, i, c, (k - 1) as nat);
    }
}

proof fn lemma_lapsed_balance(t: Traffic, round: u64, k: nat)
    requires
        k <= t.carriers.len(),
        t.stats.room(k as int),
    ensures
        all_lapsed(t, round, k).carriers.len() == t.carriers.len(),
        balance(all_lapsed(t, round, k)) == balance(t),
        all_lapsed(t, round, k).stats == (BundleStats {
            expired: all_lapsed(t, round, k).stats.expired,
            ..t.stats
        }),
        t.stats.expired <= all_lapsed(t, round, k).stats.expired <= t.stats.expired + k,
        forall|i: int|
            0 <= i < t.carriers.len() ==> (#[trigger] all_lapsed(
                t,
                round,
                k,
            ).carriers[i]).bundle_seq == t.carriers[i].bundle_seq,
    decreases k,
{
    if k > 0 {
        lemma_lapsed_balance(t, round, (k - 1) as nat);
        let before = all_lapsed(t, round, (k - 1) as nat);
        lemma_held_update(
            before.carriers,
            k - 1,
            CarrierModel { carrying: None, ..before.carriers[k - 1] },
            before.carriers.len(),
        );
    }
}

proof fn lemma_decided_balance(
    t: Traffic,
    stations: Seq<Station>,
    topo: Topology,
    awake: Seq<usize>,
    k: nat,
)
    requires
        k <= awake.len(),
        t.stats.room(k as int),
        forall|x: int| 0 <= x < awake.len() ==> #[trigger] awake[x] < t.carriers.len(),
    ensures
        ({
            let o = all_decided(t, stations, topo, awake, k);
            &&& o.traffic.carriers.len() == t.carriers.len()
            &&& balance(o.traffic) == balance(t)
            &&& o.moves.len() <= k
            &&& forall|m: int| 0 <= m < o.moves.len() ==> (#[trigger] o.moves[m]).0 < t.carriers.len()
            &&& o.traffic.stats.originated == t.stats.originated
            &&& o.traffic.stats.blocked == t.stats.blocked
            &&& o.traffic.stats.expired == t.stats.expired
            &&& o.traffic.stats.delivered <= t.stats.delivered + k
            &&& o.traffic.stats.dropped_loop <= t.stats.dropped_loop + k
            &&& o.traffic.stats.dropped_ttl <= t.stats.dropped_ttl + k
            &&& forall|i: int|
                0 <= i < t.carriers.len() ==> (#[trigger] o.traffic.carriers[i]).bundle_seq
                    == t.carriers[i].bundle_seq
        }),
    decreases k,
{
    if k > 0 {
        lemma_decided_balance(t, stations, topo, awake, (k - 1) as nat);
        let before = all_decided(t, stations, topo, awake, (k - 1) as nat);
        let i = awake[k - 1] as int;
        lemma_held_update(
            before.traffic.carriers,
            i,
            CarrierModel { carrying: None, ..before.traffic.carriers[i] },
            before.traffic.carriers.len(),
        );
    }
}

proof fn lemma_handed_balance(t: Traffic, moves: Seq<(usize, u32)>, k: nat)
    requires
        k <= moves.len(),
        t.stats.blocked + k <= u64::MAX,
        forall|m: int| 0 <= m < moves.len() ==> (#[trigger] moves[m]).0 < t.carriers.len(),
    ensures
        ({
            let r = all_handed(t, moves, k);
            &&& r.carriers.len() == t.carriers.len()
            &&& balance(r) == balance(t)
            &&& r.stats == (BundleStats { blocked: r.stats.blocked, ..t.stats })
            &&& r.stats.blocked <= t.stats.blocked + k
            &&& forall|i: int|
                0 <= i < t.carriers.len() ==> (#[trigger] r.carriers[i]).bundle_seq
                    == t.carriers[i].bundle_seq
        }),
    decreases k,
{
    if k > 0 {
        lemma_handed_balance(t, moves, (k - 1) as nat);
        let before = all_handed(t, moves, (k - 1) as nat);
        let from = moves[k - 1].0 as int;
        let to = moves[k - 1].1 as int;
        if to < before.carriers.len() && before.carriers[to].carrying is None {
            if let Some(b) = before.carriers[from].carrying {
                let n = before.carriers.len();
                let gone = CarrierModel { carrying: None, ..before.carriers[from] };
                let left = before.carriers.update(from, gone);
                lemma_held_update(before.carriers, from, gone, n);
                lemma_held_update(
                    left,
                    to,
                    CarrierModel {
                        carrying: Some(BundleModel { path: b.path.push(moves[k - 1].1), ..b }),
                        ..left[to]
                    },
                    n,
                );
            }
        }
    }
}

proof fn lemma_begun_balance(
    t: Traffic,
    stations: Seq<Station>,
    awake: Seq<usize>,
    round: u64,
    k: nat,
)
    requires
        k <= awake.len(),
        t.stats.originated + k <= u64::MAX,
        forall|x: int| 0 <= x < awake.len() ==> #[trigger] awake[x] < t.carriers.len(),
    ensures
        ({
            let r = all_begun(t, stations, awake, round, k);
            &&& r.carriers.len() == t.carriers.len()
            &&& balance(r) == balance(t)
            &&& r.stats == (BundleStats { originated: r.stats.originated, ..t.stats })
            &&& r.stats.originated <= t.stats.originated + k
            &&& forall|i: int|
                0 <= i < t.carriers.len() ==> (#[trigger] r.carriers[i]).bundle_seq
                    <= t.carriers[i].bundle_seq + k
        }),
    decreases k,
{
    if k > 0 {
        lemma_begun_balance(t, stations, awake, round, (k - 1) as nat);
        let before = all_begun(t, stations, awake, round, (k - 1) as nat);
        let after = all_begun(t, stations, awake, round, k);
        let i = awake[k - 1] as int;
        assert(begun(before, stations, i, round) == after);
        lemma_held_update(before.carriers, i, after.carriers[i], before.carriers.len());
        assert forall|j: int| 0 <= j < t.carriers.len() implies (
        #[trigger] after.carriers[j]).bundle_seq <= t.carriers[j].bundle_seq + k by {
            assert(before.carriers[j].bundle_seq <= t.carriers[j].bundle_seq + k - 1);
        }
    }
}

/// Nothing vanishes: over a round, bundles originated are bundles still held
/// or settled in exactly one way.
pub proof fn nothing_vanishes(
    t: Traffic,
    stations: Seq<Station>,
    topo: Topology,
    awake: Seq<usize>,
    round: u64,
)
    requires
        round_fits(t, stations, awake, round),
    ensures
        balance(traffic_after(t, stations, topo, awake, round)) == balance(t),
{
    let a = all_lapsed(t, round, t.carriers.len());
    let o = all_decided(a, stations, topo, awake, awake.len());
    let h = all_handed(o.traffic, o.moves, o.moves.len());
    lemma_lapsed_balance(t, round, t.carriers.len());
    lemma_decided_balance(a, stations, topo, awake, awake.len());
    lemma_handed_balance(o.traffic, o.moves, o.moves.len());
    lemma_begun_balance(h, stations, awake, round, awake.len());
}

spec fn traffic(carriers: Seq<Carrier>, stats: BundleStats) -> Traffic {
    Traffic { carriers: models(carriers), stats }
}

proof fn lemma_models_update(carriers: Seq<Carrier>, after: Seq<Carrier>, i: int)
    requires
        0 <= i < carriers.len(),
        after.len() == carriers.len(),
        forall|j: int| 0 <= j < carriers.len() && j != i ==> after[j] == carriers[j],
    ensures
        models(after) == models(carriers).update(i, after[i]@),
{
    assert(models(after) =~= models(carriers).update(i, after[i]@));
}

fn lapse(carriers: &mut Vec<Carrier>, round: u64, stats: &mut BundleStats)
    requires
        old(stats).room(old(carriers)@.len() as int),
    ensures
        traffic(final(carriers)@, *final(stats)) == all_lapsed(
            traffic(old(carriers)@, *old(stats)),
            round,
            old(carriers)@.len(),
        ),
{
    let ghost t0 = traffic(carriers@, *stats);
    let n: usize = carriers.len();
    let mut i: usize = 0;
    while i < n
        invariant
            i <= n,
            n == carriers@.len(),
            n == t0.carriers.len(),
            t0.stats.room(n as int),
            traffic(carriers@, *stats) == all_lapsed(t0, round, i as nat),
        decreases n - i,
    {
        let ghost before = carriers@;
        proof {
            lemma_lapsed_balance(t0, round, i as nat);
            assert(models(before)[i as int] == before[i as int]@);
        }
        let old_enough: bool = match &carriers[i].carrying {
            Some(b) => b.age(round) > config::BUNDLE_MAX_AGE_ROUNDS,
            None => false,
        };
        if old_enough {
            carriers[i].carrying = None;
            stats.expired = stats.expired + 1;
            proof {
                lemma_models_update(before, carriers@, i as int);
            }
        }
        i += 1;
    }
}

/// Whether a list holds an id.
fn holds(list: &Vec<u32>, id: u32) -> (r: bool)
    ensures
        r == list@.contains(id),
{
    let mut k: usize = 0;
    while k < list.len()
        invariant
            k <= list@.len(),
            forall|j: int| 0 <= j < k ==> list@[j] != id,
        decreases list@.len() - k,
    {
        if list[k] == id {
            return true;
        }
        k += 1;
    }
    false
}

/// What is to become of a bundle.
enum Fate {
    Waits,
    Lands,
    Loops,
    TooFar,
    Moves(u32),
}

fn fate(b: &Bundle, s: &Station, i: usize, adj: &MeshAdjacency) -> (r: Fate)
    ensures
        match s.belief {
            None => r is Waits,
            Some(belief) => match belief.next_hop {
                None => if adj@.tower_of(i as int) is Some {
                    r is Lands
                } else {
                    r is Waits
                },
                Some(next) => if !adj@.neighbors_of(i as int).contains(next) {
                    r is Waits
                } else if b.path@.contains(next) {
                    r is Loops
                } else if b.path@.len() >= config::BUNDLE_MAX_HOPS {
                    r is TooFar
                } else {
                    r == Fate::Moves(next)
                },
            },
        },
{
    match s.belief {
        None => Fate::Waits,
        Some(belief) => match belief.next_hop {
            None => {
                if adj.tower_in_range(i).is_some() {
                    Fate::Lands
                } else {
                    Fate::Waits
                }
            },
            Some(next) => {
                if !adj.is_neighbor(i, next) {
                    Fate::Waits
                } else if holds(&b.path, next) {
                    Fate::Loops
                } else if b.path.len() >= config::BUNDLE_MAX_HOPS {
                    Fate::TooFar
                } else {
                    Fate::Moves(next)
                }
            },
        },
    }
}

fn decide(
    carriers: &mut Vec<Carrier>,
    stations: &Vec<Station>,
    adj: &MeshAdjacency,
    awake: &Vec<usize>,
    stats: &mut BundleStats,
) -> (moves: Vec<(usize, u32)>)
    requires
        stations@.len() == old(carriers)@.len(),
        old(stats).room(awake@.len() as int),
        forall|k: int| 0 <= k < awake@.len() ==> #[trigger] awake@[k] < old(carriers)@.len(),
    ensures
        traffic(final(carriers)@, *final(stats)) == all_decided(
            traffic(old(carriers)@, *old(stats)),
            stations@,
            adj@,
            awake@,
            awake@.len(),
        ).traffic,
        moves@ == all_decided(
            traffic(old(carriers)@, *old(stats)),
            stations@,
            adj@,
            awake@,
            awake@.len(),
        ).moves,
{
    let ghost t0 = traffic(carriers@, *stats);
    let mut moves: Vec<(usize, u32)> = Vec::new();
    let mut k: usize = 0;
    while k < awake.len()
        invariant
            k <= awake@.len(),
            stations@.len() == carriers@.len(),
            t0.carriers.len() == carriers@.len(),
            t0.stats.room(awake@.len() as int),
            forall|x: int| 0 <= x < awake@.len() ==> #[trigger] awake@[x] < t0.carriers.len(),
            traffic(carriers@, *stats) == all_decided(
                t0,
                stations@,
                adj@,
                awake@,
                k as nat,
            ).traffic,
            moves@ == all_decided(t0, stations@, adj@, awake@, k as nat).moves,
        decreases awake@.len() - k,
    {
        let i: usize = awake[k];
        assert(awake@[k as int] < t0.carriers.len());
        let ghost before = carriers@;
        proof {
            lemma_decided_balance(t0, stations@, adj@, awake@, k as nat);
            assert(models(before)[i as int] == before[i as int]@);
        }
        let f: Fate = match &carriers[i].carrying {
            Some(b) => fate(b, &stations[i], i, adj),
            None => Fate::Waits,
        };
        match f {
            Fate::Waits => {},
            Fate::Lands => {
                carriers[i].carrying = None;
                stats.delivered = stats.delivered + 1;
                proof {
                    lemma_models_update(before, carriers@, i as int);
                }
            },
            Fate::Loops => {
                carriers[i].carrying = None;
                stats.dropped_loop = stats.dropped_loop + 1;
                proof {
                    lemma_models_update(before, carriers@, i as int);
                }
            },
            Fate::TooFar => {
                carriers[i].carrying = None;
                stats.dropped_ttl = stats.dropped_ttl + 1;
                proof {
                    lemma_models_update(before, carriers@, i as int);
                }
            },
            Fate::Moves(next) => {
                moves.push((i, next));
            },
        }
        k += 1;
    }
    moves
}

fn hand_on(carriers: &mut Vec<Carrier>, moves: &Vec<(usize, u32)>, stats: &mut BundleStats)
    requires
        old(stats).blocked + moves@.len() <= u64::MAX,
        forall|m: int| 0 <= m < moves@.len() ==> (#[trigger] moves@[m]).0 < old(carriers)@.len(),
    ensures
        traffic(final(carriers)@, *final(stats)) == all_handed(
            traffic(old(carriers)@, *old(stats)),
            moves@,
            moves@.len(),
        ),
{
    let ghost t0 = traffic(carriers@, *stats);
    let mut k: usize = 0;
    while k < moves.len()
        invariant
            k <= moves@.len(),
            t0.carriers.len() == carriers@.len(),
            t0.stats.blocked + moves@.len() <= u64::MAX,
            forall|m: int| 0 <= m < moves@.len() ==> (#[trigger] moves@[m]).0 < t0.carriers.len(),
            traffic(carriers@, *stats) == all_handed(t0, moves@, k as nat),
        decreases moves@.len() - k,
    {
        let (from, to) = moves[k];
        assert(moves@[k as int].0 < t0.carriers.len());
        let to_idx: usize = to as usize;
        let ghost before = carriers@;
        proof {
            lemma_handed_balance(t0, moves@, k as nat);
            assert(models(before)[from as int] == before[from as int]@);
        }
        let free: bool = if to_idx < carriers.len() {
            assert(models(before)[to_idx as int] == before[to_idx as int]@);
            carriers[to_idx].carrying.is_none()
        } else {
            false
        };
        if !free {
            stats.blocked = stats.blocked + 1;
        } else {
            let taken: Option<Bundle> = carriers[from].carrying.take();
            let ghost left = carriers@;
            proof {
                lemma_models_update(before, left, from as int);
            }
            if let Some(b) = taken {
                let mut bundle: Bundle = b;
                bundle.path.push(to);
                carriers[to_idx].carrying = Some(bundle);
                proof {
                    lemma_models_update(left, carriers@, to_idx as int);
                }
            } else {
                assert(models(left) =~= models(before));
            }
        }
        k += 1;
    }
}

fn originate(
    carriers: &mut Vec<Carrier>,
    stations: &Vec<Station>,
    awake: &Vec<usize>,
    round: u64,
    stats: &mut BundleStats,
)
    requires
        stations@.len() == old(carriers)@.len(),
        old(stats).originated + awake@.len() <= u64::MAX,
        round + config::BUNDLE_INTERVAL_ROUNDS <= u64::MAX,
        forall|k: int| 0 <= k < awake@.len() ==> #[trigger] awake@[k] < old(carriers)@.len(),
        forall|i: int|
            0 <= i < old(carriers)@.len() ==> (#[trigger] models(
                old(carriers)@,
            )[i]).bundle_seq + awake@.len() <= u64::MAX,
    ensures
        traffic(final(carriers)@, *final(stats)) == all_begun(
            traffic(old(carriers)@, *old(stats)),
            stations@,
            awake@,
            round,
            awake@.len(),
        ),
{
    let ghost t0 = traffic(carriers@, *stats);
    let mut k: usize = 0;
    while k < awake.len()
        invariant
            k <= awake@.len(),
            stations@.len() == carriers@.len(),
            t0.carriers.len() == carriers@.len(),
            t0.stats.originated + awake@.len() <= u64::MAX,
            round + config::BUNDLE_INTERVAL_ROUNDS <= u64::MAX,
            forall|x: int| 0 <= x < awake@.len() ==> #[trigger] awake@[x] < t0.carriers.len(),
            forall|i: int|
                0 <= i < t0.carriers.len() ==> (#[trigger] t0.carriers[i]).bundle_seq + awake@.len()
                    <= u64::MAX,
            traffic(carriers@, *stats) == all_begun(t0, stations@, awake@, round, k as nat),
        decreases awake@.len() - k,
    {
        let i: usize = awake[k];
        assert(awake@[k as int] < t0.carriers.len());
        let ghost before = carriers@;
        proof {
            lemma_begun_balance(t0, stations@, awake@, round, k as nat);
            assert(models(before)[i as int] == before[i as int]@);
            assert(t0.carriers[i as int].bundle_seq + awake@.len() <= u64::MAX);
        }
        if carriers[i].carrying.is_none() && round >= carriers[i].next_bundle_round {
            let id: u32 = stations[i].id;
            let seq: u64 = carriers[i].bundle_seq;
            let mut path: Vec<u32> = Vec::new();
            path.push(id);
            assert(path@ =~= seq![id]);
            carriers[i].carrying = Some(
                Bundle { origin_id: id, seq, created_at_round: round, path },
            );
            carriers[i].bundle_seq = seq + 1;
            carriers[i].next_bundle_round = round + config::BUNDLE_INTERVAL_ROUNDS;
            stats.originated = stats.originated + 1;
            proof {
                lemma_models_update(before, carriers@, i as int);
            }
        }
        k += 1;
    }
}

/// Advances bundles by one comms round. `awake` lists the balloons that
/// transmit in it: a bundle moves only when its holder is awake.
pub fn step(
    carriers: &mut Vec<Carrier>,
    stations: &Vec<Station>,
    adj: &MeshAdjacency,
    awake: &Vec<usize>,
    round: u64,
    stats: &mut BundleStats,
)
    requires
        round_fits(
            (Traffic { carriers: models(old(carriers)@), stats: *old(stats) }),
            stations@,
            awake@,
            round,
        ),
    ensures
        (Traffic { carriers: models(final(carriers)@), stats: *final(stats) }) == traffic_after(
            (Traffic { carriers: models(old(carriers)@), stats: *old(stats) }),
            stations@,
            adj@,
            awake@,
            round,
        ),
{
    let ghost t0 = traffic(carriers@, *stats);
    let ghost a = all_lapsed(t0, round, t0.carriers.len());
    let ghost o = all_decided(a, stations@, adj@, awake@, awake@.len());
    let ghost h = all_handed(o.traffic, o.moves, o.moves.len());
    proof {
        lemma_lapsed_balance(t0, round, t0.carriers.len());
        lemma_decided_balance(a, stations@, adj@, awake@, awake@.len());
        lemma_handed_balance(o.traffic, o.moves, o.moves.len());
    }
    lapse(carriers, round, stats);
    let moves: Vec<(usize, u32)> = decide(carriers, stations, adj, awake, stats);
    hand_on(carriers, &moves, stats);
    assert forall|i: int| 0 <= i < carriers@.len() implies (#[trigger] models(
        carriers@,
    )[i]).bundle_seq + awake@.len() <= u64::MAX by {
        assert(models(carriers@) == h.carriers);
        assert(h.carriers[i].bundle_seq == o.traffic.carriers[i].bundle_seq);
        assert(o.traffic.carriers[i].bundle_seq == a.carriers[i].bundle_seq);
        assert(a.carriers[i].bundle_seq == t0.carriers[i].bundle_seq);
    }
    originate(carriers, stations, awake, round, stats);
}

} // verus!
