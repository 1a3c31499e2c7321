//! What a round of single-slot delivery gets done: how every bundle fares, which
//! ones move on, and who takes up a new one.
use vstd::prelude::*;

use crate::beacon::Station;
use crate::bundle;
use crate::bundle::{BundleModel, BundleStats, CarrierModel, Traffic};
use crate::config;
use crate::mesh_adjacency::Topology;
use crate::protocol::dv_dtn::delivery_laws;

verus! {

/// What a balloon still carries once the round has begun: what has time left.
pub open spec fn still_carried(c: CarrierModel, round: u64) -> Option<BundleModel> {
    match c.carrying {
        Some(b) => if round <= b.created_at_round + config::BUNDLE_MAX_AGE_ROUNDS {
            Some(b)
        } else {
            None
        },
        None => None,
    }
}

/// Whether what a balloon carries runs out of time.
pub open spec fn too_old(c: CarrierModel, round: u64) -> bool {
    c.carrying matches Some(b) && round > b.created_at_round + config::BUNDLE_MAX_AGE_ROUNDS
}

/// Whether what balloon `i` carries lands: it believes that a tower hears it, and
/// one does, whichever that is.
pub open spec fn lands(held: Option<BundleModel>, s: Station, topo: Topology, i: int) -> bool {
    &&& held is Some
    &&& s.belief matches Some(r) && r.next_hop is None
    &&& topo.tower_of(i) is Some
}

/// The next hop that balloon `i` believes in and hears.
pub open spec fn way_on(s: Station, topo: Topology, i: int) -> Option<u32> {
    match s.belief {
        Some(r) => match r.next_hop {
            Some(next) => if topo.neighbors_of(i).contains(next) {
                Some(next)
            } else {
                None
            },
            None => None,
        },
        None => None,
    }
}

/// Whether what balloon `i` carries has been where it would go.
pub open spec fn loops(held: Option<BundleModel>, s: Station, topo: Topology, i: int) -> bool {
    held matches Some(b) && (way_on(s, topo, i) matches Some(next) && b.path.contains(next))
}

/// Whether what balloon `i` carries would go on and has no hops left.
pub open spec fn runs_out(held: Option<BundleModel>, s: Station, topo: Topology, i: int) -> bool {
    held matches Some(b) && (way_on(s, topo, i) matches Some(next) && !b.path.contains(next)
        && b.path.len() >= config::BUNDLE_MAX_HOPS)
}

/// Whether what balloon `i` carries may go on to a balloon.
pub open spec fn may_go(
    held: Option<BundleModel>,
    s: Station,
    topo: Topology,
    i: int,
    next: u32,
) -> bool {
    held matches Some(b) && way_on(s, topo, i) == Some(next) && !b.path.contains(next)
        && b.path.len() < config::BUNDLE_MAX_HOPS
}

/// How many of the first `k` carriers have a bundle that runs out of time.
pub open spec fn lapsing(carriers: Seq<CarrierModel>, round: u64, k: nat) -> nat
    decreases k,
{
    if k == 0 {
        0
    } else {
        lapsing(carriers, round, (k - 1) as nat) + delivery_laws::one_if(
            too_old(carriers[k - 1], round),
        )
    }
}

proof fn lemma_lapsed(t: Traffic, round: u64, k: nat)
    requires
        k <= t.carriers.len(),
        t.stats.expired + k <= u64::MAX,
    ensures
        ({
            let a = bundle::all_lapsed(t, round, k);
            &&& a.carriers.len() == t.carriers.len()
            &&& a.stats == (BundleStats { expired: a.stats.expired, ..t.stats })
            &&& a.stats.expired == t.stats.expired + lapsing(t.carriers, round, k)
            &&& lapsing(t.carriers, round, k) <= k
            &&& forall|j: int|
                0 <= j < t.carriers.len() ==> (#[trigger] a.carriers[j]) == CarrierModel {
                    carrying: if j < k {
                        still_carried(t.carriers[j], round)
                    } else {
                        t.carriers[j].carrying
                    },
                    ..t.carriers[j]
                }
        }),
    decreases k,
{
    if k > 0 {
        lemma_lapsed(t, round, (k - 1) as nat);
        let b = bundle::all_lapsed(t, round, (k - 1) as nat);
        assert(b.carriers[k - 1] == t.carriers[k - 1]);
    }
}

/// Whether a bundle is settled in the slot of the balloon that carries it.
spec fn settled_here(c: CarrierModel, s: Station, topo: Topology, i: int) -> bool {
    lands(c.carrying, s, topo, i) || loops(c.carrying, s, topo, i) || runs_out(
        c.carrying,
        s,
        topo,
        i,
    )
}

proof fn lemma_decided(
    t: Traffic,
    stations: Seq<Station>,
    topo: Topology,
    awake: Seq<usize>,
    k: nat,
)
    requires
        k <= awake.len(),
        awake.no_duplicates(),
        t.stats.room(k as int),
        forall|x: int| 0 <= x < awake.len() ==> #[trigger] awake[x] < t.carriers.len(),
    ensures
        ({
            let o = bundle::all_decided(t, stations, topo, awake, k);
            let a = o.traffic;
            &&& a.carriers.len() == t.carriers.len()
            &&& a.stats == (BundleStats {
                delivered: a.stats.delivered,
                dropped_loop: a.stats.dropped_loop,
                dropped_ttl: a.stats.dropped_ttl,
                ..t.stats
            })
            &&& a.stats.delivered == t.stats.delivered + delivery_laws::sum_over(
                awake,
                |i: int|
                    delivery_laws::one_if(lands(t.carriers[i].carrying, stations[i], topo, i)),
                k,
            )
            &&& a.stats.dropped_loop == t.stats.dropped_loop + delivery_laws::sum_over(
                awake,
                |i: int|
                    delivery_laws::one_if(loops(t.carriers[i].carrying, stations[i], topo, i)),
                k,
            )
            &&& a.stats.dropped_ttl == t.stats.dropped_ttl + delivery_laws::sum_over(
                awake,
                |i: int|
                    delivery_laws::one_if(runs_out(t.carriers[i].carrying, stations[i], topo, i)),
                k,
            )
            &&& a.stats.delivered <= t.stats.delivered + k
            &&& a.stats.dropped_loop <= t.stats.dropped_loop + k
            &&& a.stats.dropped_ttl <= t.stats.dropped_ttl + k
            &&& forall|j: int|
                0 <= j < t.carriers.len() && (forall|x: int|
                    0 <= x < k ==> #[trigger] awake[x] != j) ==> (#[trigger] a.carriers[j])
                    == t.carriers[j]
            &&& forall|x: int|
                0 <= x < k ==> a.carriers[(#[trigger] awake[x]) as int] == CarrierModel {
                    carrying: if settled_here(
                        t.carriers[awake[x] as int],
                        stations[awake[x] as int],
                        topo,
                        awake[x] as int,
                    ) {
                        None
                    } else {
                        t.carriers[awake[x] as int].carrying
                    },
                    ..t.carriers[awake[x] as int]
                }
        }),
    decreases k,
{
    if k > 0 {
        lemma_decided(t, stations, topo, awake, (k - 1) as nat);
        let b = bundle::all_decided(t, stations, topo, awake, (k - 1) as nat);
        let o = bundle::all_decided(t, stations, topo, awake, k);
        let i = awake[k - 1] as int;
        assert(awake[k - 1] < t.carriers.len());
        assert forall|x: int| 0 <= x < k - 1 implies #[trigger] awake[x] != i by {
            assert(awake[x] != awake[k - 1]);
        }
        assert(b.traffic.carriers[i] == t.carriers[i]);
        assert(o == bundle::decided(b, stations, topo, i));
        assert forall|j: int|
            0 <= j < t.carriers.len() && (forall|x: int|
                0 <= x < k ==> #[trigger] awake[x] != j) implies (
        #[trigger] o.traffic.carriers[j]) == t.carriers[j] by {
            assert(awake[k - 1] != j);
            assert(b.traffic.carriers[j] == t.carriers[j]);
        }
        assert forall|x: int| 0 <= x < k implies o.traffic.carriers[(
        #[trigger] awake[x]) as int] == (CarrierModel {
            carrying: if settled_here(
                t.carriers[awake[x] as int],
                stations[awake[x] as int],
                topo,
                awake[x] as int,
            ) {
                None
            } else {
                t.carriers[awake[x] as int].carrying
            },
            ..t.carriers[awake[x] as int]
        }) by {
            if x < k - 1 {
                assert(awake[x] != awake[k - 1]);
                assert(awake[x] < t.carriers.len());
            }
        }
    }
}

proof fn lemma_handed_counts(t: Traffic, moves: Seq<(usize, u32)>, k: nat)
    requires
        k <= moves.len(),
    ensures
        bundle::all_handed(t, moves, k).stats == (BundleStats {
            blocked: bundle::all_handed(t, moves, k).stats.blocked,
            ..t.stats
        }),
    decreases k,
{
    if k > 0 {
        lemma_handed_counts(t, moves, (k - 1) as nat);
    }
}

proof fn lemma_begun_counts(
    t: Traffic,
    stations: Seq<Station>,
    awake: Seq<usize>,
    round: u64,
    k: nat,
)
    requires
        k <= awake.len(),
    ensures
        bundle::all_begun(t, stations, awake, round, k).stats == (BundleStats {
            originated: bundle::all_begun(t, stations, awake, round, k).stats.originated,
            ..t.stats
        }),
    decreases k,
{
    if k > 0 {
        lemma_begun_counts(t, stations, awake, round, (k - 1) as nat);
    }
}

/// Every bundle fares as it should: a round counts as expired what has run out of
/// time, and of the rest that is carried by somebody awake, as delivered what hears
/// a tower where it believes in one, as a loop what would go back to where it has
/// been, and as out of hops what would go on and may not.
pub proof fn every_bundle_fares_as_it_should(
    t: Traffic,
    stations: Seq<Station>,
    topo: Topology,
    awake: Seq<usize>,
    round: u64,
)
    requires
        bundle::round_fits(t, stations, awake, round),
        awake.no_duplicates(),
    ensures
        ({
            let after = bundle::traffic_after(t, stations, topo, awake, round).stats;
            &&& after.expired == t.stats.expired + lapsing(t.carriers, round, t.carriers.len())
            &&& after.delivered == t.stats.delivered + delivery_laws::sum_over(
                awake,
                |i: int|
                    delivery_laws::one_if(
                        lands(still_carried(t.carriers[i], round), stations[i], topo, i),
                    ),
                awake.len(),
            )
            &&& after.dropped_loop == t.stats.dropped_loop + delivery_laws::sum_over(
                awake,
                |i: int|
                    delivery_laws::one_if(
                        loops(still_carried(t.carriers[i], round), stations[i], topo, i),
                    ),
                awake.len(),
            )
            &&& after.dropped_ttl == t.stats.dropped_ttl + delivery_laws::sum_over(
                awake,
                |i: int|
                    delivery_laws::one_if(
                        runs_out(still_carried(t.carriers[i], round), stations[i], topo, i),
                    ),
                awake.len(),
            )
        }),
{
    let a = bundle::all_lapsed(t, round, t.carriers.len());
    lemma_lapsed(t, round, t.carriers.len());
    lemma_decided(a, stations, topo, awake, awake.len());
    let o = bundle::all_decided(a, stations, topo, awake, awake.len());
    lemma_handed_counts(o.traffic, o.moves, o.moves.len());
    let h = bundle::all_handed(o.traffic, o.moves, o.moves.len());
    lemma_begun_counts(h, stations, awake, round, awake.len());
    assert forall|x: int| 0 <= x < awake.len() implies a.carriers[(
    #[trigger] awake[x]) as int].carrying == still_carried(
        t.carriers[awake[x] as int],
        round,
    ) by {
        assert(awake[x] < t.carriers.len());
    }
    delivery_laws::lemma_sum_same(
        awake,
        |i: int| delivery_laws::one_if(lands(a.carriers[i].carrying, stations[i], topo, i)),
        |i: int|
            delivery_laws::one_if(
                lands(still_carried(t.carriers[i], round), stations[i], topo, i),
            ),
        awake.len(),
    );
    delivery_laws::lemma_sum_same(
        awake,
        |i: int| delivery_laws::one_if(loops(a.carriers[i].carrying, stations[i], topo, i)),
        |i: int|
            delivery_laws::one_if(
                loops(still_carried(t.carriers[i], round), stations[i], topo, i),
            ),
        awake.len(),
    );
    delivery_laws::lemma_sum_same(
        awake,
        |i: int| delivery_laws::one_if(runs_out(a.carriers[i].carrying, stations[i], topo, i)),
        |i: int|
            delivery_laws::one_if(
                runs_out(still_carried(t.carriers[i], round), stations[i], topo, i),
            ),
        awake.len(),
    );
}

// ---------------------------------------------------------------------------
// Moving on
// ---------------------------------------------------------------------------

/// The handoffs decided on are those of the bundles that may go, in the order in
/// which their carriers wake.
proof fn lemma_moves(
    t: Traffic,
    stations: Seq<Station>,
    topo: Topology,
    awake: Seq<usize>,
    k: nat,
)
    requires
        k <= awake.len(),
        awake.no_duplicates(),
        t.stats.room(k as int),
        forall|x: int| 0 <= x < awake.len() ==> #[trigger] awake[x] < t.carriers.len(),
    ensures
        ({
            let o = bundle::all_decided(t, stations, topo, awake, k);
            &&& forall|m: int|
                0 <= m < o.moves.len() ==> {
                    let mv = #[trigger] o.moves[m];
                    &&& mv.0 < t.carriers.len()
                    &&& may_go(
                        t.carriers[mv.0 as int].carrying,
                        stations[mv.0 as int],
                        topo,
                        mv.0 as int,
                        mv.1,
                    )
                    &&& exists|x: int| 0 <= x < k && #[trigger] awake[x] == mv.0
                }
            &&& forall|x: int, next: u32|
                0 <= x < k && may_go(
                    t.carriers[awake[x] as int].carrying,
                    stations[awake[x] as int],
                    topo,
                    awake[x] as int,
                    next,
                ) ==> #[trigger] o.moves.contains((awake[x], next))
        }),
    decreases k,
{
    if k > 0 {
        lemma_moves(t, stations, topo, awake, (k - 1) as nat);
        lemma_decided(t, stations, topo, awake, (k - 1) as nat);
        let b = bundle::all_decided(t, stations, topo, awake, (k - 1) as nat);
        let o = bundle::all_decided(t, stations, topo, awake, k);
        let i = awake[k - 1] as int;
        assert(awake[k - 1] < t.carriers.len());
        assert forall|x: int| 0 <= x < k - 1 implies #[trigger] awake[x] != i by {
            assert(awake[x] != awake[k - 1]);
        }
        assert(b.traffic.carriers[i] == t.carriers[i]);
        assert(o == bundle::decided(b, stations, topo, i));
        assert forall|m: int| 0 <= m < o.moves.len() implies ({
            let mv = #[trigger] o.moves[m];
            &&& mv.0 < t.carriers.len()
            &&& may_go(
                t.carriers[mv.0 as int].carrying,
                stations[mv.0 as int],
                topo,
                mv.0 as int,
                mv.1,
            )
            &&& exists|x: int| 0 <= x < k && #[trigger] awake[x] == mv.0
        }) by {
            if m < b.moves.len() {
                assert(o.moves[m] == b.moves[m]);
                let x = choose|x: int| 0 <= x < k - 1 && #[trigger] awake[x] == b.moves[m].0;
                assert(awake[x] == o.moves[m].0);
            } else {
                assert(awake[k - 1] == o.moves[m].0);
            }
        }
        assert forall|x: int, next: u32|
            0 <= x < k && may_go(
                t.carriers[awake[x] as int].carrying,
                stations[awake[x] as int],
                topo,
                awake[x] as int,
                next,
            ) implies #[trigger] o.moves.contains((awake[x], next)) by {
            if x < k - 1 {
                assert(b.moves.contains((awake[x], next)));
                let m = b.moves.index_of((awake[x], next));
                assert(o.moves[m] == b.moves[m]);
            } else {
                assert(o.moves[b.moves.len() as int] == (awake[x], next));
            }
        }
    }
}

/// Handoffs that leave a balloon alone leave what it carries.
proof fn lemma_others_handed(t: Traffic, moves: Seq<(usize, u32)>, k: nat, j: int)
    requires
        k <= moves.len(),
        0 <= j < t.carriers.len(),
        forall|m: int| 0 <= m < k ==> (#[trigger] moves[m]).0 != j && moves[m].0 < t.carriers.len(),
        t.carriers[j].carrying is Some || forall|m: int|
            0 <= m < k ==> (#[trigger] moves[m]).1 != j,
    ensures
        bundle::all_handed(t, moves, k).carriers.len() == t.carriers.len(),
        bundle::all_handed(t, moves, k).carriers[j] == t.carriers[j],
    decreases k,
{
    if k > 0 {
        lemma_others_handed(t, moves, (k - 1) as nat, j);
    }
}

proof fn lemma_later_handed(t: Traffic, moves: Seq<(usize, u32)>, h: nat, k: nat, j: int)
    requires
        h <= k <= moves.len(),
        0 <= j < t.carriers.len(),
        bundle::all_handed(t, moves, h).carriers.len() == t.carriers.len(),
        bundle::all_handed(t, moves, h).carriers[j].carrying is Some,
        forall|m: int| h <= m < k ==> (#[trigger] moves[m]).0 != j && moves[m].0 < t.carriers.len(),
    ensures
        bundle::all_handed(t, moves, k).carriers.len() == t.carriers.len(),
        bundle::all_handed(t, moves, k).carriers[j] == bundle::all_handed(
            t,
            moves,
            h,
        ).carriers[j],
    decreases k - h,
{
    if h < k {
        lemma_later_handed(t, moves, h, (k - 1) as nat, j);
    }
}

proof fn lemma_begun_keeps(
    t: Traffic,
    stations: Seq<Station>,
    awake: Seq<usize>,
    round: u64,
    k: nat,
    j: int,
)
    requires
        k <= awake.len(),
        0 <= j < t.carriers.len(),
        t.carriers[j].carrying is Some,
        forall|x: int| 0 <= x < awake.len() ==> #[trigger] awake[x] < t.carriers.len(),
    ensures
        bundle::all_begun(t, stations, awake, round, k).carriers.len() == t.carriers.len(),
        bundle::all_begun(t, stations, awake, round, k).carriers[j] == t.carriers[j],
    decreases k,
{
    if k > 0 {
        lemma_begun_keeps(t, stations, awake, round, (k - 1) as nat, j);
        assert(awake[k - 1] < t.carriers.len());
    }
}

/// A bundle moves on. If a balloon awake hears the balloon that it believes to be
/// its next hop, that has nothing to carry, and nobody else would hand it
/// something, what the first carries is with the other after the round, with its
/// path one longer.
pub proof fn a_bundle_moves_on(
    t: Traffic,
    stations: Seq<Station>,
    topo: Topology,
    awake: Seq<usize>,
    round: u64,
    i: int,
    next: u32,
)
    requires
        bundle::round_fits(t, stations, awake, round),
        awake.no_duplicates(),
        0 <= i < t.carriers.len() <= usize::MAX,
        awake.contains(i as usize),
        next < t.carriers.len(),
        t.carriers[next as int].carrying is None,
        may_go(still_carried(t.carriers[i], round), stations[i], topo, i, next),
        forall|j: int|
            0 <= j < t.carriers.len() && j != i && (#[trigger] t.carriers[j]).carrying is Some
                ==> way_on(stations[j], topo, j) != Some(next),
    ensures
        ({
            let b = t.carriers[i].carrying->Some_0;
            bundle::traffic_after(
                t,
                stations,
                topo,
                awake,
                round,
            ).carriers[next as int].carrying == Some(
                BundleModel { path: b.path.push(next), ..b },
            )
        }),
{
    let b = t.carriers[i].carrying->Some_0;
    let to = next as int;
    let a = bundle::all_lapsed(t, round, t.carriers.len());
    lemma_lapsed(t, round, t.carriers.len());
    lemma_decided(a, stations, topo, awake, awake.len());
    lemma_moves(a, stations, topo, awake, awake.len());
    let o = bundle::all_decided(a, stations, topo, awake, awake.len());
    let x = awake.index_of(i as usize);
    assert(awake[x] == i);
    assert(a.carriers[i].carrying == Some(b));
    assert(o.moves.contains((awake[x], next)));
    let m = o.moves.index_of((awake[x], next));
    // The first handoff of this bundle.
    let first = lemma_first(o.moves, (awake[x], next), m);
    assert(o.traffic.carriers[i].carrying == Some(b)) by {
        assert(a.carriers[i].carrying == still_carried(t.carriers[i], round));
    }
    assert(a.carriers[to].carrying is None);
    assert(i != to);
    assert(o.traffic.carriers[to].carrying is None) by {
        if exists|y: int| 0 <= y < awake.len() && #[trigger] awake[y] == to {
            let y = choose|y: int| 0 <= y < awake.len() && #[trigger] awake[y] == to;
            assert(o.traffic.carriers[awake[y] as int].carrying is None);
        }
    }
    assert forall|l: int| 0 <= l < o.moves.len() implies (#[trigger] o.moves[l]).0 != to
        && o.moves[l].0 < t.carriers.len() && (o.moves[l].1 == next ==> o.moves[l].0 == i)
        && (o.moves[l].0 == i ==> o.moves[l].1 == next) by {
        let j = o.moves[l].0 as int;
        assert(may_go(a.carriers[j].carrying, stations[j], topo, j, o.moves[l].1));
        assert(a.carriers[j].carrying == still_carried(t.carriers[j], round));
        assert(t.carriers[j].carrying is Some);
    }
    assert forall|l: int| 0 <= l < first implies (#[trigger] o.moves[l]).0 != i by {
        assert(o.moves[l] != (awake[x], next));
    }
    assert forall|l: int| 0 <= l < first implies (#[trigger] o.moves[l]).1 != to by {}
    lemma_others_handed(o.traffic, o.moves, first as nat, i);
    lemma_others_handed(o.traffic, o.moves, first as nat, to);
    let c = bundle::all_handed(o.traffic, o.moves, first as nat);
    let d = bundle::all_handed(o.traffic, o.moves, (first + 1) as nat);
    assert(d == bundle::handed(c, o.moves[first]));
    let moved = BundleModel { path: b.path.push(next), ..b };
    assert(d.carriers[to].carrying == Some(moved));
    lemma_later_handed(o.traffic, o.moves, (first + 1) as nat, o.moves.len(), to);
    let h = bundle::all_handed(o.traffic, o.moves, o.moves.len());
    lemma_begun_keeps(h, stations, awake, round, awake.len(), to);
}

/// The first place where a handoff stands in a list.
proof fn lemma_first(moves: Seq<(usize, u32)>, mv: (usize, u32), m: int) -> (first: int)
    requires
        0 <= m < moves.len(),
        moves[m] == mv,
    ensures
        0 <= first <= m,
        moves[first] == mv,
        forall|l: int| 0 <= l < first ==> #[trigger] moves[l] != mv,
    decreases m,
{
    if exists|l: int| 0 <= l < m && #[trigger] moves[l] == mv {
        let l = choose|l: int| 0 <= l < m && #[trigger] moves[l] == mv;
        lemma_first(moves, mv, l)
    } else {
        m
    }
}

// ---------------------------------------------------------------------------
// Taking up
// ---------------------------------------------------------------------------

proof fn lemma_handed_numbers(t: Traffic, moves: Seq<(usize, u32)>, k: nat, j: int)
    requires
        k <= moves.len(),
        0 <= j < t.carriers.len(),
        forall|m: int| 0 <= m < moves.len() ==> (#[trigger] moves[m]).0 < t.carriers.len(),
    ensures
        bundle::all_handed(t, moves, k).carriers.len() == t.carriers.len(),
        bundle::all_handed(t, moves, k).carriers[j].bundle_seq == t.carriers[j].bundle_seq,
        bundle::all_handed(t, moves, k).carriers[j].next_bundle_round
            == t.carriers[j].next_bundle_round,
    decreases k,
{
    if k > 0 {
        lemma_handed_numbers(t, moves, (k - 1) as nat, j);
    }
}

proof fn lemma_begun_at(
    t: Traffic,
    stations: Seq<Station>,
    awake: Seq<usize>,
    round: u64,
    k: nat,
    j: int,
)
    requires
        k <= awake.len(),
        awake.no_duplicates(),
        0 <= j < t.carriers.len(),
        forall|x: int| 0 <= x < awake.len() ==> #[trigger] awake[x] < t.carriers.len(),
    ensures
        ({
            let b = bundle::all_begun(t, stations, awake, round, k);
            &&& b.carriers.len() == t.carriers.len()
            &&& (forall|x: int| 0 <= x < k ==> #[trigger] awake[x] != j) ==> b.carriers[j]
                == t.carriers[j]
            &&& (exists|x: int| 0 <= x < k && #[trigger] awake[x] == j) ==> b.carriers[j]
                == bundle::begun(t, stations, j, round).carriers[j]
        }),
    decreases k,
{
    if k > 0 {
        lemma_begun_at(t, stations, awake, round, (k - 1) as nat, j);
        assert(awake[k - 1] < t.carriers.len());
        if awake[k - 1] == j {
            assert forall|x: int| 0 <= x < k - 1 implies #[trigger] awake[x] != j by {
                assert(awake[x] != awake[k - 1]);
            }
        } else if exists|x: int| 0 <= x < k && #[trigger] awake[x] == j {
            let x = choose|x: int| 0 <= x < k && #[trigger] awake[x] == j;
            assert(x < k - 1);
            assert(awake[x] == j);
        }
    }
}

/// A slot is filled when it is due. A balloon awake whose time has come has
/// something to carry after the round; it takes up a bundle of its own, under the
/// next number, only then, and is due again an interval later. Nobody else takes up
/// a bundle of its own.
pub proof fn a_slot_is_filled_when_due(
    t: Traffic,
    stations: Seq<Station>,
    topo: Topology,
    awake: Seq<usize>,
    round: u64,
    i: int,
)
    requires
        bundle::round_fits(t, stations, awake, round),
        awake.no_duplicates(),
        0 <= i < t.carriers.len() <= usize::MAX,
    ensures
        ({
            let c = t.carriers[i];
            let d = bundle::traffic_after(t, stations, topo, awake, round).carriers[i];
            let due = awake.contains(i as usize) && round >= c.next_bundle_round;
            let own = BundleModel {
                origin_id: stations[i].id,
                seq: c.bundle_seq,
                created_at_round: round,
                path: seq![stations[i].id],
            };
            &&& due ==> d.carrying is Some
            &&& !due ==> d.bundle_seq == c.bundle_seq && d.next_bundle_round
                == c.next_bundle_round
            &&& d.bundle_seq == c.bundle_seq ==> d.next_bundle_round == c.next_bundle_round
            &&& d.bundle_seq != c.bundle_seq ==> d.bundle_seq == c.bundle_seq + 1 && d.carrying
                == Some(own) && d.next_bundle_round == round + config::BUNDLE_INTERVAL_ROUNDS
        }),
{
    let a = bundle::all_lapsed(t, round, t.carriers.len());
    lemma_lapsed(t, round, t.carriers.len());
    lemma_decided(a, stations, topo, awake, awake.len());
    lemma_moves(a, stations, topo, awake, awake.len());
    let o = bundle::all_decided(a, stations, topo, awake, awake.len());
    assert(o.traffic.carriers[i].bundle_seq == t.carriers[i].bundle_seq
        && o.traffic.carriers[i].next_bundle_round == t.carriers[i].next_bundle_round) by {
        assert(a.carriers[i].bundle_seq == t.carriers[i].bundle_seq);
        if exists|x: int| 0 <= x < awake.len() && #[trigger] awake[x] == i {
            let x = choose|x: int| 0 <= x < awake.len() && #[trigger] awake[x] == i;
            assert(o.traffic.carriers[awake[x] as int].bundle_seq == a.carriers[i].bundle_seq);
        }
    }
    assert forall|m: int| 0 <= m < o.moves.len() implies (#[trigger] o.moves[m]).0
        < o.traffic.carriers.len() by {}
    lemma_handed_numbers(o.traffic, o.moves, o.moves.len(), i);
    let h = bundle::all_handed(o.traffic, o.moves, o.moves.len());
    lemma_begun_at(h, stations, awake, round, awake.len(), i);
    assert(t.carriers[i].bundle_seq + awake.len() <= u64::MAX);
    if awake.contains(i as usize) {
        let x = awake.index_of(i as usize);
        assert(awake[x] == i);
    } else {
        assert forall|x: int| 0 <= x < awake.len() implies #[trigger] awake[x] != i by {
            assert(awake.contains(awake[x]));
        }
    }
}

} // verus!
