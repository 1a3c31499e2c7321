//! Route discovery with fixed timing: towers flood hop-counted beacons, and a
//! balloon repeats what it believes on its own duty-cycle slot. A balloon is
//! never told whether it can reach a tower: it believes what arrives.
use rand::rngs::StdRng;
use vstd::prelude::*;
use vstd::string::*;

use crate::chance;
use crate::config;
use crate::link_detection;
use crate::link_detection::NodeKey;
use crate::mesh_adjacency::{MeshAdjacency, Topology};
use crate::protocol::dv_dtn::adoption_laws;
use crate::protocol::dv_dtn::beacon as waves;
use crate::protocol::dv_dtn::params::Metric;
use crate::text;
use crate::tower::Tower;

pub use crate::protocol::dv_dtn::beacon::RouteBelief;

verus! {

/// One balloon's routing state.
#[derive(Debug, Clone, Copy, PartialEq, Eq, Structural)]
pub struct Station {
    pub id: u32,
    pub belief: Option<RouteBelief>,
    /// Next round this balloon is awake to transmit.
    pub next_beacon_round: u64,
}

impl Station {
    pub fn new(id: u32) -> (s: Station)
        ensures
            s == (Station { id, belief: None, next_beacon_round: 0 }),
    {
        Station { id, belief: None, next_beacon_round: 0 }
    }
}

/// A node key read from its wire form. Nothing if it is not one.
pub open spec fn key_of(s: Seq<char>) -> Option<(bool, u32)> {
    if s.len() == 0 {
        None
    } else {
        match text::number(s.skip(1)) {
            Some(n) => if n > u32::MAX {
                None
            } else if s[0] == 'b' {
                Some((true, n as u32))
            } else if s[0] == 't' {
                Some((false, n as u32))
            } else {
                None
            },
            None => None,
        }
    }
}

/// Reads a wire key: whether it is a balloon's, and the id. The key begins
/// with an ASCII character.
pub fn parse_key(key: &str) -> (r: Option<(bool, u32)>)
    requires
        key@.len() > 0,
        key@[0] <= '\u{7f}',
    ensures
        r == key_of(key@),
{
    let n: usize = key.unicode_len();
    let tag: char = key.get_char(0);
    let rest: &str = key.substring_char(1, n);
    assert(rest@ =~= key@.skip(1));
    match text::read_number(rest) {
        Some(id) => {
            if id > 0xffff_ffff {
                None
            } else if tag == 'b' {
                Some((true, id as u32))
            } else if tag == 't' {
                Some((false, id as u32))
            } else {
                None
            }
        },
        None => None,
    }
}

/// A key's wire form reads back as the key.
pub proof fn wire_keys_read_back(k: NodeKey)
    ensures
        key_of(link_detection::wire_key(k)) == Some(
            (
                k is Balloon,
                match k {
                    NodeKey::Balloon(id) => id,
                    NodeKey::Tower(id) => id,
                },
            ),
        ),
{
    let id = match k {
        NodeKey::Balloon(id) => id,
        NodeKey::Tower(id) => id,
    };
    let s = link_detection::wire_key(k);
    text::lemma_decimal_digits(id as nat);
    assert(s.skip(1) =~= text::decimal(id as nat));
    text::lemma_decimal_reads_back(id as nat);
}

/// Should `new` replace `cur`? News from a later wave wins; within a wave the
/// shorter path does. What does not improve the belief is dropped.
pub fn should_adopt(cur: Option<&RouteBelief>, new: &RouteBelief) -> (r: bool)
    ensures
        r == waves::adoptable(
            match cur {
                Some(c) => Some(*c),
                None => None,
            },
            *new,
            Metric::FreshestFirst,
        ),
{
    match cur {
        None => true,
        Some(c) => {
            if new.emitted_at_round != c.emitted_at_round {
                return new.emitted_at_round > c.emitted_at_round;
            }
            new.hop_count < c.hop_count
        },
    }
}

/// The slot after this one, for a draw.
pub open spec fn slot_of(round: u64, draw: u64) -> u64 {
    waves::slot_after(round, config::BEACON_INTERVAL_ROUNDS, config::BEACON_JITTER_ROUNDS, draw)
}

/// Randomized initial phase, so that the fleet does not transmit in unison.
pub fn initial_slot(rng: &mut StdRng) -> (r: u64)
    ensures
        r < config::BEACON_INTERVAL_ROUNDS,
{
    chance::draw_up_to(rng, config::BEACON_INTERVAL_ROUNDS - 1)
}

/// A balloon that lets go of a belief too old.
pub open spec fn forgetful(s: Station, round: u64) -> Station {
    match s.belief {
        Some(b) => if waves::expired(b, round, config::BELIEF_MAX_AGE_ROUNDS) {
            Station { belief: None, ..s }
        } else {
            s
        },
        None => s,
    }
}

/// Every balloon after forgetting.
pub open spec fn all_forgetful(stations: Seq<Station>, round: u64) -> Seq<Station> {
    stations.map_values(|s: Station| forgetful(s, round))
}

/// The same belief offered to each of a list of balloons.
pub open spec fn offered(list: Seq<u32>, belief: RouteBelief) -> Seq<(u32, RouteBelief)> {
    Seq::new(list.len(), |j: int| (list[j], belief))
}

/// A tower after its turn.
pub open spec fn called(t: Tower, round: u64, draw: u64) -> Tower {
    if round < t.next_beacon_round {
        t
    } else {
        Tower {
            next_beacon_round: slot_of(round, draw),
            beacon_epoch: (t.beacon_epoch + 1) as u64,
            ..t
        }
    }
}

/// What the first `k` towers offer.
pub open spec fn calls(towers: Seq<Tower>, topo: Topology, round: u64, k: nat) -> Seq<
    (u32, RouteBelief),
>
    decreases k,
{
    if k == 0 {
        Seq::empty()
    } else {
        let before = calls(towers, topo, round, (k - 1) as nat);
        let t = towers[k - 1];
        if round < t.next_beacon_round {
            before
        } else {
            before + offered(
                topo.tower_neighbors_of(k - 1),
                waves::first_hand(t.id, (t.beacon_epoch + 1) as u64, round),
            )
        }
    }
}

/// A balloon after its turn.
pub open spec fn slotted(s: Station, round: u64, draw: u64) -> Station {
    if round < s.next_beacon_round {
        s
    } else {
        Station { next_beacon_round: slot_of(round, draw), ..s }
    }
}

/// Whether a balloon has something to repeat in this round.
pub open spec fn speaks(s: Station, round: u64) -> bool {
    &&& round >= s.next_beacon_round
    &&& s.belief matches Some(b) && b.hop_count < config::BEACON_MAX_HOPS
}

/// What the first `k` balloons repeat.
pub open spec fn repeats(stations: Seq<Station>, topo: Topology, round: u64, k: nat) -> Seq<
    (u32, RouteBelief),
>
    decreases k,
{
    if k == 0 {
        Seq::empty()
    } else {
        let before = repeats(stations, topo, round, (k - 1) as nat);
        let s = stations[k - 1];
        if speaks(s, round) {
            before + offered(
                topo.neighbors_of(k - 1),
                waves::relayed(s.belief->Some_0, s.id),
            )
        } else {
            before
        }
    }
}

/// Whether a balloon takes an offer: not one through itself, not one too old,
/// only a better one.
pub open spec fn takes(s: Station, offer: RouteBelief, round: u64) -> bool {
    &&& offer.next_hop != Some(s.id)
    &&& !waves::expired(offer, round, config::BELIEF_MAX_AGE_ROUNDS)
    &&& waves::adoptable(s.belief, offer, Metric::FreshestFirst)
}

/// After one offer.
pub open spec fn heard(
    stations: Seq<Station>,
    offer: (u32, RouteBelief),
    round: u64,
) -> Seq<Station> {
    let i = offer.0 as int;
    if i < stations.len() && takes(stations[i], offer.1, round) {
        stations.update(i, Station { belief: Some(offer.1), ..stations[i] })
    } else {
        stations
    }
}

/// After the first `k` offers.
pub open spec fn all_heard(
    stations: Seq<Station>,
    offers: Seq<(u32, RouteBelief)>,
    round: u64,
    k: nat,
) -> Seq<Station>
    decreases k,
{
    if k == 0 {
        stations
    } else {
        heard(all_heard(stations, offers, round, (k - 1) as nat), offers[k - 1], round)
    }
}

/// The towers after a round.
pub open spec fn towers_after(towers: Seq<Tower>, round: u64, draws: Seq<u64>) -> Seq<Tower> {
    Seq::new(towers.len(), |t: int| called(towers[t], round, draws[t]))
}

/// The balloons after their turns.
pub open spec fn all_slotted(stations: Seq<Station>, round: u64, draws: Seq<u64>) -> Seq<Station> {
    Seq::new(stations.len(), |i: int| slotted(stations[i], round, draws[i]))
}

/// The balloons after a round: forget, let everyone transmit, then take what
/// arrives. Nothing travels more than one hop in a round.
pub open spec fn stations_after(
    stations: Seq<Station>,
    towers: Seq<Tower>,
    topo: Topology,
    round: u64,
    draws: Seq<u64>,
) -> Seq<Station> {
    let fresh = all_forgetful(stations, round);
    let offers = calls(towers, topo, round, towers.len()) + repeats(
        fresh,
        topo,
        round,
        fresh.len(),
    );
    all_heard(all_slotted(fresh, round, draws), offers, round, offers.len())
}

/// Whether there is a usable draw for each.
pub open spec fn draws_for(draws: Seq<u64>, n: nat) -> bool {
    draws.len() == n && waves::drawn(draws, config::BEACON_JITTER_ROUNDS)
}

/// Whether the round and the wave counters leave room for one more.
pub open spec fn room(towers: Seq<Tower>, round: u64) -> bool {
    &&& round + config::BEACON_INTERVAL_ROUNDS + config::BEACON_JITTER_ROUNDS + 1 <= u64::MAX
    &&& forall|t: int| 0 <= t < towers.len() ==> (#[trigger] towers[t]).beacon_epoch < u64::MAX
}

fn push_offers(offers: &mut Vec<(u32, RouteBelief)>, list: &[u32], belief: RouteBelief)
    ensures
        final(offers)@ == old(offers)@ + offered(list@, belief),
{
    let ghost before = offers@;
    let mut j: usize = 0;
    assert(before =~= before + offered(list@, belief).take(0));
    while j < list.len()
        invariant
            j <= list@.len(),
            offers@ == before + offered(list@, belief).take(j as int),
        decreases list@.len() - j,
    {
        offers.push((list[j], belief));
        j += 1;
        assert(offers@ =~= before + offered(list@, belief).take(j as int));
    }
    assert(offered(list@, belief).take(j as int) =~= offered(list@, belief));
}

fn forget(stations: &mut Vec<Station>, round: u64)
    ensures
        final(stations)@ == all_forgetful(old(stations)@, round),
{
    let ghost before = stations@;
    let mut i: usize = 0;
    while i < stations.len()
        invariant
            i <= before.len(),
            stations@.len() == before.len(),
            forall|j: int|
                0 <= j < before.len() ==> #[trigger] stations@[j] == (if j < i {
                    forgetful(before[j], round)
                } else {
                    before[j]
                }),
        decreases before.len() - i,
    {
        let s: Station = stations[i];
        if let Some(b) = s.belief {
            if b.is_expired(round, config::BELIEF_MAX_AGE_ROUNDS) {
                stations.set(i, Station { belief: None, ..s });
            }
        }
        i += 1;
    }
    assert(stations@ =~= all_forgetful(before, round));
}

fn call_towers(
    towers: &mut Vec<Tower>,
    adj: &MeshAdjacency,
    round: u64,
    draws: &Vec<u64>,
) -> (offers: Vec<(u32, RouteBelief)>)
    requires
        room(old(towers)@, round),
        draws_for(draws@, old(towers)@.len()),
    ensures
        final(towers)@ == towers_after(old(towers)@, round, draws@),
        offers@ == calls(old(towers)@, adj@, round, old(towers)@.len()),
{
    let ghost before = towers@;
    let mut offers: Vec<(u32, RouteBelief)> = Vec::new();
    let mut k: usize = 0;
    while k < towers.len()
        invariant
            k <= before.len(),
            towers@.len() == before.len(),
            room(before, round),
            draws_for(draws@, before.len()),
            forall|j: int|
                0 <= j < before.len() ==> #[trigger] towers@[j] == (if j < k {
                    called(before[j], round, draws@[j])
                } else {
                    before[j]
                }),
            offers@ == calls(before, adj@, round, k as nat),
        decreases before.len() - k,
    {
        let t: Tower = towers[k];
        assert(t == before[k as int]);
        if round >= t.next_beacon_round {
            assert(draws@[k as int] <= 2 * config::BEACON_JITTER_ROUNDS);
            let next: u64 = waves::next_slot_for(
                round,
                config::BEACON_INTERVAL_ROUNDS,
                config::BEACON_JITTER_ROUNDS,
                draws[k],
            );
            let epoch: u64 = t.beacon_epoch + 1;
            towers.set(k, Tower { next_beacon_round: next, beacon_epoch: epoch, ..t });
            push_offers(
                &mut offers,
                adj.tower_neighbors(k),
                RouteBelief {
                    tower_id: t.id,
                    hop_count: 1,
                    next_hop: None,
                    epoch,
                    emitted_at_round: round,
                },
            );
        }
        k += 1;
    }
    assert(towers@ =~= towers_after(before, round, draws@));
    offers
}

fn call_stations(
    stations: &mut Vec<Station>,
    adj: &MeshAdjacency,
    round: u64,
    draws: &Vec<u64>,
    offers: &mut Vec<(u32, RouteBelief)>,
)
    requires
        room(Seq::empty(), round),
        draws_for(draws@, old(stations)@.len()),
    ensures
        final(stations)@ == all_slotted(old(stations)@, round, draws@),
        final(offers)@ == old(offers)@ + repeats(
            old(stations)@,
            adj@,
            round,
            old(stations)@.len(),
        ),
{
    let ghost before = stations@;
    let ghost heard_so_far = offers@;
    let mut i: usize = 0;
    assert(offers@ =~= heard_so_far + repeats(before, adj@, round, 0));
    while i < stations.len()
        invariant
            i <= before.len(),
            stations@.len() == before.len(),
            room(Seq::empty(), round),
            draws_for(draws@, before.len()),
            forall|j: int|
                0 <= j < before.len() ==> #[trigger] stations@[j] == (if j < i {
                    slotted(before[j], round, draws@[j])
                } else {
                    before[j]
                }),
            offers@ == heard_so_far + repeats(before, adj@, round, i as nat),
        decreases before.len() - i,
    {
        let s: Station = stations[i];
        assert(s == before[i as int]);
        if round >= s.next_beacon_round {
            assert(draws@[i as int] <= 2 * config::BEACON_JITTER_ROUNDS);
            let next: u64 = waves::next_slot_for(
                round,
                config::BEACON_INTERVAL_ROUNDS,
                config::BEACON_JITTER_ROUNDS,
                draws[i],
            );
            stations.set(i, Station { next_beacon_round: next, ..s });
            if let Some(b) = s.belief {
                if b.hop_count < config::BEACON_MAX_HOPS {
                    push_offers(
                        offers,
                        adj.neighbors(i),
                        RouteBelief { hop_count: b.hop_count + 1, next_hop: Some(s.id), ..b },
                    );
                }
            }
        }
        i += 1;
        assert(offers@ =~= heard_so_far + repeats(before, adj@, round, i as nat));
    }
    assert(stations@ =~= all_slotted(before, round, draws@));
}

fn hear(stations: &mut Vec<Station>, offers: &Vec<(u32, RouteBelief)>, round: u64)
    ensures
        final(stations)@ == all_heard(old(stations)@, offers@, round, offers@.len()),
{
    let ghost before = stations@;
    let mut k: usize = 0;
    while k < offers.len()
        invariant
            k <= offers@.len(),
            stations@ == all_heard(before, offers@, round, k as nat),
        decreases offers@.len() - k,
    {
        let (to, offer) = offers[k];
        let i: usize = to as usize;
        if i < stations.len() {
            let s: Station = stations[i];
            let own: bool = match offer.next_hop {
                Some(h) => h == s.id,
                None => false,
            };
            if !own && !offer.is_expired(round, config::BELIEF_MAX_AGE_ROUNDS) && should_adopt(
                s.belief.as_ref(),
                &offer,
            ) {
                stations.set(i, Station { belief: Some(offer), ..s });
            }
        }
        k += 1;
    }
}

/// Advances discovery by one round, with the chances given: one draw for each
/// tower and each balloon, used where its slot has come.
pub fn step_with(
    stations: &mut Vec<Station>,
    towers: &mut Vec<Tower>,
    adj: &MeshAdjacency,
    round: u64,
    tower_draws: &Vec<u64>,
    draws: &Vec<u64>,
)
    requires
        room(old(towers)@, round),
        draws_for(tower_draws@, old(towers)@.len()),
        draws_for(draws@, old(stations)@.len()),
    ensures
        final(towers)@ == towers_after(old(towers)@, round, tower_draws@),
        final(stations)@ == stations_after(
            old(stations)@,
            old(towers)@,
            adj@,
            round,
            draws@,
        ),
{
    forget(stations, round);
    let mut offers: Vec<(u32, RouteBelief)> = call_towers(towers, adj, round, tower_draws);
    call_stations(stations, adj, round, draws, &mut offers);
    hear(stations, &offers, round);
}

fn draw_all(n: usize, rng: &mut StdRng) -> (r: Vec<u64>)
    ensures
        draws_for(r@, n as nat),
{
    let mut r: Vec<u64> = Vec::new();
    while r.len() < n
        invariant
            r@.len() <= n,
            waves::drawn(r@, config::BEACON_JITTER_ROUNDS),
        decreases n - r@.len(),
    {
        let draw: u64 = chance::draw_up_to(rng, 2 * config::BEACON_JITTER_ROUNDS);
        r.push(draw);
    }
    r
}

/// Advances discovery by one round.
pub fn step(
    stations: &mut Vec<Station>,
    towers: &mut Vec<Tower>,
    adj: &MeshAdjacency,
    round: u64,
    rng: &mut StdRng,
)
    requires
        room(old(towers)@, round),
    ensures
        exists|tower_draws: Seq<u64>, draws: Seq<u64>|
            draws_for(tower_draws, old(towers)@.len()) && draws_for(draws, old(stations)@.len())
                && final(towers)@ == #[trigger] towers_after(old(towers)@, round, tower_draws)
                && final(stations)@ == #[trigger] stations_after(
                old(stations)@,
                old(towers)@,
                adj@,
                round,
                draws,
            ),
{
    let tower_draws: Vec<u64> = draw_all(towers.len(), rng);
    let draws: Vec<u64> = draw_all(stations.len(), rng);
    step_with(stations, towers, adj, round, &tower_draws, &draws);
}

proof fn lemma_heard_current(
    stations: Seq<Station>,
    offers: Seq<(u32, RouteBelief)>,
    round: u64,
    k: nat,
)
    requires
        k <= offers.len(),
        forall|i: int|
            0 <= i < stations.len() ==> forgetful(#[trigger] stations[i], round) == stations[i],
    ensures
        all_heard(stations, offers, round, k).len() == stations.len(),
        forall|i: int|
            0 <= i < stations.len() ==> forgetful(
                #[trigger] all_heard(stations, offers, round, k)[i],
                round,
            ) == all_heard(stations, offers, round, k)[i],
    decreases k,
{
    if k > 0 {
        lemma_heard_current(stations, offers, round, (k - 1) as nat);
        let before = all_heard(stations, offers, round, (k - 1) as nat);
        let after = all_heard(stations, offers, round, k);
        assert forall|i: int| 0 <= i < stations.len() implies forgetful(
            #[trigger] after[i],
            round,
        ) == after[i] by {
            assert(forgetful(before[i], round) == before[i]);
        }
    }
}

/// Nobody acts on old news: after a round no belief is older than a belief may
/// be, whoever repeated it last.
pub proof fn no_belief_outlives_its_news(
    stations: Seq<Station>,
    towers: Seq<Tower>,
    topo: Topology,
    round: u64,
    draws: Seq<u64>,
    i: int,
)
    requires
        0 <= i < stations.len(),
        draws.len() == stations.len(),
    ensures
        stations_after(stations, towers, topo, round, draws).len() == stations.len(),
        stations_after(stations, towers, topo, round, draws)[i].belief matches Some(b)
            ==> !waves::expired(b, round, config::BELIEF_MAX_AGE_ROUNDS) && round
            <= b.emitted_at_round + config::BELIEF_MAX_AGE_ROUNDS,
{
    let fresh = all_forgetful(stations, round);
    let offers = calls(towers, topo, round, towers.len()) + repeats(
        fresh,
        topo,
        round,
        fresh.len(),
    );
    let slotted_all = all_slotted(fresh, round, draws);
    assert forall|j: int| 0 <= j < slotted_all.len() implies forgetful(
        #[trigger] slotted_all[j],
        round,
    ) == slotted_all[j] by {
        assert(fresh[j] == forgetful(stations[j], round));
    }
    lemma_heard_current(slotted_all, offers, round, offers.len());
    let after = stations_after(stations, towers, topo, round, draws);
    assert(forgetful(after[i], round) == after[i]);
}

/// Without links nothing is ever learned: a balloon that hears nobody and
/// believes nothing goes on believing nothing.
pub proof fn no_route_is_invented(
    stations: Seq<Station>,
    towers: Seq<Tower>,
    topo: Topology,
    round: u64,
    draws: Seq<u64>,
)
    requires
        draws.len() == stations.len(),
        forall|t: int| (#[trigger] topo.tower_neighbors_of(t)).len() == 0,
        forall|i: int| 0 <= i < stations.len() ==> (#[trigger] stations[i]).belief is None,
    ensures
        forall|i: int|
            0 <= i < stations.len() ==> (#[trigger] stations_after(
                stations,
                towers,
                topo,
                round,
                draws,
            )[i]).belief is None,
{
    let fresh = all_forgetful(stations, round);
    lemma_silent_towers(towers, topo, round, towers.len());
    assert forall|i: int| 0 <= i < fresh.len() implies (#[trigger] fresh[i]).belief is None by {
        assert(fresh[i] == forgetful(stations[i], round));
    }
    lemma_silent_stations(fresh, topo, round, fresh.len());
}

proof fn lemma_silent_towers(towers: Seq<Tower>, topo: Topology, round: u64, k: nat)
    requires
        forall|t: int| (#[trigger] topo.tower_neighbors_of(t)).len() == 0,
    ensures
        calls(towers, topo, round, k).len() == 0,
    decreases k,
{
    if k > 0 {
        lemma_silent_towers(towers, topo, round, (k - 1) as nat);
    }
}

proof fn lemma_silent_stations(stations: Seq<Station>, topo: Topology, round: u64, k: nat)
    requires
        k <= stations.len(),
        forall|i: int| 0 <= i < stations.len() ==> (#[trigger] stations[i]).belief is None,
    ensures
        repeats(stations, topo, round, k).len() == 0,
    decreases k,
{
    if k > 0 {
        lemma_silent_stations(stations, topo, round, (k - 1) as nat);
    }
}

/// What was held, and whatever has come that was neither too old nor a
/// balloon's own, is matched by what is held.
proof fn lemma_heard_best(
    stations: Seq<Station>,
    offers: Seq<(u32, RouteBelief)>,
    round: u64,
    k: nat,
    j: int,
)
    requires
        k <= offers.len(),
        0 <= j < stations.len(),
    ensures
        ({
            let after = all_heard(stations, offers, round, k);
            &&& after.len() == stations.len()
            &&& after[j].id == stations[j].id
            &&& stations[j].belief matches Some(c) ==> adoption_laws::holds_as_good(
                after[j].belief,
                c.emitted_at_round,
                c.hop_count as int,
                Metric::FreshestFirst,
            )
            &&& forall|m: int|
                0 <= m < k && (#[trigger] offers[m]).0 == j && offers[m].1.next_hop != Some(
                    stations[j].id,
                ) && round <= offers[m].1.emitted_at_round + config::BELIEF_MAX_AGE_ROUNDS
                    ==> adoption_laws::holds_as_good(
                    after[j].belief,
                    offers[m].1.emitted_at_round,
                    offers[m].1.hop_count as int,
                    Metric::FreshestFirst,
                )
        }),
    decreases k,
{
    if k > 0 {
        lemma_heard_best(stations, offers, round, (k - 1) as nat, j);
        let before = all_heard(stations, offers, round, (k - 1) as nat);
        let after = all_heard(stations, offers, round, k);
        assert forall|m: int|
            0 <= m < k && (#[trigger] offers[m]).0 == j && offers[m].1.next_hop != Some(
                stations[j].id,
            ) && round <= offers[m].1.emitted_at_round
                + config::BELIEF_MAX_AGE_ROUNDS implies adoption_laws::holds_as_good(
            after[j].belief,
            offers[m].1.emitted_at_round,
            offers[m].1.hop_count as int,
            Metric::FreshestFirst,
        ) by {
            if m < k - 1 {
                assert(adoption_laws::holds_as_good(
                    before[j].belief,
                    offers[m].1.emitted_at_round,
                    offers[m].1.hop_count as int,
                    Metric::FreshestFirst,
                ));
            }
        }
    }
}

proof fn lemma_calls_grow(towers: Seq<Tower>, topo: Topology, round: u64, s: nat, k: nat)
    requires
        s <= k <= towers.len(),
    ensures
        calls(towers, topo, round, s).is_prefix_of(calls(towers, topo, round, k)),
    decreases k - s,
{
    if s < k {
        lemma_calls_grow(towers, topo, round, s, (k - 1) as nat);
    }
}

proof fn lemma_repeats_grow(stations: Seq<Station>, topo: Topology, round: u64, s: nat, k: nat)
    requires
        s <= k <= stations.len(),
    ensures
        repeats(stations, topo, round, s).is_prefix_of(repeats(stations, topo, round, k)),
    decreases k - s,
{
    if s < k {
        lemma_repeats_grow(stations, topo, round, s, (k - 1) as nat);
    }
}

/// A balloon ends a round with the best of all it knew and heard: as good as
/// what it held, unless that has grown too old; as good as the beacon of every
/// tower that emits within earshot, one hop off and dated now; and as good as
/// what every other balloon awake within earshot believes, one hop further off
/// and dated as that is.
pub proof fn the_best_that_is_heard_is_believed(
    stations: Seq<Station>,
    towers: Seq<Tower>,
    topo: Topology,
    round: u64,
    draws: Seq<u64>,
    j: int,
)
    requires
        0 <= j < stations.len(),
        j <= u32::MAX,
    ensures
        ({
            let held = stations_after(stations, towers, topo, round, draws)[j].belief;
            &&& (stations[j].belief matches Some(c) && round <= c.emitted_at_round
                + config::BELIEF_MAX_AGE_ROUNDS) ==> adoption_laws::holds_as_good(
                held,
                stations[j].belief->Some_0.emitted_at_round,
                stations[j].belief->Some_0.hop_count as int,
                Metric::FreshestFirst,
            )
            &&& forall|t: int|
                0 <= t < towers.len() && round >= towers[t].next_beacon_round && (
                #[trigger] topo.tower_neighbors_of(t)).contains(j as u32)
                    ==> adoption_laws::holds_as_good(held, round, 1, Metric::FreshestFirst)
            &&& forall|i: int|
                0 <= i < stations.len() && round >= stations[i].next_beacon_round && (
                #[trigger] topo.neighbors_of(i)).contains(j as u32) && stations[i].id
                    != stations[j].id && (stations[i].belief matches Some(c) && round
                    <= c.emitted_at_round + config::BELIEF_MAX_AGE_ROUNDS && c.hop_count
                    < config::BEACON_MAX_HOPS) ==> adoption_laws::holds_as_good(
                    held,
                    stations[i].belief->Some_0.emitted_at_round,
                    stations[i].belief->Some_0.hop_count + 1,
                    Metric::FreshestFirst,
                )
        }),
{
    let fresh = all_forgetful(stations, round);
    let called = calls(towers, topo, round, towers.len());
    let repeated = repeats(fresh, topo, round, fresh.len());
    let offers = called + repeated;
    let start = all_slotted(fresh, round, draws);
    lemma_heard_best(start, offers, round, offers.len(), j);
    let held = stations_after(stations, towers, topo, round, draws)[j].belief;
    assert(fresh[j] == forgetful(stations[j], round));
    assert(start[j].belief == fresh[j].belief && start[j].id == stations[j].id);
    assert forall|t: int|
        0 <= t < towers.len() && round >= towers[t].next_beacon_round && (
        #[trigger] topo.tower_neighbors_of(t)).contains(
            j as u32,
        ) implies adoption_laws::holds_as_good(held, round, 1, Metric::FreshestFirst) by {
        let before = calls(towers, topo, round, t as nat);
        let after = calls(towers, topo, round, (t + 1) as nat);
        let x = topo.tower_neighbors_of(t).index_of(j as u32);
        lemma_calls_grow(towers, topo, round, (t + 1) as nat, towers.len());
        let m = before.len() + x;
        assert(after[m].0 == j);
        assert(offers[m] == after[m]);
    }
    assert forall|i: int|
        0 <= i < stations.len() && round >= stations[i].next_beacon_round && (
        #[trigger] topo.neighbors_of(i)).contains(j as u32) && stations[i].id != stations[j].id && (
        stations[i].belief matches Some(c) && round <= c.emitted_at_round
            + config::BELIEF_MAX_AGE_ROUNDS && c.hop_count
            < config::BEACON_MAX_HOPS) implies adoption_laws::holds_as_good(
        held,
        stations[i].belief->Some_0.emitted_at_round,
        stations[i].belief->Some_0.hop_count + 1,
        Metric::FreshestFirst,
    ) by {
        assert(fresh[i] == forgetful(stations[i], round));
        let before = repeats(fresh, topo, round, i as nat);
        let after = repeats(fresh, topo, round, (i + 1) as nat);
        let x = topo.neighbors_of(i).index_of(j as u32);
        lemma_repeats_grow(fresh, topo, round, (i + 1) as nat, fresh.len());
        let m = before.len() + x;
        assert(after[m].0 == j);
        assert(repeated[m] == after[m]);
        assert(offers[called.len() + m] == after[m]);
    }
}

/// Balloons and towers whose slot has come sleep for an interval, give or take the
/// jitter, and everybody else keeps their slot. A tower numbers its waves one by
/// one.
pub proof fn the_next_slot_is_an_interval_off(s: Station, t: Tower, round: u64, draw: u64)
    requires
        draw <= 2 * config::BEACON_JITTER_ROUNDS,
        round + config::BEACON_INTERVAL_ROUNDS + config::BEACON_JITTER_ROUNDS + 1 <= u64::MAX,
        t.beacon_epoch < u64::MAX,
    ensures
        ({
            let a = slotted(s, round, draw);
            &&& round < s.next_beacon_round ==> a == s
            &&& round >= s.next_beacon_round ==> a.id == s.id && a.belief == s.belief && round
                + config::BEACON_INTERVAL_ROUNDS <= a.next_beacon_round
                + config::BEACON_JITTER_ROUNDS && a.next_beacon_round <= round
                + config::BEACON_INTERVAL_ROUNDS + config::BEACON_JITTER_ROUNDS
        }),
        ({
            let b = called(t, round, draw);
            &&& round < t.next_beacon_round ==> b == t
            &&& round >= t.next_beacon_round ==> b.id == t.id && b.beacon_epoch == t.beacon_epoch
                + 1 && round + config::BEACON_INTERVAL_ROUNDS <= b.next_beacon_round
                + config::BEACON_JITTER_ROUNDS && b.next_beacon_round <= round
                + config::BEACON_INTERVAL_ROUNDS + config::BEACON_JITTER_ROUNDS
        }),
        // Every length of sleep in between comes with some draw.
        draw < 2 * config::BEACON_JITTER_ROUNDS && round >= s.next_beacon_round ==> slotted(
            s,
            round,
            (draw + 1) as u64,
        ).next_beacon_round == slotted(s, round, draw).next_beacon_round + 1,
{
}

/// Towers emit when they are due, and only then: a wave of their own, one hop off and
/// dated now, to everybody they reach.
pub proof fn towers_emit_when_due(towers: Seq<Tower>, topo: Topology, round: u64, k: nat)
    requires
        0 < k <= towers.len(),
        towers[k - 1].beacon_epoch < u64::MAX,
    ensures
        ({
            let t = towers[k - 1];
            let list = topo.tower_neighbors_of(k - 1);
            let a = calls(towers, topo, round, (k - 1) as nat);
            let b = calls(towers, topo, round, k);
            &&& round < t.next_beacon_round ==> b == a
            &&& round >= t.next_beacon_round ==> {
                &&& b.len() == a.len() + list.len()
                &&& a.is_prefix_of(b)
                &&& forall|x: int|
                    0 <= x < list.len() ==> {
                        let o = #[trigger] b[a.len() + x];
                        &&& o.0 == list[x]
                        &&& o.1.tower_id == t.id
                        &&& o.1.hop_count == 1
                        &&& o.1.next_hop is None
                        &&& o.1.emitted_at_round == round
                        &&& o.1.epoch == t.beacon_epoch + 1
                    }
            }
        }),
{
}

/// Balloons repeat what they believe when they are awake, and only as far as news may
/// travel: one hop further off, through themselves, and dated as it was.
pub proof fn balloons_repeat_when_awake(
    stations: Seq<Station>,
    topo: Topology,
    round: u64,
    k: nat,
)
    requires
        0 < k <= stations.len(),
    ensures
        ({
            let s = stations[k - 1];
            let list = topo.neighbors_of(k - 1);
            let a = repeats(stations, topo, round, (k - 1) as nat);
            let b = repeats(stations, topo, round, k);
            let awake = round >= s.next_beacon_round && (s.belief matches Some(c) && c.hop_count
                < config::BEACON_MAX_HOPS);
            &&& !awake ==> b == a
            &&& awake ==> {
                let c = s.belief->Some_0;
                &&& b.len() == a.len() + list.len()
                &&& a.is_prefix_of(b)
                &&& forall|x: int|
                    0 <= x < list.len() ==> {
                        let o = #[trigger] b[a.len() + x];
                        &&& o.0 == list[x]
                        &&& o.1.tower_id == c.tower_id
                        &&& o.1.hop_count == c.hop_count + 1
                        &&& o.1.next_hop == Some(s.id)
                        &&& o.1.emitted_at_round == c.emitted_at_round
                        &&& o.1.epoch == c.epoch
                    }
            }
        }),
{
}

} // verus!
