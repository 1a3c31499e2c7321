use rand::rngs::StdRng;
use rand::SeedableRng;

use sim_server::beacon::{initial_slot, parse_key, should_adopt, step, step_with, RouteBelief, Station};
use sim_server::bundle;
use sim_server::bundle::{Bundle, BundleStats, Carrier};
use sim_server::config::{BEACON_INTERVAL_ROUNDS, BELIEF_MAX_AGE_ROUNDS, BUNDLE_MAX_AGE_ROUNDS};
use sim_server::link_detection::{Edge, NodeKey};
use sim_server::mesh_adjacency::MeshAdjacency;
use sim_server::tower::Tower;

fn node_key(s: &str) -> NodeKey {
    match parse_key(s) {
        Some((true, id)) => NodeKey::Balloon(id),
        Some((false, id)) => NodeKey::Tower(id),
        None => panic!("bad test node key {s:?}"),
    }
}

fn edge(a: &str, b: &str) -> Edge {
    Edge { a: node_key(a), b: node_key(b) }
}

fn tower(id: u32) -> Tower {
    Tower::new(id, 0.0f64.to_bits(), 0.0f64.to_bits(), 30.0f64.to_bits())
}

#[test]
fn wire_keys_are_read() {
    assert_eq!(parse_key("b12"), Some((true, 12)));
    assert_eq!(parse_key("t3"), Some((false, 3)));
    assert_eq!(parse_key("t+3"), Some((false, 3)));
    assert_eq!(parse_key("x3"), None);
    assert_eq!(parse_key("b"), None);
    assert_eq!(parse_key("b-1"), None);
    assert_eq!(parse_key("b4294967295"), Some((true, u32::MAX)));
    assert_eq!(parse_key("b4294967296"), None);
    assert_eq!(parse_key(&NodeKey::Balloon(40).to_wire()), Some((true, 40)));
}

#[test]
fn initial_slots_lie_within_an_interval() {
    let mut rng = StdRng::seed_from_u64(1);
    let mut seen = [false; 5];
    for _ in 0..200 {
        let slot = initial_slot(&mut rng);
        assert!(slot < BEACON_INTERVAL_ROUNDS);
        seen[slot as usize] = true;
    }
    assert!(seen.iter().all(|s| *s));
}

/// A chain t0 - b0 - b1 - b2 should light up one hop at a time, not all at
/// once: the propagation delay is the whole point of the design.
#[test]
fn belief_propagates_outward_one_hop_at_a_time() {
    let mut balloons: Vec<Station> = (0..3).map(Station::new).collect();
    let mut towers = vec![tower(0)];
    let mut adj = MeshAdjacency::default();
    adj.rebuild(&[edge("t0", "b0"), edge("b0", "b1"), edge("b1", "b2")], 3, &towers);
    let mut rng = StdRng::seed_from_u64(7);

    let mut first_seen = [None; 3];
    for round in 0..60u64 {
        step(&mut balloons, &mut towers, &adj, round, &mut rng);
        for (i, b) in balloons.iter().enumerate() {
            if first_seen[i].is_none() && b.belief.is_some() {
                first_seen[i] = Some(round);
            }
        }
    }

    let t = first_seen.map(|x| x.expect("every balloon in the chain should learn a route"));
    assert!(t[0] < t[1] && t[1] < t[2], "beacon should reach nearer balloons first, got {t:?}");
    assert_eq!(balloons[0].belief.unwrap().hop_count, 1);
    assert_eq!(balloons[1].belief.unwrap().hop_count, 2);
    assert_eq!(balloons[2].belief.unwrap().hop_count, 3);
    assert_eq!(balloons[0].belief.unwrap().next_hop, None);
    assert_eq!(balloons[1].belief.unwrap().next_hop, Some(0));
    assert_eq!(balloons[2].belief.unwrap().next_hop, Some(1));
}

/// Cut the link and the belief must not persist forever: it ages out, and only
/// then does the balloon consider itself ungrounded.
#[test]
fn belief_expires_after_link_is_cut() {
    let mut balloons = vec![Station::new(0)];
    let mut towers = vec![tower(0)];
    let mut adj = MeshAdjacency::default();
    adj.rebuild(&[edge("t0", "b0")], 1, &towers);
    let mut rng = StdRng::seed_from_u64(11);

    let mut round = 0u64;
    while round < 30 && balloons[0].belief.is_none() {
        step(&mut balloons, &mut towers, &adj, round, &mut rng);
        round += 1;
    }
    assert!(balloons[0].belief.is_some(), "should have learned a route");

    adj.rebuild(&[], 1, &towers);
    let cut_at = round;
    while balloons[0].belief.is_some() {
        step(&mut balloons, &mut towers, &adj, round, &mut rng);
        round += 1;
        assert!(round - cut_at < 100, "belief should have expired by now");
    }
    assert!(round - cut_at > BELIEF_MAX_AGE_ROUNDS / 4);
}

/// An isolated balloon must never invent a route.
#[test]
fn isolated_balloon_never_believes_it_is_grounded() {
    let mut balloons = vec![Station::new(0)];
    let mut towers = vec![tower(0)];
    let mut adj = MeshAdjacency::default();
    adj.rebuild(&[], 1, &towers);
    let mut rng = StdRng::seed_from_u64(3);
    for round in 0..200 {
        step(&mut balloons, &mut towers, &adj, round, &mut rng);
        assert!(balloons[0].belief.is_none());
    }
}

#[test]
fn shorter_path_within_a_wave_wins() {
    let long = RouteBelief {
        tower_id: 0,
        hop_count: 6,
        next_hop: Some(9),
        epoch: 4,
        emitted_at_round: 100,
    };
    let short = RouteBelief { hop_count: 3, next_hop: Some(2), ..long };
    assert!(should_adopt(Some(&long), &short));
    assert!(!should_adopt(Some(&short), &long));
    let fresher = RouteBelief { epoch: 5, emitted_at_round: 105, hop_count: 8, ..long };
    assert!(should_adopt(Some(&short), &fresher));
}

/// Re-hearing news already held must not renew its lease.
#[test]
fn relaying_does_not_refresh_an_already_known_wave() {
    let held = RouteBelief {
        tower_id: 0,
        hop_count: 3,
        next_hop: Some(1),
        epoch: 4,
        emitted_at_round: 100,
    };
    let echoed = RouteBelief { hop_count: 4, next_hop: Some(2), ..held };
    assert!(!should_adopt(Some(&held), &echoed));
}

/// Cut every tower loose and the whole field must forget.
#[test]
fn beliefs_drain_completely_once_towers_are_unreachable() {
    let n = 12usize;
    let mut balloons: Vec<Station> = (0..n as u32).map(Station::new).collect();
    let mut towers = vec![tower(0)];
    let mut edges = vec![edge("t0", "b0")];
    for i in 0..n {
        for j in (i + 1)..n {
            edges.push(edge(&format!("b{i}"), &format!("b{j}")));
        }
    }
    let mut adj = MeshAdjacency::default();
    adj.rebuild(&edges, n, &towers);
    let mut rng = StdRng::seed_from_u64(5);

    let mut round = 0u64;
    while round < 120 {
        step(&mut balloons, &mut towers, &adj, round, &mut rng);
        round += 1;
    }
    assert!(
        balloons.iter().all(|b| b.belief.is_some()),
        "everything should be reachable while the tower is connected"
    );

    adj.rebuild(&edges[1..], n, &towers);
    let cut_at = round;
    while round < cut_at + 300 {
        step(&mut balloons, &mut towers, &adj, round, &mut rng);
        round += 1;
    }
    let survivors = balloons.iter().filter(|b| b.belief.is_some()).count();
    assert_eq!(survivors, 0, "{survivors} balloons kept a dead route alive");
}

/// With the chances given, a round is exact.
#[test]
fn a_round_with_given_chances_is_exact() {
    let mut balloons: Vec<Station> = (0..2).map(Station::new).collect();
    let mut towers = vec![tower(7)];
    let mut adj = MeshAdjacency::default();
    adj.rebuild(&[edge("t7", "b0"), edge("b0", "b1")], 2, &towers);
    step_with(&mut balloons, &mut towers, &adj, 10, &vec![0], &vec![1, 2]);
    assert_eq!(towers[0].next_beacon_round, 14);
    assert_eq!(towers[0].beacon_epoch, 1);
    assert_eq!(balloons[0].next_beacon_round, 15);
    assert_eq!(balloons[1].next_beacon_round, 16);
    assert_eq!(
        balloons[0].belief,
        Some(RouteBelief {
            tower_id: 7,
            hop_count: 1,
            next_hop: None,
            epoch: 1,
            emitted_at_round: 10,
        })
    );
    assert_eq!(balloons[1].belief, None);
    // A belief of exactly the greatest age is kept, one round more is not.
    step_with(&mut balloons, &mut towers, &MeshAdjacency::default(), 70, &vec![0], &vec![1, 1]);
    assert!(balloons[0].belief.is_some());
    step_with(&mut balloons, &mut towers, &MeshAdjacency::default(), 71, &vec![0], &vec![1, 1]);
    assert!(balloons[0].belief.is_none());
}

struct Line {
    stations: Vec<Station>,
    carriers: Vec<Carrier>,
    towers: Vec<Tower>,
    adj: MeshAdjacency,
}

fn line(n: usize) -> Line {
    let stations: Vec<Station> = (0..n as u32).map(Station::new).collect();
    let carriers: Vec<Carrier> = (0..n).map(|_| Carrier::new()).collect();
    let towers = vec![tower(0)];
    let mut edges = vec![edge("t0", "b0")];
    for i in 0..n.saturating_sub(1) {
        edges.push(edge(&format!("b{i}"), &format!("b{}", i + 1)));
    }
    let mut adj = MeshAdjacency::default();
    adj.rebuild(&edges, n, &towers);
    Line { stations, carriers, towers, adj }
}

/// Gives every balloon a correct belief pointing one hop closer to the tower.
fn seed_beliefs(stations: &mut [Station], round: u64) {
    for i in 0..stations.len() {
        stations[i].belief = Some(RouteBelief {
            tower_id: 0,
            hop_count: i as u32 + 1,
            next_hop: if i == 0 { None } else { Some(i as u32 - 1) },
            epoch: 1,
            emitted_at_round: round,
        });
    }
}

#[test]
fn a_bundle_walks_the_chain_and_is_delivered() {
    let mut l = line(4);
    seed_beliefs(&mut l.stations, 0);
    let mut stats = BundleStats::default();
    let awake: Vec<usize> = (0..4).collect();
    for c in l.carriers.iter_mut() {
        c.next_bundle_round = u64::MAX;
    }
    l.carriers[3].next_bundle_round = 0;

    for round in 0..10 {
        bundle::step(&mut l.carriers, &l.stations, &l.adj, &awake, round, &mut stats);
        if stats.delivered > 0 {
            break;
        }
    }
    assert_eq!(stats.delivered, 1, "stats: {stats:?}");
    assert_eq!(stats.dropped_loop + stats.dropped_ttl + stats.expired, 0);
}

#[test]
fn path_history_records_every_relay_in_order() {
    let mut l = line(4);
    seed_beliefs(&mut l.stations, 0);
    let mut stats = BundleStats::default();
    let awake: Vec<usize> = (0..4).collect();
    for c in l.carriers.iter_mut() {
        c.next_bundle_round = u64::MAX;
    }
    l.carriers[3].next_bundle_round = 0;

    bundle::step(&mut l.carriers, &l.stations, &l.adj, &awake, 0, &mut stats);
    assert_eq!(l.carriers[3].carrying.as_ref().unwrap().path, vec![3]);
    bundle::step(&mut l.carriers, &l.stations, &l.adj, &awake, 1, &mut stats);
    assert_eq!(l.carriers[2].carrying.as_ref().unwrap().path, vec![3, 2]);
    bundle::step(&mut l.carriers, &l.stations, &l.adj, &awake, 2, &mut stats);
    let held = l.carriers[1].carrying.as_ref().unwrap();
    assert_eq!(held.path, vec![3, 2, 1]);
    assert_eq!(held.hops(), 2);
    assert_eq!(held.age(2), 2);
}

/// A next hop that has gone out of range makes the bundle wait, not vanish.
#[test]
fn a_stale_next_hop_holds_the_bundle_rather_than_dropping_it() {
    let mut l = line(3);
    let mut adj = MeshAdjacency::default();
    adj.rebuild(&[edge("t0", "b0"), edge("b1", "b2")], 3, &l.towers);
    seed_beliefs(&mut l.stations, 0);

    let mut stats = BundleStats::default();
    let awake: Vec<usize> = (0..3).collect();
    for c in l.carriers.iter_mut() {
        c.next_bundle_round = u64::MAX;
    }
    l.carriers[1].carrying =
        Some(Bundle { origin_id: 1, seq: 0, created_at_round: 0, path: vec![1] });

    for round in 0..10 {
        bundle::step(&mut l.carriers, &l.stations, &adj, &awake, round, &mut stats);
    }
    assert!(l.carriers[1].carrying.is_some(), "should still be holding");
    assert_eq!(stats.resolved(), 0, "nothing should have resolved: {stats:?}");
}

#[test]
fn a_bundle_offered_back_to_a_balloon_already_in_its_path_is_dropped_as_a_loop() {
    let mut l = line(2);
    let mut adj = MeshAdjacency::default();
    adj.rebuild(&[edge("b0", "b1")], 2, &l.towers);

    let belief = RouteBelief {
        tower_id: 0,
        hop_count: 3,
        next_hop: Some(1),
        epoch: 1,
        emitted_at_round: 0,
    };
    l.stations[0].belief = Some(belief);
    l.stations[1].belief = Some(RouteBelief { next_hop: Some(0), ..belief });
    for c in l.carriers.iter_mut() {
        c.next_bundle_round = u64::MAX;
    }
    l.carriers[1].carrying =
        Some(Bundle { origin_id: 1, seq: 0, created_at_round: 0, path: vec![1] });

    let mut stats = BundleStats::default();
    let awake: Vec<usize> = vec![0, 1];
    for round in 0..6 {
        bundle::step(&mut l.carriers, &l.stations, &adj, &awake, round, &mut stats);
    }
    assert_eq!(stats.dropped_loop, 1, "stats: {stats:?}");
    assert!(l.carriers.iter().all(|c| c.carrying.is_none()));
}

#[test]
fn a_bundle_nobody_can_move_eventually_expires() {
    let stations = vec![Station::new(0)];
    let mut carriers = vec![Carrier::new()];
    let adj = MeshAdjacency::default();
    let mut stats = BundleStats::default();

    for round in 0..(BUNDLE_MAX_AGE_ROUNDS + 5) {
        bundle::step(&mut carriers, &stations, &adj, &vec![0], round, &mut stats);
    }
    assert!(stats.expired >= 1, "stats: {stats:?}");
    assert_eq!(stats.delivered, 0);
}

/// A busy receiver refuses, the sender keeps its bundle; a hop budget used up
/// destroys it.
#[test]
fn a_busy_receiver_and_a_spent_budget() {
    let mut l = line(2);
    seed_beliefs(&mut l.stations, 0);
    l.stations[0].belief = None;
    for c in l.carriers.iter_mut() {
        c.next_bundle_round = u64::MAX;
    }
    l.carriers[0].carrying =
        Some(Bundle { origin_id: 9, seq: 4, created_at_round: 0, path: vec![9, 0] });
    l.carriers[1].carrying =
        Some(Bundle { origin_id: 1, seq: 0, created_at_round: 0, path: vec![1] });
    let mut stats = BundleStats::default();
    bundle::step(&mut l.carriers, &l.stations, &l.adj, &vec![0, 1], 1, &mut stats);
    assert_eq!(stats.blocked, 1);
    assert_eq!(l.carriers[1].carrying.as_ref().unwrap().path, vec![1]);

    l.carriers[0].carrying = None;
    let long: Vec<u32> = (100..119).chain([1]).collect();
    assert_eq!(long.len(), 20);
    l.carriers[1].carrying =
        Some(Bundle { origin_id: 100, seq: 0, created_at_round: 0, path: long });
    bundle::step(&mut l.carriers, &l.stations, &l.adj, &vec![0, 1], 2, &mut stats);
    assert_eq!(stats.dropped_ttl, 1);
    assert!(l.carriers.iter().all(|c| c.carrying.is_none()));
}

/// What was originated is held or settled, round after round.
#[test]
fn single_slot_bundles_never_vanish() {
    let mut l = line(5);
    seed_beliefs(&mut l.stations, 0);
    let mut stats = BundleStats::default();
    for round in 0..900u64 {
        let awake: Vec<usize> = (0..5).filter(|i| (round + *i as u64) % 3 == 0).collect();
        bundle::step(&mut l.carriers, &l.stations, &l.adj, &awake, round, &mut stats);
        let held = l.carriers.iter().filter(|c| c.carrying.is_some()).count() as u64;
        assert_eq!(stats.originated, stats.resolved() + held);
    }
    assert!(stats.originated > 5 && stats.delivered > 5);
}
