use std::collections::HashMap;

use rand::rngs::StdRng;
use rand::SeedableRng;

use sim_server::balloon::Balloon;
use sim_server::link_detection::{Edge, NodeKey};
use sim_server::mesh_adjacency::MeshAdjacency;
use sim_server::protocol::dv_dtn::beacon::{should_adopt, step, RouteBelief, TowerBeacon};
use sim_server::protocol::dv_dtn::params::{DvDtnParams, Metric};
use sim_server::protocol::dv_dtn::DvNode;
use sim_server::telemetry::Reading;
use sim_server::tower::Tower;

fn balloon(id: u32) -> Balloon {
    balloon_at(id, id as f64, 0.0, 18000.0)
}

fn balloon_at(id: u32, lon: f64, lat: f64, alt_m: f64) -> Balloon {
    Balloon::new(
        id,
        Reading {
            lon: lon.to_bits(),
            lat: lat.to_bits(),
            alt_m: alt_m.to_bits(),
            temperature_k: 216.65f64.to_bits(),
            pressure_hpa: 75.0f64.to_bits(),
            humidity_pct: 1.0f64.to_bits(),
        },
    )
}

fn tower(id: u32, lon: f64, lat: f64, height_m: f64) -> Tower {
    Tower::new(id, lon.to_bits(), lat.to_bits(), height_m.to_bits())
}

fn node_key(s: &str) -> NodeKey {
    let (tag, rest) = s.split_at(1);
    let id: u32 = rest.parse().unwrap();
    match tag {
        "b" => NodeKey::Balloon(id),
        "t" => NodeKey::Tower(id),
        _ => panic!("bad test node key {s:?}"),
    }
}

fn edge(a: &str, b: &str) -> Edge {
    Edge { a: node_key(a), b: node_key(b) }
}

struct Field {
    balloons: Vec<Balloon>,
    nodes: Vec<DvNode>,
    towers: Vec<Tower>,
    tower_state: HashMap<u32, TowerBeacon>,
    params: DvDtnParams,
}

impl Field {
    fn new(n: u32, towers: Vec<Tower>) -> Self {
        Field {
            balloons: (0..n).map(|i| balloon_at(i, 0.0, 0.0, 10000.0)).collect(),
            nodes: vec![DvNode::default(); n as usize],
            tower_state: towers.iter().map(|t| (t.id, TowerBeacon::default())).collect(),
            towers,
            params: DvDtnParams::default(),
        }
    }

    fn step(&mut self, adj: &MeshAdjacency, round: u64, rng: &mut StdRng) {
        step(
            &mut self.nodes,
            &self.balloons,
            &mut self.tower_state,
            &self.towers,
            adj,
            &self.params,
            round,
            rng,
        );
    }

    fn belief(&self, i: usize) -> Option<RouteBelief> {
        self.nodes[i].belief
    }
}

#[test]
fn beacon_belief_propagates_outward_one_hop_at_a_time() {
    let mut f = Field::new(3, vec![tower(0, 0.0, 0.0, 30.0)]);
    let mut adj = MeshAdjacency::default();
    adj.rebuild(&[edge("t0", "b0"), edge("b0", "b1"), edge("b1", "b2")], 3, &f.towers);
    let mut rng = StdRng::seed_from_u64(7);

    let mut first_seen = [None; 3];
    for round in 0..60u64 {
        f.step(&adj, round, &mut rng);
        for i in 0..3 {
            if first_seen[i].is_none() && f.belief(i).is_some() {
                first_seen[i] = Some(round);
            }
        }
    }

    let t = first_seen.map(|x| x.expect("every balloon in the chain should learn a route"));
    assert!(t[0] < t[1] && t[1] < t[2], "beacon should reach nearer balloons first, got {t:?}");
    assert_eq!(f.belief(0).unwrap().hop_count, 1);
    assert_eq!(f.belief(1).unwrap().hop_count, 2);
    assert_eq!(f.belief(2).unwrap().hop_count, 3);
    assert_eq!(f.belief(0).unwrap().next_hop, None);
    assert_eq!(f.belief(1).unwrap().next_hop, Some(0));
    assert_eq!(f.belief(2).unwrap().next_hop, Some(1));
}

#[test]
fn tower_origin_offer_produces_a_hop_from_the_tower() {
    let mut f = Field::new(1, vec![tower(0, 0.0, 0.0, 30.0)]);
    let mut adj = MeshAdjacency::default();
    adj.rebuild(&[edge("t0", "b0")], 1, &f.towers);
    let mut rng = StdRng::seed_from_u64(7);

    let mut round = 0u64;
    loop {
        let result = step(
            &mut f.nodes,
            &f.balloons,
            &mut f.tower_state,
            &f.towers,
            &adj,
            &f.params,
            round,
            &mut rng,
        );
        if let Some(hop) = result.hops.iter().find(|h| h.to_balloon == 0) {
            assert_eq!(hop.from, NodeKey::Tower(0));
            assert_eq!(hop.hop_count, 1);
            break;
        }
        round += 1;
        assert!(round < 30, "tower should have beaconed by now");
    }
}

#[test]
fn beacon_belief_expires_after_link_is_cut() {
    let mut f = Field::new(1, vec![tower(0, 0.0, 0.0, 30.0)]);
    let mut adj = MeshAdjacency::default();
    adj.rebuild(&[edge("t0", "b0")], 1, &f.towers);
    let mut rng = StdRng::seed_from_u64(11);

    let mut round = 0u64;
    while round < 30 && f.belief(0).is_none() {
        f.step(&adj, round, &mut rng);
        round += 1;
    }
    assert!(f.belief(0).is_some(), "should have learned a route");

    adj.rebuild(&[], 1, &f.towers);
    let cut_at = round;
    while f.belief(0).is_some() {
        f.step(&adj, round, &mut rng);
        round += 1;
        assert!(round - cut_at < 100, "belief should have expired by now");
    }
    assert!(round - cut_at > f.params.belief_max_age_rounds / 4);
}

#[test]
fn beacon_isolated_balloon_never_believes_it_is_grounded() {
    let mut f = Field::new(1, vec![tower(0, 0.0, 0.0, 30.0)]);
    let mut adj = MeshAdjacency::default();
    adj.rebuild(&[], 1, &f.towers);
    let mut rng = StdRng::seed_from_u64(3);
    for round in 0..200 {
        f.step(&adj, round, &mut rng);
        assert!(f.belief(0).is_none());
    }
}

#[test]
fn beacon_shorter_path_within_a_wave_wins() {
    let long = RouteBelief {
        tower_id: 0,
        hop_count: 6,
        next_hop: Some(9),
        epoch: 4,
        emitted_at_round: 100,
    };
    let short = RouteBelief { hop_count: 3, next_hop: Some(2), ..long };
    assert!(should_adopt(Some(&long), &short, &DvDtnParams::default()));
    assert!(!should_adopt(Some(&short), &long, &DvDtnParams::default()));
    let fresher = RouteBelief { epoch: 5, emitted_at_round: 105, hop_count: 8, ..long };
    assert!(should_adopt(Some(&short), &fresher, &DvDtnParams::default()));
}

#[test]
fn nearest_first_prefers_a_shorter_path_over_a_fresher_wave() {
    let near_but_old = RouteBelief {
        tower_id: 0,
        hop_count: 2,
        next_hop: Some(1),
        epoch: 4,
        emitted_at_round: 100,
    };
    let far_but_fresh = RouteBelief {
        hop_count: 9,
        next_hop: Some(2),
        epoch: 5,
        emitted_at_round: 130,
        ..near_but_old
    };

    let shipped = DvDtnParams::default();
    let nearest = DvDtnParams { metric: Metric::NearestFirst, ..Default::default() };

    assert!(should_adopt(Some(&near_but_old), &far_but_fresh, &shipped));
    assert!(!should_adopt(Some(&near_but_old), &far_but_fresh, &nearest));
    assert!(should_adopt(Some(&far_but_fresh), &near_but_old, &nearest));
    let same_hops_fresher =
        RouteBelief { hop_count: 2, emitted_at_round: 130, ..near_but_old };
    assert!(should_adopt(Some(&near_but_old), &same_hops_fresher, &nearest));
}

#[test]
fn beacon_relaying_does_not_refresh_an_already_known_wave() {
    let held = RouteBelief {
        tower_id: 0,
        hop_count: 3,
        next_hop: Some(1),
        epoch: 4,
        emitted_at_round: 100,
    };
    let echoed = RouteBelief { hop_count: 4, next_hop: Some(2), ..held };
    assert!(!should_adopt(Some(&held), &echoed, &DvDtnParams::default()));
}

#[test]
fn beacon_beliefs_drain_completely_once_towers_are_unreachable() {
    let n = 12usize;
    let mut f = Field::new(n as u32, vec![tower(0, 0.0, 0.0, 30.0)]);
    let mut edges = vec![edge("t0", "b0")];
    for i in 0..n {
        for j in (i + 1)..n {
            edges.push(edge(&format!("b{i}"), &format!("b{j}")));
        }
    }
    let mut adj = MeshAdjacency::default();
    adj.rebuild(&edges, n, &f.towers);
    let mut rng = StdRng::seed_from_u64(5);

    let mut round = 0u64;
    while round < 120 {
        f.step(&adj, round, &mut rng);
        round += 1;
    }
    assert!(
        (0..n).all(|i| f.belief(i).is_some()),
        "everything should be reachable while the tower is connected"
    );

    adj.rebuild(&edges[1..], n, &f.towers);
    let cut_at = round;
    while round < cut_at + 300 {
        f.step(&adj, round, &mut rng);
        round += 1;
    }
    let survivors = (0..n).filter(|&i| f.belief(i).is_some()).count();
    assert_eq!(survivors, 0, "{survivors} balloons kept a dead route alive");
}
