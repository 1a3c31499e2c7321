use sim_server::balloon::Balloon;
use sim_server::link_detection::{Edge, NodeKey};
use sim_server::mesh_adjacency::MeshAdjacency;
use sim_server::protocol::dv_dtn::aodv::attempt_timeout;
use sim_server::protocol::dv_dtn::beacon::RouteBelief;
use sim_server::protocol::dv_dtn::params::{Discovery, DvDtnParams, ReplyOverhearing, ReplyPolicy,
    RingSearch};
use sim_server::protocol::dv_dtn::DvDtn;
use sim_server::protocol::{EventKind, StepCtx};
use sim_server::telemetry::Reading;
use sim_server::tower::Tower;

fn balloon(id: u32) -> Balloon {
    balloon_at(id, id as f64, 0.0, 18000.0)
}

fn balloon_at(id: u32, lon: f64, lat: f64, alt_m: f64) -> Balloon {
    Balloon::new(
        id,
        Reading {
            lon: lon.to_bits(),
            lat: lat.to_bits(),
            alt_m: alt_m.to_bits(),
            temperature_k: 216.65f64.to_bits(),
            pressure_hpa: 75.0f64.to_bits(),
            humidity_pct: 1.0f64.to_bits(),
        },
    )
}

fn tower(id: u32, lon: f64, lat: f64, height_m: f64) -> Tower {
    Tower::new(id, lon.to_bits(), lat.to_bits(), height_m.to_bits())
}

fn node_key(s: &str) -> NodeKey {
    let (tag, rest) = s.split_at(1);
    let id: u32 = rest.parse().unwrap();
    match tag {
        "b" => NodeKey::Balloon(id),
        "t" => NodeKey::Tower(id),
        _ => panic!("bad test node key {s:?}"),
    }
}

fn edge(a: &str, b: &str) -> Edge {
    Edge { a: node_key(a), b: node_key(b) }
}

#[test]
fn a_route_is_discovered_on_demand_and_a_bundle_follows_it() {
    let p = DvDtnParams {
        discovery: Discovery::Reactive,
        ..Default::default()
    };
    let mut d = DvDtn::with_params(p);
    d.reseed(5);
    let balloons: Vec<Balloon> =
        (0..3).map(|i| balloon(i)).collect();
    for _ in 0..3 {
        d.spawn_node();
    }
    let towers = vec![tower(0, -1.0, 0.0, 30.0)];
    let mut adj = MeshAdjacency::default();
    adj.rebuild(&[edge("t0", "b0"), edge("b0", "b1"), edge("b1", "b2")], 3, &towers);

    assert!(d.nodes.iter().all(|n| n.belief.is_none()));

    for round in 0..400u64 {
        d.step(StepCtx { round, balloons: &balloons, towers: &towers, adj: &adj });
    }

    let b2 = d.nodes[2].belief.expect("b2 should have discovered a route");
    assert_eq!(b2.next_hop, Some(1), "next hop must point back the way the reply came");
    assert_eq!(b2.hop_count, 3);
    assert!(d.stats.delivered >= 1, "and bundles should then flow: {:?}", d.stats);
}

#[test]
fn no_bundle_means_no_discovery_traffic() {
    let p = DvDtnParams {
        discovery: Discovery::Reactive,
        ..Default::default()
    };
    let mut d = DvDtn::with_params(p);
    d.reseed(5);
    let balloons: Vec<Balloon> =
        (0..3).map(|i| balloon(i)).collect();
    for _ in 0..3 {
        d.spawn_node();
    }
    for n in d.nodes.iter_mut() {
        n.next_bundle_round = u64::MAX;
    }
    let towers = vec![tower(0, -1.0, 0.0, 30.0)];
    let mut adj = MeshAdjacency::default();
    adj.rebuild(&[edge("t0", "b0"), edge("b0", "b1"), edge("b1", "b2")], 3, &towers);

    let mut requests = 0;
    for round in 0..200u64 {
        let ev = d.step(StepCtx { round, balloons: &balloons, towers: &towers, adj: &adj });
        requests += ev.iter().filter(|e| e.kind == EventKind::RouteRequest).count();
    }
    assert_eq!(requests, 0, "nothing to send, so nothing should be asked");
    assert!(d.nodes[2].belief.is_none(), "and b2 should still know no route");
}

#[test]
fn an_answer_from_a_stale_route_does_not_pass_it_off_as_current() {
    const NEWS: u64 = 40;
    let p = DvDtnParams {
        discovery: Discovery::Reactive,
        ..Default::default()
    };
    let mut d = DvDtn::with_params(p);
    d.reseed(5);
    let balloons: Vec<Balloon> =
        (0..2).map(|i| balloon(i)).collect();
    for _ in 0..2 {
        d.spawn_node();
    }
    let towers = vec![tower(0, -50.0, 0.0, 30.0)];
    let mut adj = MeshAdjacency::default();
    adj.rebuild(&[edge("b0", "b1")], 2, &towers);

    d.nodes[1].belief = Some(RouteBelief {
        tower_id: 0,
        hop_count: 3,
        next_hop: None,
        epoch: 1,
        emitted_at_round: NEWS,
    });
    d.nodes[1].next_bundle_round = u64::MAX; // only b0 originates, so only b0 asks
    d.nodes[0].next_bundle_round = NEWS;

    for round in NEWS..(NEWS + 50) {
        d.step(StepCtx { round, balloons: &balloons, towers: &towers, adj: &adj });
    }

    let b0 = d.nodes[0].belief.expect("b0 should have been answered by b1");
    assert_eq!(b0.hop_count, 4, "b1 is 3 hops out, so b0 is 4");
    assert_eq!(
        b0.emitted_at_round, NEWS,
        "b0's route must carry the age of b1's news ({NEWS}), not the round b1 \
         answered on — restamping it would make a stale route immortal"
    );
}

#[test]
fn tower_adjacent_gating_still_finds_the_route() {
    let p = DvDtnParams {
        discovery: Discovery::Reactive,
        reply_policy: ReplyPolicy::TowerAdjacent,
        ..Default::default()
    };
    let mut d = DvDtn::with_params(p);
    d.reseed(5);
    let balloons: Vec<Balloon> =
        (0..3).map(|i| balloon(i)).collect();
    for _ in 0..3 {
        d.spawn_node();
    }
    let towers = vec![tower(0, -1.0, 0.0, 30.0)];
    let mut adj = MeshAdjacency::default();
    adj.rebuild(&[edge("t0", "b0"), edge("b0", "b1"), edge("b1", "b2")], 3, &towers);

    for round in 0..400u64 {
        d.step(StepCtx { round, balloons: &balloons, towers: &towers, adj: &adj });
    }
    let b2 = d.nodes[2].belief.expect("b2 should still discover a route");
    assert_eq!(b2.next_hop, Some(1));
    assert_eq!(b2.hop_count, 3, "and it must be the true distance, not an inflated one");
}

#[test]
fn a_neighbour_overhearing_a_reply_installs_the_route_too() {
    let p = DvDtnParams {
        discovery: Discovery::Reactive,
        reply_overhearing: ReplyOverhearing::On,
        ..Default::default()
    };
    let mut d = DvDtn::with_params(p);
    d.reseed(5);
    let balloons: Vec<Balloon> =
        (0..4).map(|i| balloon(i)).collect();
    for _ in 0..4 {
        d.spawn_node();
    }
    let towers = vec![tower(0, -1.0, 0.0, 30.0)];
    let mut adj = MeshAdjacency::default();
    adj.rebuild(
        &[edge("t0", "b0"), edge("b0", "b1"), edge("b1", "b2"), edge("b1", "b3")],
        4,
        &towers,
    );
    d.nodes[3].next_bundle_round = u64::MAX;

    for round in 0..400u64 {
        d.step(StepCtx { round, balloons: &balloons, towers: &towers, adj: &adj });
    }

    let b3 = d.nodes[3].belief.expect("b3 should have learned from a reply meant for b2");
    assert_eq!(b3.next_hop, Some(1), "it heard the route from b1, so b1 is the way out");
    assert_eq!(b3.hop_count, 3, "the same distance b2 installs, not an inflated one");
}

#[test]
fn without_overhearing_a_silent_neighbour_learns_nothing() {
    let p = DvDtnParams {
        discovery: Discovery::Reactive,
        reply_overhearing: ReplyOverhearing::Off,
        ..Default::default()
    };
    let mut d = DvDtn::with_params(p);
    d.reseed(5);
    let balloons: Vec<Balloon> =
        (0..4).map(|i| balloon(i)).collect();
    for _ in 0..4 {
        d.spawn_node();
    }
    let towers = vec![tower(0, -1.0, 0.0, 30.0)];
    let mut adj = MeshAdjacency::default();
    adj.rebuild(
        &[edge("t0", "b0"), edge("b0", "b1"), edge("b1", "b2"), edge("b1", "b3")],
        4,
        &towers,
    );
    d.nodes[3].next_bundle_round = u64::MAX;

    for round in 0..400u64 {
        d.step(StepCtx { round, balloons: &balloons, towers: &towers, adj: &adj });
    }
    assert!(
        d.nodes[3].belief.is_none(),
        "b3 asked for nothing and was told nothing: {:?}",
        d.nodes[3].belief
    );
}

#[test]
fn a_ring_of_one_reaches_direct_neighbours_and_stops() {
    let p = DvDtnParams {
        discovery: Discovery::Reactive,
        ring_search: RingSearch::Expanding,
        reply_policy: ReplyPolicy::TowerAdjacent,
        ..Default::default()
    };
    let mut d = DvDtn::with_params(p);
    d.reseed(5);
    let balloons: Vec<Balloon> =
        (0..4).map(|i| balloon(i)).collect();
    for _ in 0..4 {
        d.spawn_node();
    }
    let towers = vec![tower(0, -1.0, 0.0, 30.0)];
    let mut adj = MeshAdjacency::default();
    adj.rebuild(
        &[edge("t0", "b0"), edge("b0", "b1"), edge("b1", "b2"), edge("b2", "b3")],
        4,
        &towers,
    );
    for i in 0..3 {
        d.nodes[i].next_bundle_round = u64::MAX;
    }
    d.nodes[3].next_bundle_round = 0;

    let first_ring = attempt_timeout(&d.params, 1);
    let mut replies = 0;
    for round in 0..=first_ring {
        let ev = d.step(StepCtx { round, balloons: &balloons, towers: &towers, adj: &adj });
        replies += ev.iter().filter(|e| e.kind == EventKind::RouteReply).count();
    }
    assert_eq!(replies, 0, "a one-hop ring reached something two hops out");
    assert!(d.nodes[3].belief.is_none());
}

#[test]
fn an_expanding_ring_widens_until_it_finds_the_route() {
    let p = DvDtnParams {
        discovery: Discovery::Reactive,
        ring_search: RingSearch::Expanding,
        reply_policy: ReplyPolicy::TowerAdjacent,
        ..Default::default()
    };
    let mut d = DvDtn::with_params(p);
    d.reseed(5);
    let balloons: Vec<Balloon> =
        (0..4).map(|i| balloon(i)).collect();
    for _ in 0..4 {
        d.spawn_node();
    }
    let towers = vec![tower(0, -1.0, 0.0, 30.0)];
    let mut adj = MeshAdjacency::default();
    adj.rebuild(
        &[edge("t0", "b0"), edge("b0", "b1"), edge("b1", "b2"), edge("b2", "b3")],
        4,
        &towers,
    );
    for i in 0..3 {
        d.nodes[i].next_bundle_round = u64::MAX;
    }
    d.nodes[3].next_bundle_round = 0;

    let mut found = None;
    for round in 0..600u64 {
        d.step(StepCtx { round, balloons: &balloons, towers: &towers, adj: &adj });
        if found.is_none() {
            found = d.nodes[3].belief.map(|b| (round, b.hop_count));
        }
    }
    let (round, hops) = found.expect("the ring must widen until it reaches b0");
    assert_eq!(hops, 4, "three balloon hops plus the ground hop");
    assert!(
        round > attempt_timeout(&d.params, 1),
        "found at round {round}, inside the first ring — the ring never widened"
    );
}
