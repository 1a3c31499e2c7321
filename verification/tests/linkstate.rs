use std::collections::HashMap;

use sim_server::balloon::Balloon;
use sim_server::link_detection::{Edge, NodeKey};
use sim_server::mesh_adjacency::MeshAdjacency;
use sim_server::protocol::dv_dtn::linkstate::{shortest_route, Lsa};
use sim_server::protocol::dv_dtn::params::{Discovery, DvDtnParams};
use sim_server::protocol::dv_dtn::DvDtn;
use sim_server::protocol::{EventKind, StepCtx};
use sim_server::telemetry::Reading;
use sim_server::tower::Tower;

fn balloon(id: u32) -> Balloon {
    balloon_at(id, id as f64, 0.0, 18000.0)
}

fn balloon_at(id: u32, lon: f64, lat: f64, alt_m: f64) -> Balloon {
    Balloon::new(
        id,
        Reading {
            lon: lon.to_bits(),
            lat: lat.to_bits(),
            alt_m: alt_m.to_bits(),
            temperature_k: 216.65f64.to_bits(),
            pressure_hpa: 75.0f64.to_bits(),
            humidity_pct: 1.0f64.to_bits(),
        },
    )
}

fn tower(id: u32, lon: f64, lat: f64, height_m: f64) -> Tower {
    Tower::new(id, lon.to_bits(), lat.to_bits(), height_m.to_bits())
}

fn node_key(s: &str) -> NodeKey {
    let (tag, rest) = s.split_at(1);
    let id: u32 = rest.parse().unwrap();
    match tag {
        "b" => NodeKey::Balloon(id),
        "t" => NodeKey::Tower(id),
        _ => panic!("bad test node key {s:?}"),
    }
}

fn edge(a: &str, b: &str) -> Edge {
    Edge { a: node_key(a), b: node_key(b) }
}

fn linkstate() -> DvDtn {
    let p = DvDtnParams {
        discovery: Discovery::LinkState,
        ..Default::default()
    };
    let mut d = DvDtn::with_params(p);
    d.reseed(5);
    d
}

#[test]
fn a_route_is_computed_from_gossiped_neighbour_lists() {
    let mut d = linkstate();
    let balloons: Vec<Balloon> =
        (0..3).map(|i| balloon(i)).collect();
    for _ in 0..3 {
        d.spawn_node();
    }
    let towers = vec![tower(0, -1.0, 0.0, 30.0)];
    let mut adj = MeshAdjacency::default();
    adj.rebuild(&[edge("t0", "b0"), edge("b0", "b1"), edge("b1", "b2")], 3, &towers);

    for round in 0..200u64 {
        d.step(StepCtx { round, balloons: &balloons, towers: &towers, adj: &adj });
    }

    let b2 = d.nodes[2].belief.expect("b2 should have computed a route");
    assert_eq!(b2.next_hop, Some(1), "the first hop out of b2 is b1");
    assert_eq!(b2.hop_count, 3, "two balloon hops plus the ground hop");
    assert!(d.stats.delivered >= 1, "and bundles should flow: {:?}", d.stats);
}

#[test]
fn a_node_whose_map_shows_no_path_drops_its_route() {
    let mut d = linkstate();
    let balloons: Vec<Balloon> =
        (0..3).map(|i| balloon(i)).collect();
    for _ in 0..3 {
        d.spawn_node();
    }
    let towers = vec![tower(0, -1.0, 0.0, 30.0)];
    let mut adj = MeshAdjacency::default();
    adj.rebuild(&[edge("t0", "b0"), edge("b0", "b1"), edge("b1", "b2")], 3, &towers);
    for round in 0..200u64 {
        d.step(StepCtx { round, balloons: &balloons, towers: &towers, adj: &adj });
    }
    assert!(d.nodes[2].belief.is_some(), "setup: b2 should have a route");

    adj.rebuild(&[edge("b1", "b2")], 3, &towers);
    for round in 200..320u64 {
        d.step(StepCtx { round, balloons: &balloons, towers: &towers, adj: &adj });
    }

    assert!(
        d.nodes[2].belief.is_none(),
        "b2's map no longer contains a tower, so it should hold no route: {:?}",
        d.nodes[2].belief
    );
}

#[test]
fn a_computed_route_carries_the_age_of_its_stalest_link() {
    let mut db = HashMap::new();
    db.insert(
        0,
        Lsa { origin: 0, seq: 1, emitted_at_round: 100, neighbors: vec![1], tower: None },
    );
    db.insert(
        1,
        Lsa { origin: 1, seq: 1, emitted_at_round: 20, neighbors: vec![0, 2], tower: None },
    );
    db.insert(
        2,
        Lsa { origin: 2, seq: 1, emitted_at_round: 99, neighbors: vec![1], tower: Some(7) },
    );

    let r = shortest_route(&db, 0, &DvDtnParams::default()).expect("a path exists");
    assert_eq!(r.tower_id, 7);
    assert_eq!(r.hop_count, 3);
    assert_eq!(r.next_hop, Some(1));
    assert_eq!(
        r.emitted_at_round, 20,
        "the route rests on a round-20 observation, so that is how old it is"
    );
}

#[test]
fn gossip_is_the_only_kind_on_the_wire() {
    let mut d = linkstate();
    let balloons: Vec<Balloon> =
        (0..3).map(|i| balloon(i)).collect();
    for _ in 0..3 {
        d.spawn_node();
    }
    let towers = vec![tower(0, -1.0, 0.0, 30.0)];
    let mut adj = MeshAdjacency::default();
    adj.rebuild(&[edge("t0", "b0"), edge("b0", "b1"), edge("b1", "b2")], 3, &towers);

    let mut kinds: Vec<EventKind> = Vec::new();
    for round in 0..60u64 {
        for e in d.step(StepCtx { round, balloons: &balloons, towers: &towers, adj: &adj }) {
            if !kinds.contains(&e.kind) {
                kinds.push(e.kind);
            }
        }
    }
    assert!(kinds.contains(&EventKind::Gossip));
    assert!(
        !kinds.contains(&EventKind::RouteAd) && !kinds.contains(&EventKind::RouteReply),
        "link-state advertises no routes, only observations: {kinds:?}"
    );
}

#[test]
fn a_search_without_a_hop_limit_finds_the_way() {
    let mut db: HashMap<u32, Lsa> = HashMap::new();
    for i in 0..5u32 {
        let record = Lsa {
            origin: i,
            seq: 1,
            emitted_at_round: 10 - i as u64,
            neighbors: if i < 4 { vec![i + 1] } else { vec![] },
            tower: if i == 4 { Some(9) } else { None },
        };
        db.insert(i, record);
    }
    let far = DvDtnParams { beacon_max_hops: u32::MAX, ..Default::default() };
    let r = shortest_route(&db, 0, &far).expect("the map shows a way");
    assert_eq!((r.tower_id, r.hop_count, r.next_hop, r.emitted_at_round), (9, 5, Some(1), 6));
    let near = DvDtnParams { beacon_max_hops: 3, ..Default::default() };
    assert!(shortest_route(&db, 0, &near).is_none());
    db.remove(&4);
    assert!(shortest_route(&db, 0, &far).is_none());
}

#[test]
fn a_protocol_names_the_transmissions_it_makes() {
    let kinds = |discovery: Discovery| {
        let p = DvDtnParams { discovery, ..Default::default() };
        DvDtn::with_params(p).capabilities().event_kinds
    };
    let (bundle, ack) = (EventKind::Bundle, EventKind::Ack);
    assert_eq!(kinds(Discovery::Proactive), vec![EventKind::RouteAd, bundle, ack]);
    assert_eq!(
        kinds(Discovery::Reactive),
        vec![EventKind::RouteRequest, EventKind::RouteReply, bundle, ack]
    );
    assert_eq!(kinds(Discovery::LinkState), vec![EventKind::Gossip, bundle, ack]);
}
