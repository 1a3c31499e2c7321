use sim_server::balloon::Balloon;
use sim_server::link_detection::{Edge, NodeKey};
use sim_server::mesh_adjacency::MeshAdjacency;
use sim_server::protocol::dv_dtn::beacon::RouteBelief;
use sim_server::protocol::dv_dtn::bundle::{step, Ack, AckState, Bundle, Channel};
use sim_server::protocol::dv_dtn::bundle_stats::BundleStats;
use sim_server::protocol::dv_dtn::params::{AckPolicy, BatchPolicy, DvDtnParams, QueueDiscipline};
use sim_server::protocol::dv_dtn::{DvDtn, DvNode};
use sim_server::protocol::StepCtx;
use sim_server::telemetry::{Reading, TelemetryRecord};
use sim_server::tower::Tower;

fn balloon(id: u32) -> Balloon {
    balloon_at(id, id as f64, 0.0, 18000.0)
}

fn balloon_at(id: u32, lon: f64, lat: f64, alt_m: f64) -> Balloon {
    Balloon::new(
        id,
        Reading {
            lon: lon.to_bits(),
            lat: lat.to_bits(),
            alt_m: alt_m.to_bits(),
            temperature_k: 216.65f64.to_bits(),
            pressure_hpa: 75.0f64.to_bits(),
            humidity_pct: 1.0f64.to_bits(),
        },
    )
}

fn tower(id: u32, lon: f64, lat: f64, height_m: f64) -> Tower {
    Tower::new(id, lon.to_bits(), lat.to_bits(), height_m.to_bits())
}

fn node_key(s: &str) -> NodeKey {
    let (tag, rest) = s.split_at(1);
    let id: u32 = rest.parse().unwrap();
    match tag {
        "b" => NodeKey::Balloon(id),
        "t" => NodeKey::Tower(id),
        _ => panic!("bad test node key {s:?}"),
    }
}

fn edge(a: &str, b: &str) -> Edge {
    Edge { a: node_key(a), b: node_key(b) }
}

fn test_record(origin_id: u32, seq: u64) -> TelemetryRecord {
    let b = balloon_at(origin_id, 0.0, 0.0, 18_000.0);
    TelemetryRecord::sample(&b, seq, 0)
}

fn line(n: usize) -> (Vec<Balloon>, Vec<DvNode>, Vec<Tower>, MeshAdjacency) {
    let balloons: Vec<Balloon> =
        (0..n).map(|i| balloon(i as u32)).collect();
    let nodes: Vec<DvNode> = vec![DvNode::default(); n];
    let towers = vec![tower(0, -1.0, 0.0, 30.0)];
    let mut edges = vec![edge("t0", "b0")];
    for i in 0..n.saturating_sub(1) {
        edges.push(edge(&format!("b{i}"), &format!("b{}", i + 1)));
    }
    let mut adj = MeshAdjacency::default();
    adj.rebuild(&edges, n, &towers);
    (balloons, nodes, towers, adj)
}

fn seed_beliefs(nodes: &mut [DvNode], round: u64) {
    for (i, node) in nodes.iter_mut().enumerate() {
        node.belief = Some(RouteBelief {
            tower_id: 0,
            hop_count: i as u32 + 1,
            next_hop: if i == 0 { None } else { Some(i as u32 - 1) },
            epoch: 1,
            emitted_at_round: round,
        });
    }
}

#[test]
fn bundle_a_bundle_walks_the_chain_and_is_delivered() {
    let (balloons, mut nodes, _t, adj) = line(4);
    seed_beliefs(&mut nodes, 0);
    let mut stats = BundleStats::default();
    let awake: Vec<usize> = (0..4).collect();

    for b in nodes.iter_mut() {
        b.next_bundle_round = u64::MAX;
    }
    nodes[3].next_bundle_round = 0;

    for round in 0..10 {
        step(&mut nodes, &balloons, &adj, &DvDtnParams::default(), &awake, round, &mut stats);
        if stats.delivered > 0 {
            break;
        }
    }
    assert_eq!(stats.delivered, 1, "stats: {stats:?}");
    assert_eq!(stats.dropped_loop + stats.dropped_ttl + stats.satellite, 0);

    let outstanding = nodes[3].outstanding.as_ref().unwrap();
    assert_eq!(outstanding.channel, Some(Channel::Radio));
    assert_eq!(outstanding.path.as_deref(), Some(&[3, 2, 1, 0][..]));
    assert_eq!(outstanding.tower_id, Some(0));
}

#[test]
fn bundle_path_history_records_every_relay_in_order() {
    let (balloons, mut nodes, _t, adj) = line(4);
    seed_beliefs(&mut nodes, 0);
    let mut stats = BundleStats::default();
    let awake: Vec<usize> = (0..4).collect();
    for b in nodes.iter_mut() {
        b.next_bundle_round = u64::MAX;
    }
    nodes[3].next_bundle_round = 0;

    step(&mut nodes, &balloons, &adj, &DvDtnParams::default(), &awake, 0, &mut stats); // b3 originates
    assert_eq!(nodes[3].queue.front().unwrap().path, vec![3]);

    step(&mut nodes, &balloons, &adj, &DvDtnParams::default(), &awake, 1, &mut stats); // 3 -> 2
    assert_eq!(nodes[2].queue.front().unwrap().path, vec![3, 2]);

    step(&mut nodes, &balloons, &adj, &DvDtnParams::default(), &awake, 2, &mut stats); // 2 -> 1
    let held = nodes[1].queue.front().unwrap();
    assert_eq!(held.path, vec![3, 2, 1]);
    assert_eq!(held.hops(), 2);
}

#[test]
fn bundle_a_stale_next_hop_holds_the_bundle_rather_than_dropping_it() {
    let (balloons, mut nodes, towers, _adj) = line(3);
    let mut adj = MeshAdjacency::default();
    adj.rebuild(&[edge("t0", "b0"), edge("b1", "b2")], 3, &towers);
    seed_beliefs(&mut nodes, 0);

    let mut stats = BundleStats::default();
    let awake: Vec<usize> = (0..3).collect();
    for b in nodes.iter_mut() {
        b.next_bundle_round = u64::MAX;
    }
    nodes[1].queue.push_back(Bundle {
        origin_id: 1,
        seq: 0,
        created_at_round: 0,
        record: test_record(1, 0),
        path: vec![1],
    });

    for round in 0..10 {
        step(&mut nodes, &balloons, &adj, &DvDtnParams::default(), &awake, round, &mut stats);
    }
    assert!(!nodes[1].queue.is_empty(), "should still be holding");
    assert_eq!(stats.resolved(), 0, "nothing should have resolved: {stats:?}");
}

#[test]
fn bundle_a_bundle_offered_back_to_a_balloon_already_in_its_path_is_dropped_as_a_loop() {
    let (balloons, mut nodes, towers, _a) = line(2);
    let mut adj = MeshAdjacency::default();
    adj.rebuild(&[edge("b0", "b1")], 2, &towers);

    nodes[0].belief = Some(RouteBelief {
        tower_id: 0, hop_count: 3, next_hop: Some(1), epoch: 1, emitted_at_round: 0,
    });
    nodes[1].belief = Some(RouteBelief {
        tower_id: 0, hop_count: 3, next_hop: Some(0), epoch: 1, emitted_at_round: 0,
    });
    for b in nodes.iter_mut() {
        b.next_bundle_round = u64::MAX;
    }
    nodes[1].queue.push_back(Bundle {
        origin_id: 1, seq: 0, created_at_round: 0, record: test_record(1, 0), path: vec![1],
    });

    let mut stats = BundleStats::default();
    let awake: Vec<usize> = vec![0, 1];
    for round in 0..6 {
        step(&mut nodes, &balloons, &adj, &DvDtnParams::default(), &awake, round, &mut stats);
    }
    assert_eq!(stats.dropped_loop, 1, "stats: {stats:?}");
    assert!(nodes.iter().all(|n| n.queue.is_empty()));
}

#[test]
fn a_relay_carrying_its_own_bundle_still_accepts_transit_traffic() {
    let (balloons, mut nodes, _t, adj) = line(3);
    seed_beliefs(&mut nodes, 0);
    let mut stats = BundleStats::default();

    for b in nodes.iter_mut() {
        b.next_bundle_round = u64::MAX;
    }
    nodes[1].queue.push_back(Bundle {
        origin_id: 1, seq: 0, created_at_round: 0, record: test_record(1, 0), path: vec![1],
    });
    nodes[2].queue.push_back(Bundle {
        origin_id: 2, seq: 0, created_at_round: 0, record: test_record(2, 0), path: vec![2],
    });

    step(&mut nodes, &balloons, &adj, &DvDtnParams::default(), &[2], 1, &mut stats);
    assert_eq!(nodes[1].queue.len(), 2, "relay should have accepted transit");
    assert_eq!(stats.blocked, 0);
}

#[test]
fn a_full_queue_blocks_the_handoff_without_losing_the_bundle() {
    let (balloons, mut nodes, _t, adj) = line(3);
    seed_beliefs(&mut nodes, 0);
    let mut stats = BundleStats::default();
    for b in nodes.iter_mut() {
        b.next_bundle_round = u64::MAX;
    }
    for k in 0..DvDtnParams::default().relay_queue_capacity {
        nodes[1].queue.push_back(Bundle {
            origin_id: 1, seq: k as u64, created_at_round: 0, record: test_record(1, k as u64), path: vec![1],
        });
    }
    nodes[2].queue.push_back(Bundle {
        origin_id: 2, seq: 0, created_at_round: 0, record: test_record(2, 0), path: vec![2],
    });

    step(&mut nodes, &balloons, &adj, &DvDtnParams::default(), &[2], 1, &mut stats);
    assert_eq!(stats.blocked, 1);
    assert_eq!(nodes[2].queue.len(), 1, "sender must keep the bundle");
    assert_eq!(stats.resolved(), 0, "nothing lost: {stats:?}");
}

#[test]
fn a_balloon_originates_only_one_of_its_own_at_a_time() {
    let balloons = vec![balloon_at(0, 0.0, 0.0, 18000.0)];
    let mut nodes = vec![DvNode::default()];
    let adj = MeshAdjacency::default();
    let mut stats = BundleStats::default();
    for round in 0..10 {
        nodes[0].next_bundle_round = 0;
        step(&mut nodes, &balloons, &adj, &DvDtnParams::default(), &[0], round, &mut stats);
    }
    assert_eq!(stats.originated, 1, "stats: {stats:?}");
    assert_eq!(nodes[0].queue.len(), 1);
}

#[test]
fn a_tower_contact_drains_up_to_a_full_contact_window() {
    let (balloons, mut nodes, _t, adj) = line(2);
    seed_beliefs(&mut nodes, 0);
    let mut stats = BundleStats::default();
    for b in nodes.iter_mut() {
        b.next_bundle_round = u64::MAX;
    }
    for k in 0..DvDtnParams::default().relay_queue_capacity {
        nodes[0].queue.push_back(Bundle {
            origin_id: 1, seq: k as u64, created_at_round: 0, record: test_record(1, k as u64), path: vec![1, 0],
        });
    }

    step(&mut nodes, &balloons, &adj, &DvDtnParams::default(), &[0], 1, &mut stats);

    let expected = DvDtnParams::default().batch.tower_contact.min(DvDtnParams::default().relay_queue_capacity);
    assert_eq!(stats.delivered, expected as u64, "stats: {stats:?}");
    assert_eq!(nodes[0].queue.len(), DvDtnParams::default().relay_queue_capacity - expected);
}

#[test]
fn a_balloon_to_balloon_handoff_still_moves_only_one_bundle() {
    let (balloons, mut nodes, _t, adj) = line(3);
    seed_beliefs(&mut nodes, 0);
    let mut stats = BundleStats::default();
    for b in nodes.iter_mut() {
        b.next_bundle_round = u64::MAX;
    }
    for k in 0..4 {
        nodes[2].queue.push_back(Bundle {
            origin_id: 2, seq: k, created_at_round: 0, record: test_record(2, k), path: vec![2],
        });
    }

    step(&mut nodes, &balloons, &adj, &DvDtnParams::default(), &[2], 1, &mut stats);

    assert_eq!(nodes[1].queue.len(), 1, "only one bundle should have crossed");
    assert_eq!(nodes[2].queue.len(), 3, "the rest stay with the sender");
}

#[test]
fn lifo_transmits_the_newest_held_bundle_not_the_oldest() {
    let params = DvDtnParams { queue_discipline: QueueDiscipline::Lifo, ..Default::default() };
    let (balloons, mut nodes, _t, adj) = line(3);
    seed_beliefs(&mut nodes, 0);
    let mut stats = BundleStats::default();
    for b in nodes.iter_mut() {
        b.next_bundle_round = u64::MAX; // nobody originates; we plant them
    }
    for seq in 0..3u64 {
        nodes[2].queue.push_back(Bundle {
            origin_id: 2,
            seq,
            created_at_round: 0,
            record: test_record(2, seq),
            path: vec![2],
        });
    }

    step(&mut nodes, &balloons, &adj, &params, &[2], 1, &mut stats);

    assert_eq!(nodes[1].queue.len(), 1, "exactly one bundle crosses per slot either way");
    assert_eq!(nodes[1].queue[0].seq, 2, "LIFO must send the newest, not seq 0");
    let left: Vec<u64> = nodes[2].queue.iter().map(|b| b.seq).collect();
    assert_eq!(left, vec![0, 1]);
}

#[test]
fn a_batched_mesh_hop_moves_several_bundles_in_one_slot() {
    let params = DvDtnParams {
        batch: BatchPolicy { mesh_hop: 3, ..Default::default() },
        ..Default::default()
    };
    let (balloons, mut nodes, _t, adj) = line(3);
    seed_beliefs(&mut nodes, 0);
    let mut stats = BundleStats::default();
    for b in nodes.iter_mut() {
        b.next_bundle_round = u64::MAX;
    }
    for seq in 0..4u64 {
        nodes[2].queue.push_back(Bundle {
            origin_id: 2,
            seq,
            created_at_round: 0,
            record: test_record(2, seq),
            path: vec![2],
        });
    }

    step(&mut nodes, &balloons, &adj, &params, &[2], 1, &mut stats);

    assert_eq!(nodes[1].queue.len(), 3, "the batch size, not one and not all four");
    assert_eq!(nodes[2].queue.len(), 1, "the fourth stays with the sender");
    let moved: Vec<u64> = nodes[1].queue.iter().map(|b| b.seq).collect();
    assert_eq!(moved, vec![0, 1, 2]);
    for b in nodes[1].queue.iter() {
        assert_eq!(b.path, vec![2, 1], "each bundle records its own hop");
    }
}

#[test]
fn lifo_sends_the_bundle_it_checked_even_if_the_queue_grew_meanwhile() {
    let params = DvDtnParams { queue_discipline: QueueDiscipline::Lifo, ..Default::default() };
    let (balloons, mut nodes, _t, adj) = line(3);
    seed_beliefs(&mut nodes, 0);
    let mut stats = BundleStats::default();
    for b in nodes.iter_mut() {
        b.next_bundle_round = u64::MAX;
    }
    nodes[1].queue.push_back(Bundle {
        origin_id: 1,
        seq: 100,
        created_at_round: 0,
        record: test_record(1, 100),
        path: vec![1],
    });
    nodes[2].queue.push_back(Bundle {
        origin_id: 2,
        seq: 200,
        created_at_round: 0,
        record: test_record(2, 200),
        path: vec![2],
    });

    step(&mut nodes, &balloons, &adj, &params, &[1, 2], 1, &mut stats);

    let at_zero: Vec<u64> = nodes[0].queue.iter().map(|b| b.seq).collect();
    assert_eq!(at_zero, vec![100], "b1 sent the bundle it actually checked");
    let at_one: Vec<u64> = nodes[1].queue.iter().map(|b| b.seq).collect();
    assert_eq!(at_one, vec![200], "b2's bundle landed and stayed");
}

#[test]
fn a_digest_acks_the_origin_without_any_ack_packet() {
    let params = DvDtnParams { ack_policy: AckPolicy::Digest, ..Default::default() };
    let mut world = DvDtn::with_params(params);
    let balloons: Vec<Balloon> =
        (0..2).map(|i| balloon(i)).collect();
    let towers = vec![tower(0, -1.0, 0.0, 30.0)];
    let mut adj = MeshAdjacency::default();
    adj.rebuild(&[edge("t0", "b0"), edge("b0", "b1")], 2, &towers);
    world.reseed(7);
    world.add_tower(0);
    for _ in 0..2 {
        world.spawn_node();
    }

    let mut acked = false;
    for round in 0..400u64 {
        world.step(StepCtx { round, balloons: &balloons, towers: &towers, adj: &adj });
        if world.nodes[1].outstanding.as_ref().is_some_and(|o| o.state == AckState::Acked) {
            acked = true;
            break;
        }
    }

    assert!(acked, "origin should have learned of its delivery from a digest");
    assert!(world.stats.delivered >= 1);
    assert_eq!(world.stats.ack_lost, 0, "no ack packet exists, so none can be lost");
    assert!(
        world.nodes.iter().all(|n| n.ack_queue.is_empty()),
        "the digest policy must never enqueue an ack packet"
    );
}

#[test]
fn a_bundle_nobody_can_move_eventually_goes_to_satellite() {
    let balloons = vec![balloon_at(0, 0.0, 0.0, 18000.0)];
    let mut nodes = vec![DvNode::default()];
    let adj = MeshAdjacency::default();
    let mut stats = BundleStats::default();

    for round in 0..(DvDtnParams::default().bundle_max_age_rounds + 5) {
        step(&mut nodes, &balloons, &adj, &DvDtnParams::default(), &[0], round, &mut stats);
    }
    assert!(stats.satellite >= 1, "stats: {stats:?}");
    assert_eq!(stats.delivered, 0);
    assert_eq!(stats.resolved(), stats.satellite, "satellite counts as resolved");
    let outstanding = nodes[0].outstanding.as_ref().unwrap();
    assert_eq!(outstanding.state, AckState::TimedOut);
    assert_eq!(outstanding.channel, Some(Channel::Satellite));
    assert_eq!(outstanding.tower_id, None, "satellite delivery never touches a tower");
    assert_eq!(outstanding.path.as_deref(), Some(&[0][..]));
    let resolved = nodes[0].last_resolved.as_ref().unwrap();
    assert_eq!(resolved.channel, Some(Channel::Satellite));
    assert_eq!(resolved.tower_id, None);
    assert_eq!(resolved.path, vec![0]);
}

#[test]
fn originating_records_telemetry_in_the_log_and_in_the_bundle() {
    let balloons = vec![balloon_at(0, 10.0, 20.0, 18_000.0)];
    let mut nodes = vec![DvNode::default()];
    let adj = MeshAdjacency::default();
    let mut stats = BundleStats::default();

    step(&mut nodes, &balloons, &adj, &DvDtnParams::default(), &[0], 5, &mut stats);

    assert_eq!(nodes[0].log.len(), 1);
    let logged = nodes[0].log.front().unwrap();
    let carried = &nodes[0].queue.front().unwrap().record;

    assert_eq!(logged.seq, 0);
    assert_eq!(logged.seq, carried.seq, "the two copies are the same event");
    assert_eq!(logged.created_at_round, 5);
    assert_eq!(
        f64::from_bits(logged.reading.alt_m),
        18_000.0,
        "must sample where the balloon actually was"
    );
    assert!((f64::from_bits(logged.reading.temperature_k) - 216.65).abs() < 1e-9);
    assert!(f64::from_bits(logged.reading.pressure_hpa) > 0.0);
}

#[test]
fn the_telemetry_log_stays_bounded() {
    let balloons = vec![balloon_at(0, 0.0, 0.0, 18_000.0)];
    let mut nodes = vec![DvNode::default()];
    let adj = MeshAdjacency::default();
    let mut stats = BundleStats::default();

    for round in 0..(DvDtnParams::default().comms_log_capacity as u64 * 3) {
        nodes[0].next_bundle_round = 0;
        nodes[0].queue.clear();
        step(&mut nodes, &balloons, &adj, &DvDtnParams::default(), &[0], round, &mut stats);
    }

    assert_eq!(nodes[0].log.len(), DvDtnParams::default().comms_log_capacity);
    let seqs: Vec<u64> = nodes[0].log.iter().map(|r| r.seq).collect();
    assert!(seqs.windows(2).all(|w| w[0] < w[1]), "log must stay ordered: {seqs:?}");
    assert_eq!(*seqs.last().unwrap(), stats.originated - 1);
}

#[test]
fn an_ack_completes_the_reverse_path_and_the_origin_learns_it() {
    let (balloons, mut nodes, _t, adj) = line(4);
    seed_beliefs(&mut nodes, 0);
    let mut stats = BundleStats::default();
    let awake: Vec<usize> = (0..4).collect();
    for b in nodes.iter_mut() {
        b.next_bundle_round = u64::MAX;
    }
    nodes[3].next_bundle_round = 0;

    for round in 0..40 {
        step(&mut nodes, &balloons, &adj, &DvDtnParams::default(), &awake, round, &mut stats);
        if nodes[3].outstanding.as_ref().is_some_and(|o| o.state == AckState::Acked) {
            break;
        }
    }
    assert_eq!(stats.delivered, 1, "stats: {stats:?}");
    assert_eq!(stats.acked, 1, "stats: {stats:?}");
    assert_eq!(stats.ack_lost, 0, "stats: {stats:?}");
    assert_eq!(nodes[3].outstanding.as_ref().unwrap().state, AckState::Acked);
    assert!(nodes.iter().all(|n| n.ack_queue.is_empty()), "ack should have fully drained");
    let record = nodes[3].log.iter().find(|r| r.seq == 0).unwrap();
    assert_eq!(record.ack_state, AckState::Acked);
    assert_eq!(record.channel, Some(Channel::Radio));
    assert_eq!(record.tower_id, Some(0));
    assert_eq!(record.hops, Some(3));
}

#[test]
fn an_ack_can_be_lost_even_though_delivery_succeeded() {
    let (balloons, mut nodes, towers, _adj) = line(4);
    seed_beliefs(&mut nodes, 0);
    let mut stats = BundleStats::default();
    let awake: Vec<usize> = (0..4).collect();
    for b in nodes.iter_mut() {
        b.next_bundle_round = u64::MAX;
    }
    nodes[3].next_bundle_round = 0;

    let mut adj = MeshAdjacency::default();
    adj.rebuild(
        &[edge("t0", "b0"), edge("b0", "b1"), edge("b1", "b2"), edge("b2", "b3")],
        4,
        &towers,
    );
    let mut round = 0u64;
    while stats.delivered == 0 && round < 20 {
        step(&mut nodes, &balloons, &adj, &DvDtnParams::default(), &awake, round, &mut stats);
        round += 1;
    }
    assert_eq!(stats.delivered, 1, "bundle should have reached the tower");

    adj.rebuild(&[edge("t0", "b0"), edge("b1", "b2"), edge("b2", "b3")], 4, &towers);

    for r in round..(round + DvDtnParams::default().bundle_max_age_rounds + 10) {
        step(&mut nodes, &balloons, &adj, &DvDtnParams::default(), &awake, r, &mut stats);
    }
    assert_eq!(stats.acked, 0, "stats: {stats:?}");
    assert_eq!(stats.ack_lost, 1, "stats: {stats:?}");
    let outstanding = nodes[3].outstanding.as_ref().unwrap();
    assert_eq!(outstanding.state, AckState::TimedOut);
    assert_eq!(outstanding.ack_hops_completed, Some(0));
    let resolved = nodes[3].last_resolved.as_ref().unwrap();
    assert_eq!(resolved.ack_hops_completed, Some(0));
    assert_eq!(resolved.channel, Some(Channel::Radio));
    assert_eq!(resolved.tower_id, Some(0));
}

#[test]
fn a_zero_hop_delivery_acks_immediately_with_no_packet() {
    let (balloons, mut nodes, _t, adj) = line(2);
    seed_beliefs(&mut nodes, 0);
    let mut stats = BundleStats::default();
    for b in nodes.iter_mut() {
        b.next_bundle_round = u64::MAX;
    }
    nodes[0].next_bundle_round = 0; // b0 originates and hears the tower directly

    step(&mut nodes, &balloons, &adj, &DvDtnParams::default(), &[0], 0, &mut stats);
    step(&mut nodes, &balloons, &adj, &DvDtnParams::default(), &[0], 1, &mut stats);

    assert_eq!(stats.delivered, 1, "stats: {stats:?}");
    assert_eq!(stats.acked, 1, "stats: {stats:?}");
    assert_eq!(nodes[0].outstanding.as_ref().unwrap().state, AckState::Acked);
    assert!(nodes[0].ack_queue.is_empty(), "no packet should have been created");
}

#[test]
fn a_full_ack_queue_drops_the_incoming_ack() {
    let (balloons, mut nodes, towers, _a) = line(2);
    let mut adj = MeshAdjacency::default();
    adj.rebuild(&[edge("b0", "b1")], 2, &towers);
    nodes[1].belief = Some(RouteBelief {
        tower_id: 0, hop_count: 1, next_hop: Some(0), epoch: 1, emitted_at_round: 0,
    });

    for k in 0..DvDtnParams::default().ack_queue_capacity {
        nodes[0].ack_queue.push_back(Ack {
            origin_id: 9,
            seq: k as u64,
            created_at_round: 0,
            remaining: std::collections::VecDeque::from(vec![1]),
            total_hops: 1,
        });
    }
    nodes[1].ack_queue.push_back(Ack {
        origin_id: 9,
        seq: 99,
        created_at_round: 0,
        remaining: std::collections::VecDeque::from(vec![0, 1]),
        total_hops: 2,
    });

    let mut stats = BundleStats::default();
    step(&mut nodes, &balloons, &adj, &DvDtnParams::default(), &[1], 1, &mut stats);

    assert_eq!(stats.ack_lost, 1, "stats: {stats:?}");
    assert_eq!(nodes[0].ack_queue.len(), DvDtnParams::default().ack_queue_capacity);
}
