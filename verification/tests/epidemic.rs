use sim_server::balloon::Balloon;
use sim_server::link_detection::{Edge, NodeKey};
use sim_server::mesh_adjacency::MeshAdjacency;
use sim_server::protocol::dv_dtn::bundle::{AckState, Channel};
use sim_server::protocol::epidemic::params::EpidemicParams;
use sim_server::protocol::epidemic::Epidemic;
use sim_server::protocol::stats::{percentile, Ratio, StatValue};
use sim_server::protocol::StepCtx;
use sim_server::telemetry::Reading;
use sim_server::tower::Tower;

fn balloon(id: u32) -> Balloon {
    balloon_at(id, id as f64, 0.0, 18000.0)
}

fn balloon_at(id: u32, lon: f64, lat: f64, alt_m: f64) -> Balloon {
    Balloon::new(
        id,
        Reading {
            lon: lon.to_bits(),
            lat: lat.to_bits(),
            alt_m: alt_m.to_bits(),
            temperature_k: 216.65f64.to_bits(),
            pressure_hpa: 75.0f64.to_bits(),
            humidity_pct: 1.0f64.to_bits(),
        },
    )
}

fn tower(id: u32, lon: f64, lat: f64, height_m: f64) -> Tower {
    Tower::new(id, lon.to_bits(), lat.to_bits(), height_m.to_bits())
}

fn node_key(s: &str) -> NodeKey {
    let (tag, rest) = s.split_at(1);
    let id: u32 = rest.parse().unwrap();
    match tag {
        "b" => NodeKey::Balloon(id),
        "t" => NodeKey::Tower(id),
        _ => panic!("bad test node key {s:?}"),
    }
}

fn edge(a: &str, b: &str) -> Edge {
    Edge { a: node_key(a), b: node_key(b) }
}

fn chain(copies: u32) -> (Epidemic, Vec<Balloon>, Vec<Tower>, MeshAdjacency) {
    let p = EpidemicParams { copies, ..Default::default() };
    let mut e = Epidemic::with_params(p);
    e.reseed(11);
    let balloons: Vec<Balloon> =
        (0..3).map(|i| balloon(i)).collect();
    for _ in 0..3 {
        e.spawn_node();
    }
    let towers = vec![tower(0, -1.0, 0.0, 30.0)];
    let mut adj = MeshAdjacency::default();
    adj.rebuild(&[edge("t0", "b0"), edge("b0", "b1"), edge("b1", "b2")], 3, &towers);
    (e, balloons, towers, adj)
}

fn run(e: &mut Epidemic, b: &[Balloon], t: &[Tower], adj: &MeshAdjacency, rounds: u64) {
    for round in 0..rounds {
        e.step(StepCtx { round, balloons: b, towers: t, adj });
    }
}

#[test]
fn a_record_reaches_a_tower_by_replication_alone() {
    let (mut e, b, t, adj) = chain(8);
    e.nodes[0].next_bundle_round = u64::MAX;
    e.nodes[1].next_bundle_round = u64::MAX;
    run(&mut e, &b, &t, &adj, 400);
    assert!(e.stats.delivered >= 1, "stats: {:?}", e.stats);
    assert!(e.stats.handoffs >= 1, "it had to be copied to get there");
}

#[test]
fn the_copy_budget_is_conserved() {
    let (mut e, b, t, adj) = chain(8);
    for round in 0..300u64 {
        e.step(StepCtx { round, balloons: &b, towers: &t, adj: &adj });
        let mut by_record: std::collections::HashMap<(u32, u64), u32> = Default::default();
        for n in &e.nodes {
            for c in &n.held {
                *by_record.entry((c.origin_id, c.seq)).or_insert(0) += c.copies;
            }
        }
        for (k, total) in by_record {
            assert!(total <= 8, "record {k:?} reached {total} copies at round {round}");
        }
    }
}

#[test]
fn no_node_ever_claims_a_route() {
    let (mut e, b, t, adj) = chain(8);
    assert!(!e.capabilities().route_belief);
    assert!(!e.capabilities().acks);
    run(&mut e, &b, &t, &adj, 300);
    for i in 0..e.nodes.len() {
        assert_eq!(e.node_view(i).route_hops, None);
    }
}

#[test]
fn an_origin_never_learns_its_record_landed() {
    let (mut e, b, t, adj) = chain(8);
    e.nodes[0].next_bundle_round = u64::MAX;
    e.nodes[1].next_bundle_round = u64::MAX;
    let mut round = 0u64;
    while round < 400 && e.stats.delivered == 0 {
        e.step(StepCtx { round, balloons: &b, towers: &t, adj: &adj });
        round += 1;
    }
    assert!(e.stats.delivered >= 1, "precondition: something was delivered");
    let delivered_seq = e.nodes[2].last_resolved.as_ref().expect("recorded").seq;
    e.halt_origination();
    for r in round..(round + 2 * e.params.bundle_max_age_rounds) {
        e.step(StepCtx { round: r, balloons: &b, towers: &t, adj: &adj });
    }

    let origin = &e.nodes[2];
    let out = origin.outstanding.as_ref().expect("originated something");
    assert_eq!(out.seq, delivered_seq, "still the bundle we watched land");
    assert_eq!(
        out.state,
        AckState::TimedOut,
        "the origin cannot know it landed, so it must time out"
    );
    assert_eq!(origin.last_channel, Some(Channel::Radio));
}

#[test]
fn each_record_counts_once() {
    let mut e = Epidemic::new();
    e.spawn_node();
    assert!(e.record_outcome(0, 0, Channel::Radio));
    assert!(e.record_outcome(0, 1, Channel::Radio));
    assert!(!e.record_outcome(0, 0, Channel::Radio), "it has arrived before");
    assert!(!e.record_outcome(0, 1, Channel::Satellite), "it was delivered");
    assert!(!e.record_outcome(7, 0, Channel::Radio), "there is no such origin");
    assert_eq!(e.nodes[0].settled, vec![0, 1]);
    assert_eq!(e.nodes[0].last_resolved.as_ref().map(|r| r.seq), Some(1));
}

/// Copies that live longer than it takes to originate the next record arrive
/// in any order, and still no record counts twice.
#[test]
fn late_copies_do_not_count_again() {
    let (mut e, b, t, adj) = chain(8);
    e.params.bundle_interval_rounds = 7;
    e.params.bundle_max_age_rounds = 90;
    e.params.tower_contact = 1;
    for round in 0..600u64 {
        // The first balloon keeps going out of sight.
        let shown = if (round / 40) % 2 == 0 { 3 } else { 0 };
        e.step(StepCtx { round, balloons: &b[..shown], towers: &t, adj: &adj });
        let settled: usize = e.nodes.iter().map(|n| n.settled.len()).sum();
        assert_eq!(e.stats.delivered + e.stats.satellite, settled as u64);
        let made: u64 = e.nodes.iter().map(|n| n.bundle_seq).sum();
        assert_eq!(e.stats.originated, made);
        assert!(e.stats.delivered + e.stats.satellite <= e.stats.originated);
    }
    assert!(e.stats.delivered > 20 && e.stats.duplicate_arrivals > 0, "{:?}", e.stats);
}

#[test]
fn copies_only_dwindle() {
    let (mut e, b, t, adj) = chain(8);
    let count = |e: &Epidemic| {
        let mut by_record: std::collections::HashMap<(u32, u64), u32> = Default::default();
        for c in e.nodes.iter().flat_map(|n| &n.held) {
            assert!(c.copies >= 1);
            *by_record.entry((c.origin_id, c.seq)).or_insert(0) += c.copies;
        }
        by_record
    };
    let mut before = count(&e);
    for round in 0..400u64 {
        e.step(StepCtx { round, balloons: &b, towers: &t, adj: &adj });
        let after = count(&e);
        for (k, &n) in &after {
            assert!(n <= *before.get(k).unwrap_or(&8));
            assert!(before.contains_key(k) || n == 8, "a new record has its whole budget");
        }
        before = after;
    }
}

#[test]
fn a_percentile_is_the_sample_at_its_rank() {
    assert_eq!(percentile(&vec![], 95), 0);
    assert_eq!(percentile(&vec![7], 95), 7);
    let up: Vec<u64> = (1..=100).collect();
    let down: Vec<u64> = (1..=100).rev().collect();
    assert_eq!(percentile(&up, 95), 95);
    assert_eq!(percentile(&down, 95), 95);
    assert_eq!((percentile(&down, 0), percentile(&down, 100)), (1, 100));
    // Half way between two places goes to the upper one.
    assert_eq!(percentile(&vec![30, 20], 50), 30);
    assert_eq!(percentile(&vec![5, 5, 1, 9, 5], 50), 5);
    assert_eq!(percentile(&vec![u64::MAX, 0, u64::MAX], 95), u64::MAX);
}

/// Every delivery that counts leaves its latency, and the table has their mean
/// and the percentile that nearly all are within.
#[test]
fn latencies_are_published() {
    let (mut e, b, t, adj) = chain(8);
    assert_eq!(
        e.stats().get("delivery_latency_p95"),
        Some(StatValue::Ratio(Ratio { num: 0, den: 1 }))
    );
    run(&mut e, &b, &t, &adj, 3000);
    assert!(e.stats.delivered > 10);
    assert_eq!(e.latencies.len() as u64, e.stats.delivered);
    assert_eq!(e.latencies.iter().sum::<u64>(), e.stats.delivery_latency.sum);
    let mut sorted = e.latencies.clone();
    sorted.sort();
    let place = ((sorted.len() - 1) as f64 * 0.95).round() as usize;
    assert_eq!(
        e.stats().get("delivery_latency_p95"),
        Some(StatValue::Ratio(Ratio { num: sorted[place] as u128, den: 1 }))
    );
}
