use std::collections::{HashMap, HashSet};

use sim_server::link_detection::Candidate;
use sim_server::protocol::dv_dtn::DvDtn;
use sim_server::protocol::stats::StatValue;
use sim_server::protocol::{MeshProtocol, ProtocolSpec};
use sim_server::sim::World;
use sim_server::telemetry::Reading;

const N: usize = 14;

fn readings(n: usize) -> Vec<Reading> {
    (0..n as u64)
        .map(|i| Reading {
            lon: i,
            lat: 0,
            alt_m: 0,
            temperature_k: 0,
            pressure_hpa: 0,
            humidity_pct: 0,
        })
        .collect()
}

/// Which nodes are in range changes all the time; the two towers come last.
fn rows(t: u64) -> Vec<Vec<Candidate>> {
    let mut rows: Vec<Vec<Candidate>> = vec![Vec::new(); N + 2];
    for a in 0..N + 2 {
        for b in 0..N + 2 {
            if a == b {
                continue;
            }
            let (lo, hi) = (a.min(b) as u64, a.max(b) as u64);
            let phase = t / 240 + lo * 7 + hi * 13;
            let in_range = if hi >= N as u64 {
                lo < N as u64 && phase % 9 == 0
            } else {
                phase % 5 == 0
            };
            rows[a].push(Candidate { index: b, in_range });
        }
    }
    rows
}

fn world(choice: &str) -> World {
    let spec: ProtocolSpec = choice.parse().unwrap();
    let mut w = World::new(0).with_protocol(&spec).with_seed(11);
    w.add_tower(0, 0, 0);
    w.add_tower(1, 1, 1);
    w.spawn_balloon_pool(&readings(N));
    w.set_visible_count(N as u32);
    w
}

fn run(w: &mut World, ticks: u64, mut each: impl FnMut(&World, u64)) {
    let r = readings(N);
    for t in 0..ticks {
        let rows = rows(t);
        assert!(w.can_tick(&r, &rows));
        w.tick(t, &r, &rows);
        if w.tick_count % 8 == 0 {
            each(w, w.tick_count / 8);
        }
    }
}

fn dv(w: &World) -> &DvDtn {
    match &w.protocol {
        MeshProtocol::DvDtn(d) => d,
        MeshProtocol::Epidemic(_) => panic!("another protocol"),
    }
}

/// What every round keeps, whatever way routes are found.
fn stays_in_order(choice: &str) {
    let mut w = world(choice);
    let mut moved = 0u64;
    let mut before: HashMap<(u32, u64), (usize, Vec<u32>)> = HashMap::new();
    run(&mut w, 8 * 500, |w, round| {
        let d = dv(w);
        let p = &d.params;
        let st = w.bundle_stats();
        let mut held = 0u64;
        let mut ids: HashSet<(u32, u64)> = HashSet::new();
        for (i, n) in d.nodes.iter().enumerate() {
            assert!(n.queue.len() <= p.relay_queue_capacity);
            assert!(n.ack_queue.len() <= p.ack_queue_capacity);
            held += n.queue.len() as u64;
            for b in &n.queue {
                assert!(ids.insert((b.origin_id, b.seq)), "one bundle in two places");
                assert_eq!(b.path.first(), Some(&b.origin_id));
                assert_eq!(b.path.last(), Some(&(i as u32)));
                let stops: HashSet<u32> = b.path.iter().copied().collect();
                assert_eq!(stops.len(), b.path.len(), "a loop");
                assert!(b.path.len() <= p.bundle_max_hops);
                assert!(round - b.created_at_round <= p.bundle_max_age_rounds);
                assert_eq!((b.record.origin_id, b.record.seq), (b.origin_id, b.seq));
            }
            for a in &n.ack_queue {
                assert!(round - a.created_at_round <= p.bundle_max_age_rounds);
            }
            assert!(n.log.iter().all(|r| r.origin_id == i as u32 && r.seq < n.bundle_seq));
        }
        assert_eq!(
            st.originated,
            st.delivered + st.satellite + st.dropped_loop + st.dropped_ttl + held
        );
        moved = st.delivered;
        let now: HashMap<(u32, u64), (usize, Vec<u32>)> = d
            .nodes
            .iter()
            .enumerate()
            .flat_map(|(i, n)| {
                n.queue.iter().map(move |b| ((b.origin_id, b.seq), (i, b.path.clone())))
            })
            .collect();
        for (id, (holder, path)) in &now {
            if let Some((was_with, was)) = before.get(id) {
                let stayed = was_with == holder && was == path;
                let mut on = was.clone();
                on.push(*holder as u32);
                assert!(stayed || *path == on, "more than one hop in a round");
            }
        }
        before = now;
    });
    assert!(moved > 0, "{choice} delivered nothing");
    w.halt_origination();
    let age = dv(&w).params.bundle_max_age_rounds;
    run(&mut w, 8 * (2 * age + 4), |_, _| {});
    assert!(dv(&w).nodes.iter().all(|n| n.queue.is_empty() && n.ack_queue.is_empty()));
}

#[test]
fn a_proactive_run_stays_in_order_and_drains() {
    stays_in_order("dv-dtn");
}

#[test]
fn a_reactive_run_stays_in_order_and_drains() {
    stays_in_order("dv-dtn:discovery=reactive");
}

#[test]
fn a_gossiping_run_stays_in_order_and_drains() {
    stays_in_order("dv-dtn:discovery=link-state");
}

#[test]
fn a_spraying_run_keeps_its_budget() {
    let mut w = world("epidemic:copies=4");
    run(&mut w, 8 * 400, |w, _| {
        let MeshProtocol::Epidemic(e) = &w.protocol else {
            panic!("another protocol");
        };
        let mut budget: HashMap<(u32, u64), u64> = Default::default();
        for n in &e.nodes {
            for c in &n.held {
                assert!(c.copies >= 1);
                *budget.entry((c.origin_id, c.seq)).or_insert(0) += c.copies as u64;
            }
        }
        assert!(budget.values().all(|&b| b <= 4));
    });
    let Some(StatValue::Count(delivered)) = w.stats().get("delivered") else {
        panic!("deliveries are counted");
    };
    assert!(delivered > 0);
}

#[test]
fn a_world_that_cannot_advance_says_so() {
    let mut w = world("dv-dtn");
    assert!(!w.can_tick(&readings(N - 1), &rows(0)));
    assert!(w.can_tick(&readings(N), &vec![]), "no links are due yet");
    for t in 0..2 {
        w.tick(t, &readings(N), &vec![]);
    }
    assert!(w.links_due());
    assert!(!w.can_tick(&readings(N), &vec![]));
    let mut wild = rows(0);
    wild[3].push(Candidate { index: N + 2, in_range: false });
    assert!(!w.can_tick(&readings(N), &wild));
    assert!(w.can_tick(&readings(N), &rows(0)));
    w.tick_count = u64::MAX;
    assert!(!w.can_tick(&readings(N), &rows(0)));
}

#[test]
fn a_protocol_without_room_cannot_take_its_round() {
    let mut w = world("dv-dtn");
    w.tick_count = 7;
    assert!(w.can_tick(&readings(N), &rows(0)));
    if let MeshProtocol::DvDtn(d) = &mut w.protocol {
        d.stats.originated = u64::MAX;
    }
    assert!(!w.can_tick(&readings(N), &rows(0)));
    let mut w = world("epidemic");
    w.tick_count = 7;
    assert!(w.can_tick(&readings(N), &rows(0)));
    if let MeshProtocol::Epidemic(e) = &mut w.protocol {
        e.nodes[2].bundle_seq = u64::MAX;
    }
    assert!(!w.can_tick(&readings(N), &rows(0)));
}

/// One seed, one run: the draws are the seed's.
#[test]
fn a_seed_pins_the_run() {
    let fingerprint = |seed: u64| {
        let spec: ProtocolSpec = "dv-dtn".parse().unwrap();
        let mut w = World::new(0).with_protocol(&spec).with_seed(seed);
        w.add_tower(0, 0, 0);
        w.add_tower(1, 1, 1);
        w.spawn_balloon_pool(&readings(N));
        w.set_visible_count(N as u32);
        let slots: Vec<u64> = dv(&w).nodes.iter().map(|n| n.next_bundle_round).collect();
        run(&mut w, 8 * 120, |_, _| {});
        let st = w.bundle_stats();
        (slots, st.originated, st.delivered, st.belief_hops, st.slots_with_bundle)
    };
    assert_eq!(fingerprint(11), fingerprint(11));
    assert_ne!(fingerprint(11).0, fingerprint(12).0);
}

#[test]
fn pair_keys_of_a_snapshot_are_distinct() {
    let mut w = world("dv-dtn");
    let r = readings(N);
    for t in 0..30 {
        if let Some(edges) = w.tick(t, &r, &rows(t)).edges {
            let keys: HashSet<&str> = edges.iter().map(|e| e.pair_key.as_str()).collect();
            assert_eq!(keys.len(), edges.len());
            assert!(!edges.is_empty());
        }
    }
}

/// With every tower gone the news runs out, and with it every belief.
#[test]
fn a_world_without_towers_forgets() {
    let mut w = world("dv-dtn");
    run(&mut w, 8 * 200, |_, _| {});
    assert!(w.balloons.iter().any(|b| b.believed_hops.is_some()));
    w.remove_tower(0);
    w.remove_tower(1);
    let r = readings(N);
    let age = dv(&w).params.belief_max_age_rounds;
    for t in 0..8 * (age + 2) {
        let mut between: Vec<Vec<Candidate>> = rows(t);
        between.truncate(N);
        for row in &mut between {
            row.retain(|c| c.index < N);
        }
        assert!(w.can_tick(&r, &between));
        w.tick(t, &r, &between);
    }
    assert!(w.balloons.iter().all(|b| b.believed_hops.is_none()));
}

#[test]
fn a_transmission_may_take_any_number_of_observations() {
    for lsa in ["0", "1", "18446744073709551615"] {
        let mut w = world(&format!("dv-dtn:discovery=link-state,lsa={lsa}"));
        run(&mut w, 8 * 200, |_, _| {});
        assert_eq!(dv(&w).params.lsa_per_transmission.to_string(), lsa);
        assert_eq!(w.bundle_stats().delivered > 0, dv(&w).nodes.iter().any(|n| n.belief.is_some()));
    }
}
