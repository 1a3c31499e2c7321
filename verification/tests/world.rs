use std::time::{SystemTime, UNIX_EPOCH};

use sim_server::balloon::Balloon;
use sim_server::link_detection::{Candidate, NodeKey};
use sim_server::protocol::dv_dtn::bundle::AckState;
use sim_server::protocol::stats::Ratio;
use sim_server::protocol::{MeshProtocol, ProtocolSpec};
use sim_server::sim::{Command, Reply, World};
use sim_server::telemetry::{Reading, TelemetryRecord};

fn reading(n: u64) -> Reading {
    Reading {
        lon: n,
        lat: 0,
        alt_m: 18000.0f64.to_bits(),
        temperature_k: 0,
        pressure_hpa: 0,
        humidity_pct: 0,
    }
}

fn readings(n: u64) -> Vec<Reading> {
    (0..n).map(reading).collect()
}

fn coeff() -> u64 {
    4.12f64.to_bits()
}

fn now_ms() -> u64 {
    SystemTime::now().duration_since(UNIX_EPOCH).map(|d| d.as_millis() as u64).unwrap_or(0)
}

fn test_world() -> World {
    let mut world = World::new(coeff());
    world.spawn_balloon_pool(&readings(10));
    world.set_visible_count(10);
    world
}

#[test]
fn snapshots_are_stamped_with_the_current_wall_clock() {
    let before = now_ms();
    let snapshot = test_world().tick(now_ms(), &readings(10), &vec![]);
    let after = now_ms();
    assert!(
        snapshot.server_time_ms >= before && snapshot.server_time_ms <= after,
        "stamp {} outside [{}, {}]",
        snapshot.server_time_ms,
        before,
        after
    );
}

#[test]
fn the_paused_path_is_stamped_too() {
    let mut world = test_world();
    world.paused = true;
    let before = now_ms();
    let snapshot = world.tick(now_ms(), &readings(10), &vec![]);
    assert!(snapshot.paused);
    assert!(snapshot.server_time_ms >= before);
}

#[test]
fn the_stamp_advances_across_ticks() {
    let mut world = test_world();
    let first = world.tick(now_ms(), &readings(10), &vec![]).server_time_ms;
    let second = world.tick(first + 5, &readings(10), &vec![]).server_time_ms;
    assert!(second > first, "{second} should be later than {first}");
}

/// Nodes in a row, each in range of the next; the towers come last.
fn row(n: usize, links: &[(usize, usize)]) -> Vec<Vec<Candidate>> {
    let mut rows: Vec<Vec<Candidate>> = vec![Vec::new(); n];
    for &(a, b) in links {
        rows[a].push(Candidate { index: b, in_range: true });
        rows[b].push(Candidate { index: a, in_range: true });
    }
    rows
}

#[test]
fn a_paused_world_stands_still() {
    let mut world = test_world();
    world.tick(1, &readings(10), &vec![]);
    world.apply(Command::SetPaused(true));
    let moved: Vec<Reading> = (100..110).map(reading).collect();
    let shot = world.tick(2, &moved, &vec![]);
    assert_eq!(shot.tick, 1);
    assert!(shot.edges.is_none() && shot.beacon_hops.is_none());
    assert_eq!(world.balloons[3].reading, reading(3));
    world.apply(Command::SetPaused(false));
    let shot = world.tick(3, &moved, &vec![]);
    assert_eq!(shot.tick, 2);
    assert_eq!(shot.balloons[3].reading, reading(103));
}

/// Two balloons reach a tower, two hang together without one, the rest hang
/// alone.
#[test]
fn links_ground_balloons_and_count_degrees() {
    let mut world = test_world();
    world.add_tower(1, 2, 3);
    let rows = row(11, &[(10, 0), (0, 1), (2, 3)]);
    assert!(!world.links_due());
    assert!(world.tick(1, &readings(10), &vec![]).edges.is_none());
    assert!(world.tick(2, &readings(10), &vec![]).edges.is_none());
    assert!(world.links_due());
    let shot = world.tick(3, &readings(10), &rows);
    let edges = shot.edges.expect("the third tick computes links");
    let told: Vec<(&str, bool)> =
        edges.iter().map(|e| (e.pair_key.as_str(), e.grounded)).collect();
    assert_eq!(told, vec![("b0|t0", true), ("b0|b1", true), ("b2|b3", false)]);
    let grounded: Vec<u32> =
        shot.balloons.iter().filter(|b| b.grounded).map(|b| b.id).collect();
    assert_eq!(grounded, vec![0, 1]);
    assert_eq!(shot.mean_degree, Ratio { num: 5, den: 10 });
    assert_eq!(shot.grounded_pct, Ratio { num: 200, den: 10 });
    // Nobody has heard anything: the grounded are unaware.
    assert_eq!(shot.believed_grounded_pct, Ratio { num: 0, den: 10 });
    assert_eq!(shot.belief_stale_pct, Ratio { num: 0, den: 10 });
    assert_eq!(shot.belief_unaware_pct, Ratio { num: 200, den: 10 });
    // The readout holds between computations.
    let shot = world.tick(4, &readings(10), &vec![]);
    assert_eq!(shot.mean_degree, Ratio { num: 5, den: 10 });
}

/// A tower's wave reaches its neighbours, and a bundle comes home.
#[test]
fn beliefs_and_bundles_flow_through_ticks() {
    let mut world = World::new(coeff()).with_seed(7);
    world.add_tower(1, 2, 3);
    world.spawn_balloon_pool(&readings(3));
    world.set_visible_count(3);
    let rows = row(4, &[(3, 0), (0, 1), (1, 2)]);
    let mut hops = 0;
    let mut last = None;
    for t in 0..(8 * 600) {
        let shot = world.tick(t, &readings(3), &rows);
        hops += shot.beacon_hops.as_ref().map_or(0, |h| h.len());
        if let Some(h) = &shot.beacon_hops {
            assert!(h.iter().all(|w| w.from != w.to));
        }
        last = Some(shot);
    }
    let shot = last.unwrap();
    assert!(hops > 100);
    assert_eq!(shot.believed_grounded_pct, Ratio { num: 300, den: 3 });
    assert_eq!(shot.balloons[2].believed_hops, Some(3));
    assert!(shot.bundles_delivered > 0);
    let st = world.bundle_stats();
    assert_eq!(st.delivered, shot.bundles_delivered);
    assert_eq!(
        st.originated,
        shot.bundles_delivered + shot.bundles_lost + shot.bundles_in_flight
    );
    assert_eq!(world.dv_dtn().delivered(), st.delivered);
    let Reply::Comms(Some(c)) = world.apply(Command::QueryBalloonComms { id: 2 }) else {
        panic!("balloon 2 is there");
    };
    assert_eq!((c.id, c.believed_hops, c.grounded), (2, Some(3), true));
    assert!(c.log.windows(2).all(|w| w[0].seq > w[1].seq));
    let b = c.last_bundle.expect("something was resolved");
    assert_eq!(b.state, AckState::Acked);
    assert_eq!(b.path, Some(vec![2, 1, 0]));
    assert!(matches!(
        world.apply(Command::QueryBalloonComms { id: 3 }),
        Reply::Comms(None)
    ));
    world.halt_origination();
    for t in 0..(8 * 400) {
        world.tick(t, &readings(3), &rows);
    }
    let shot = world.tick(0, &readings(3), &rows);
    assert_eq!(shot.bundles_in_flight, 0);
    assert_eq!(shot.bundles_stranded, 0);
}

#[test]
fn commands_change_the_world() {
    let mut world = test_world();
    assert!(matches!(world.apply(Command::SetBalloonCount(4)), Reply::Done));
    assert_eq!(world.visible_count, 4);
    world.apply(Command::SetBalloonCount(4000));
    assert_eq!(world.visible_count, 10);
    world.apply(Command::AddTower { lon: 5, lat: 6, height_m: 7 });
    world.apply(Command::AddTower { lon: 8, lat: 9, height_m: 10 });
    assert_eq!(world.towers.iter().map(|t| t.id).collect::<Vec<_>>(), vec![0, 1]);
    assert_eq!((world.towers[1].lon, world.towers[1].height_m), (8, 10));
    world.apply(Command::RemoveTower { id: 0 });
    world.apply(Command::RemoveTower { id: 9 });
    assert_eq!(world.towers.iter().map(|t| t.id).collect::<Vec<_>>(), vec![1]);
    world.apply(Command::AddTower { lon: 0, lat: 0, height_m: 0 });
    assert_eq!(world.towers[1].id, 2);
    world.apply(Command::SetHorizonRefractionCoeff(3));
    assert_eq!(world.horizon_refraction_coeff, 3);
}

#[test]
fn a_respawned_pool_has_new_ids() {
    let mut world = test_world();
    world.spawn_balloon_pool(&readings(12));
    assert_eq!(world.balloons.len(), 12);
    assert_eq!(world.balloons[0].id, 10);
    assert_eq!(world.dv_dtn().nodes.len(), 12);
    assert_eq!(world.balloons[11].believed_hops, None);
}

#[test]
fn a_world_can_run_another_protocol() {
    let choice: ProtocolSpec = "epidemic:copies=4".parse().unwrap();
    let mut world = World::new(coeff()).with_protocol(&choice).with_seed(3);
    assert!(matches!(world.protocol, MeshProtocol::Epidemic(_)));
    world.add_tower(0, 0, 0);
    world.spawn_balloon_pool(&readings(2));
    world.set_visible_count(2);
    let rows = row(3, &[(2, 0), (0, 1)]);
    for t in 0..(8 * 500) {
        let shot = world.tick(t, &readings(2), &rows);
        assert!(shot.balloons.iter().all(|b| b.believed_hops.is_none()));
    }
    let table = world.stats();
    assert!(table.get("delivered").is_some());
    assert!(table.get("stall_rate").is_none());
}

#[test]
fn samples_the_atmosphere_at_the_balloons_own_position() {
    let at = Reading {
        lon: 12.0f64.to_bits(),
        lat: (-34.0f64).to_bits(),
        alt_m: 18_000.0f64.to_bits(),
        temperature_k: 216.65f64.to_bits(),
        pressure_hpa: 75.0f64.to_bits(),
        humidity_pct: 0.5f64.to_bits(),
    };
    let b = Balloon::new(7, at);
    let r = TelemetryRecord::sample(&b, 3, 42);
    assert_eq!(r.origin_id, 7);
    assert_eq!(r.seq, 3, "record seq must track the bundle seq it ships with");
    assert_eq!(r.created_at_round, 42);
    assert_eq!(r.reading, at);
    assert_eq!(r.ack_state, AckState::Pending);
    assert_eq!((r.channel, r.tower_id, r.hops, r.ack_hops_completed), (None, None, None, None));
}

#[test]
fn node_numbers_are_their_own() {
    assert_eq!(NodeKey::Balloon(5).number(), 10);
    assert_eq!(NodeKey::Tower(5).number(), 11);
}

/// Balloons may be hidden between one computation of the links and the next:
/// the round goes on with links that name hidden balloons, and none of these is
/// told anything.
#[test]
fn balloons_may_be_hidden_before_the_links_are_computed_anew() {
    for choice in [
        "dv-dtn",
        "dv-dtn:discovery=reactive,overhear=on",
        "dv-dtn:discovery=link-state",
        "epidemic:copies=4",
    ] {
        let spec: ProtocolSpec = choice.parse().unwrap();
        let mut world = World::new(coeff()).with_protocol(&spec).with_seed(5);
        world.add_tower(1, 2, 3);
        world.spawn_balloon_pool(&readings(6));
        let rows = row(7, &[(6, 0), (6, 3), (0, 1), (1, 2), (2, 3), (3, 4), (4, 5)]);
        let mut hidden = 0;
        for t in 0..(8 * 300) {
            let short = (t + 1) % 8 == 0 && (t + 1) % 3 != 0;
            world.set_visible_count(if short { 2 } else { 6 });
            assert!(world.can_tick(&readings(6), &rows), "{choice}");
            let shot = world.tick(t, &readings(6), &rows);
            if short {
                hidden += 1;
                for h in shot.beacon_hops.iter().flatten().filter(|_| choice == "dv-dtn") {
                    assert!(["t0", "b0", "b1"].contains(&h.to.as_str()), "{} is hidden", h.to);
                }
            }
        }
        assert_eq!(hidden, 200);
    }
}
