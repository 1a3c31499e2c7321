use std::collections::HashSet;

use sim_server::ablation::Ablation;
use sim_server::aggregation;
use sim_server::link_churn::{balloon_pair, Turnover};
use sim_server::protocol::dv_dtn::bundle_stats::BundleStats;
use sim_server::protocol::dv_dtn::params::{AckPolicy, DvDtnParams};
use sim_server::protocol::stats::Ratio;
use sim_server::protocol_sweep;
use sim_server::report::{remainder, report_slots, Part};
use sim_server::sim::EdgeSnapshot;
use sim_server::sweep::{combo_file_name, combos, seed_for_combo, Combo, Run, SweepConfig};
use sim_server::table::{combined, ranking, row_key, run_key, ResultRow, SortKey};

fn mix(h: u64, x: u64) -> u64 {
    (h ^ x).wrapping_mul(0x100000001b3)
}

#[test]
fn the_grid_is_walked_in_order() {
    let config = SweepConfig {
        horizon_coeffs: vec![3.4f64.to_bits(), 4.0f64.to_bits()],
        n_balloons: vec![50, 200, 400],
        fallback_timeout_min: vec![10, 20],
        ack_duration_sec: 30,
    };
    let all = combos(&config);
    assert_eq!(all.len(), 12);
    let mut i = 0;
    for &h in &config.horizon_coeffs {
        for &n in &config.n_balloons {
            for &t in &config.fallback_timeout_min {
                assert_eq!(
                    all[i],
                    Combo {
                        horizon_coeff: h,
                        n_balloons: n,
                        fallback_timeout_min: t,
                        ack_duration_sec: 30,
                    }
                );
                i += 1;
            }
        }
    }
    let none = SweepConfig { n_balloons: vec![], ..config };
    assert!(combos(&none).is_empty());
}

#[test]
fn seeds_and_file_names_are_exact() {
    let combo = Combo {
        horizon_coeff: 4.12f64.to_bits(),
        n_balloons: 1200,
        fallback_timeout_min: -5,
        ack_duration_sec: 30,
    };
    let mut h = 0xcbf29ce484222325u64;
    for x in [4.12f64.to_bits(), 1200, -5i64 as u64, 30] {
        h = mix(h, x);
    }
    assert_eq!(seed_for_combo(&combo), h);
    let text = format!("{:.2}", 4.12f64);
    assert_eq!(combo_file_name(&combo, &text), "h4p12_n1200_t-5_a30.json");
}

/// The run by hand: payloads every five minutes, home by radio after a contact
/// that lasts, by satellite after the timeout.
#[test]
fn payloads_go_home_by_radio_or_satellite() {
    let ids = vec![0, 1, 2];
    let contact: HashSet<u32> = [0].into_iter().collect();
    let mut run = Run::new(3);
    for t in 0..1201 {
        let mut now = contact.clone();
        if t >= 700 {
            now.insert(1);
        }
        run.second(&ids, &now, t, 30, 600);
        let waiting: usize = run.state.iter().map(|s| s.pending.len()).sum();
        assert_eq!(
            run.total_payloads,
            run.radio_delivered + run.satellite_delivered + waiting as u64
        );
    }
    // Made at 0, 300, 600, 900 and 1200 for each of three balloons.
    assert_eq!(run.total_payloads, 15);
    // Balloon 0 is always in touch: all five. Balloon 1 sends its first one up
    // at 600 and the rest by radio.
    assert_eq!(run.radio_delivered, 5 + 4);
    // Balloon 2 never is: three of its own have gone up.
    assert_eq!(run.satellite_delivered, 1 + 3);
    assert_eq!(run.state[2].pending, vec![900, 1200]);
    assert_eq!(run.state[1].connected_since, Some(700));
    assert_eq!(run.pct_radio(), Ratio { num: 900, den: 15 });
    assert_eq!(run.pct_satellite(), Ratio { num: 400, den: 15 });
    assert_eq!(Run::new(0).pct_radio(), Ratio { num: 0, den: 1 });
}

#[test]
fn rows_are_combined_in_order() {
    let key = |first, second, third| SortKey { first, second, third };
    let keys = vec![key(2, 1, 0), key(1, 9, 5), key(1, 9, -5), key(1, 2, 7), key(1, 9, 5)];
    assert_eq!(ranking(&keys), vec![3, 2, 1, 4, 0]);
    let lines: Vec<String> = ["e", "c", "b", "a", "d"].iter().map(|s| s.to_string()).collect();
    assert_eq!(combined("head", &keys, &lines), "head\na\nb\nc\nd\ne\n");
    let row = ResultRow {
        horizon_coeff: "4.12".into(),
        n_balloons: 50,
        fallback_timeout_min: 20,
        ack_duration_sec: 30,
        total_payloads: 15,
        radio_delivered: 9,
        satellite_delivered: 4,
        pct_radio: "60.000".into(),
        pct_satellite: "26.667".into(),
    };
    assert_eq!(row.line(), "4.12,50,20,30,15,9,4,60.000,26.667");
    assert_eq!(row.key(3), key(3, 50, 20));
}

#[test]
fn finished_rows_are_known_by_their_start() {
    let combo = aggregation::Combo {
        seed: 7,
        n: 600,
        ack: AckPolicy::Digest,
        tower_contact: 4,
        mesh_hop: 2,
    };
    assert_eq!(combo.key(), "7,600,digest,4,2");
    assert_eq!(aggregation::ack_name(AckPolicy::SourceRouted), "source-routed");
    assert_eq!(row_key("7,600,digest,4,2,1200,0.5", 5), Some(combo.key()));
    assert_eq!(row_key("7,600,digest,4,2", 5), None);
    assert_eq!(row_key("none,0,dv-dtn,1200", 3), Some("none,0,dv-dtn".to_string()));
    assert_eq!(row_key("", 1), None);
    assert_eq!(row_key(",", 1), Some(String::new()));
}

fn shot(pair_key: &str) -> EdgeSnapshot {
    EdgeSnapshot { pair_key: pair_key.into(), grounded: false }
}

#[test]
fn only_links_between_balloons_count_for_turnover() {
    assert_eq!(balloon_pair("b40|b12"), Some((12, 40)));
    assert_eq!(balloon_pair("b12|t3"), None);
    assert_eq!(balloon_pair("b12"), None);
    assert_eq!(balloon_pair("b12|b"), None);
    let mut t = Turnover::new();
    t.observe(&vec![shot("b0|b1"), shot("b1|b2"), shot("b1|t0"), shot("b1|b0")]);
    assert_eq!((t.survived, t.total), (0, 0));
    t.observe(&vec![shot("b1|b0"), shot("b3|b4")]);
    assert_eq!((t.survived, t.total), (1, 2));
    t.observe(&vec![]);
    assert_eq!((t.survived, t.total), (1, 4));
    t.observe(&vec![shot("b0|b1")]);
    assert_eq!((t.survived, t.total), (1, 4));
}

fn stats() -> BundleStats {
    let mut st = BundleStats::default();
    st.originated = 40;
    st.delivered = 20;
    st.satellite = 8;
    st.dropped_loop = 1;
    st.dropped_ttl = 2;
    st.acked = 12;
    st.ack_lost = 3;
    st.slots_with_bundle = 100;
    st.stall_no_belief = 10;
    st.stall_stale_next_hop = 20;
    st.stall_tower_gone = 5;
    st.blocked = 15;
    st.rounds_sampled = 10;
    st.tower_adjacent_samples = 30;
    st.belief_hops[0] = 1;
    st.belief_hops[3] = 4;
    st.belief_hops[20] = 2;
    st.belief_hops[21] = 9;
    st
}

#[test]
fn the_slot_report_is_exact() {
    let params = DvDtnParams::default();
    let r = report_slots(&stats(), &params);
    assert_eq!(r.budget, 30);
    assert_eq!(r.held_slots, 100);
    assert_eq!(r.stall_rate, Ratio { num: 50, den: 100 });
    assert_eq!(r.moved, Part { count: 50, percent: Ratio { num: 5000, den: 100 } });
    assert_eq!(r.blocked, Part { count: 15, percent: Ratio { num: 1500, den: 100 } });
    assert_eq!(r.tower_adjacent, Ratio { num: 30, den: 10 });
    assert_eq!(
        r.ceiling,
        Ratio {
            num: 30 * params.batch.tower_contact as u128,
            den: 10 * params.beacon_interval_rounds as u128,
        }
    );
    assert_eq!(r.originated_per_round, Ratio { num: 40, den: 10 });
    assert_eq!(r.belief_histogram, " 0:1 3:4 20:2");
    assert_eq!(r.satellite_histogram, "");
    assert_eq!(r.acked, Part { count: 12, percent: Ratio { num: 1200, den: 20 } });
    assert_eq!(r.owed, 5);
    let empty = report_slots(&BundleStats::default(), &params);
    assert_eq!(empty.moved, Part { count: 0, percent: Ratio { num: 0, den: 1 } });
}

#[test]
fn leaks_show_in_the_remainder() {
    let r = remainder(&stats(), 9, 5);
    assert_eq!((r.unaccounted, r.acks_unaccounted), (0, 0));
    assert!(!r.clean());
    let mut st = stats();
    st.originated = 31;
    st.acked = 17;
    assert!(remainder(&st, 0, 0).clean());
    st.originated = 32;
    assert_eq!(remainder(&st, 0, 0).unaccounted, 1);
    assert!(!remainder(&st, 0, 0).clean());
}

#[test]
fn no_rule_is_flipped_unless_asked() {
    let mut a = Ablation::new();
    assert!(!a.prefer_nearer());
    a.set_prefer_nearer(true);
    assert!(a.prefer_nearer());
}

#[test]
fn the_protocol_grid_has_seeds_and_files_of_its_own() {
    let coeffs = vec![3.4f64.to_bits(), 4.12f64.to_bits()];
    let cells = protocol_sweep::combos(&coeffs, &vec![400, 1200, 2000]);
    let walked: Vec<(f64, u32)> =
        cells.iter().map(|c| (f64::from_bits(c.horizon_coeff), c.n_balloons)).collect();
    assert_eq!(
        walked,
        vec![(3.4, 400), (3.4, 1200), (3.4, 2000), (4.12, 400), (4.12, 1200), (4.12, 2000)]
    );
    assert!(protocol_sweep::combos(&coeffs, &vec![]).is_empty());
    let seed = protocol_sweep::seed_for_combo(&cells[4]);
    assert_eq!(seed, mix(mix(0xcbf29ce484222325, 4.12f64.to_bits()), 1200));
    assert_eq!(protocol_sweep::combo_file_name(&cells[4], "4.12"), "h4p12_n1200.json");
}

#[test]
fn protocol_rows_are_written_out() {
    let row = protocol_sweep::ResultRow {
        horizon_coeff: "4.12".into(),
        n_balloons: 1200,
        mean_degree: "5.250".into(),
        grounded_pct: "80.000".into(),
        believed_grounded_pct: "79.500".into(),
        originated: 10,
        delivered: 6,
        satellite: 1,
        acked_count: 5,
        ack_lost_count: 0,
        dropped_loop: 2,
        dropped_ttl: 3,
        completion_rate: "0.5000".into(),
        mean_tower_adjacent: "4.000".into(),
        delivery_ceiling_per_round: "3.200".into(),
    };
    assert_eq!(
        row.line(),
        "4.12,1200,5.250,80.000,79.500,10,6,1,5,0,2,3,0.5000,4.000,3.200"
    );
    let k = row.key(17);
    assert_eq!((k.first, k.second, k.third), (17, 1200, 0));
    assert_eq!(run_key("none", 3, "spray-4"), "none,3,spray-4");
}
