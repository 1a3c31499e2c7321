use sim_server::protocol::dv_dtn::params::{AckPolicy, Discovery, ReplyOverhearing, RingSearch};
use sim_server::protocol::ProtocolSpec;

#[test]
fn reactive_discovery_refuses_the_beacon_borne_ack_digest() {
    let err = "dv-dtn:discovery=reactive,ack=digest".parse::<ProtocolSpec>().unwrap_err();
    assert!(err.contains("tower beacons"), "unhelpful error: {err}");
    assert!("dv-dtn:discovery=reactive".parse::<ProtocolSpec>().is_ok());
}

#[test]
fn link_state_refuses_the_beacon_borne_ack_digest() {
    let err = "dv-dtn:discovery=link-state,ack=digest".parse::<ProtocolSpec>().unwrap_err();
    assert!(err.contains("tower beacons"), "unhelpful error: {err}");
    assert!("dv-dtn:discovery=link-state".parse::<ProtocolSpec>().is_ok());
}

#[test]
fn a_bare_name_selects_the_defaults() {
    assert_eq!("dv-dtn".parse::<ProtocolSpec>().unwrap(), ProtocolSpec::default());
    match "epidemic".parse::<ProtocolSpec>().unwrap() {
        ProtocolSpec::Epidemic(p) => assert_eq!(p.copies, 8),
        other => panic!("wrong protocol {other:?}"),
    }
}

#[test]
fn settings_override_one_parameter_each() {
    match "dv-dtn:ack=digest,mesh=4".parse::<ProtocolSpec>().unwrap() {
        ProtocolSpec::DvDtn(p) => {
            assert_eq!(p.ack_policy, AckPolicy::Digest);
            assert_eq!(p.batch.mesh_hop, 4);
            assert_eq!(p.batch.tower_contact, 4);
            assert_eq!(p.discovery, Discovery::Proactive);
        }
        other => panic!("wrong protocol {other:?}"),
    }
    match "dv-dtn:discovery=reactive,overhear=on,ring=expanding".parse::<ProtocolSpec>().unwrap() {
        ProtocolSpec::DvDtn(p) => {
            assert_eq!(p.discovery, Discovery::Reactive);
            assert_eq!(p.reply_overhearing, ReplyOverhearing::On);
            assert_eq!(p.ring_search, RingSearch::Expanding);
        }
        other => panic!("wrong protocol {other:?}"),
    }
    match "dv-dtn:discovery=link-state,lsa=2".parse::<ProtocolSpec>().unwrap() {
        ProtocolSpec::DvDtn(p) => assert_eq!(p.lsa_per_transmission, 2),
        other => panic!("wrong protocol {other:?}"),
    }
    match "epidemic:copies=16".parse::<ProtocolSpec>().unwrap() {
        ProtocolSpec::Epidemic(p) => assert_eq!(p.copies, 16),
        other => panic!("wrong protocol {other:?}"),
    }
}

#[test]
fn each_mistake_is_named() {
    let err = "gossip\n".parse::<ProtocolSpec>().unwrap_err();
    assert_eq!(err, "unknown protocol \"gossip\\n\" (known: dv-dtn, epidemic)");
    let err = "dv-dtn:ack".parse::<ProtocolSpec>().unwrap_err();
    assert_eq!(err, "setting \"ack\" is not key=value");
    let err = "dv-dtn:relay=mpr".parse::<ProtocolSpec>().unwrap_err();
    assert_eq!(err, "unknown setting \"relay\"");
    let err = "epidemic:copies=many".parse::<ProtocolSpec>().unwrap_err();
    assert_eq!(err, "bad value \"many\" for \"copies\"");
    let err = "epidemic:copies=4294967296".parse::<ProtocolSpec>().unwrap_err();
    assert_eq!(err, "bad value \"4294967296\" for \"copies\"");
    assert!("epidemic:copies=".parse::<ProtocolSpec>().is_err());
    assert!("dv-dtn:".parse::<ProtocolSpec>().is_err());
}

#[test]
fn a_later_setting_wins() {
    match "dv-dtn:mesh=4,mesh=9".parse::<ProtocolSpec>().unwrap() {
        ProtocolSpec::DvDtn(p) => assert_eq!(p.batch.mesh_hop, 9),
        other => panic!("wrong protocol {other:?}"),
    }
}
