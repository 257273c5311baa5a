//! Messages that the chip sends by itself.
use obd_session_rs::addressing::Addressing;
use obd_session_rs::link::stn_periodic_engine::{
    arm_commands, arm_step, first_split, freshest_frames, install_verdict, live_stats,
    route_event, stn_protocol, teardown_start, teardown_step, ArmStep, InstallStep, InstallVerdict,
    StnInstall, TapRoute, TeardownPhase, ARM_ATTEMPTS,
};
use obd_session_rs::link::{Frame, LinkEvent, PeriodicError, PeriodicMessage};
use obd_session_rs::table::Table;

fn frame(id: &str, raw: &str) -> Frame {
    Frame {
        id: id.into(),
        extended: false,
        ts_us: 0,
        data: vec![],
        raw: raw.into(),
    }
}

#[test]
fn replies_to_an_install_are_told_apart() {
    assert_eq!(install_verdict("out of memory"), InstallVerdict::OutOfMemory);
    assert_eq!(install_verdict("?"), InstallVerdict::Refused);
    assert_eq!(install_verdict("1A"), InstallVerdict::Accepted);
    assert_eq!(install_verdict("+1A"), InstallVerdict::Refused);
}

#[test]
fn accepted_messages_are_gathered() {
    let mut lengths = Table::new();
    lengths.insert("010C".to_string(), 2);
    let mut s = StnInstall::new();
    assert!(matches!(s.finish(), Err(PeriodicError::NoneAccepted)));
    for (header, pids, period_ms) in [
        ("7E0", vec!["010C", "010D"], 50),
        ("7E0", vec!["0105"], 40),
        ("18DA10F1", vec!["010F"], 200),
    ] {
        s.accept(
            &PeriodicMessage {
                header: header.into(),
                data: "x".into(),
                period_ms,
                pids: pids.iter().map(|p| p.to_string()).collect(),
            },
            &lengths,
        );
    }
    let r = s.finish().unwrap();
    assert_eq!(r.accepted, 3);
    assert_eq!(r.response_ids, vec!["7E8", "18DAF110"]);
    assert_eq!(r.fast_period_ms, 40);
    assert_eq!(r.served_pids, vec!["010C", "010D", "0105", "010F"]);
    assert_eq!(
        s.decoders[0],
        ("7E8".to_string(), vec![("010C".to_string(), 2), ("010D".to_string(), 1)])
    );
}

#[test]
fn the_monitor_is_armed() {
    let ids = vec!["7E8".to_string(), "7E9".to_string()];
    assert_eq!(
        arm_commands(Addressing::Can11, &ids),
        vec!["STPO", "STFAC", "STFPA 7E8,7FF", "STFPA 7E9,7FF"]
    );
    let ids = vec!["18DAF110".to_string()];
    assert_eq!(
        arm_commands(Addressing::Can29 { tester: 0xF1 }, &ids)[2],
        "STFPA 18DAF110,1FFFFFFF"
    );
    assert_eq!(arm_step(1, false), ArmStep::Armed);
    assert_eq!(arm_step(1, true), ArmStep::Retry { attempt: 2 });
    assert_eq!(
        arm_step(ARM_ATTEMPTS, true),
        ArmStep::Aborted { attempts: 5 }
    );
}

#[test]
fn events_are_routed() {
    let ids = vec!["7e8".to_string()];
    assert_eq!(route_event(LinkEvent::Stopped, &ids), TapRoute::Stopped);
    let f = frame("7E8", "7E8 03 41 0D 00");
    assert_eq!(route_event(LinkEvent::Frame(f.clone()), &ids), TapRoute::Decode(f));
    assert_eq!(
        route_event(LinkEvent::Frame(frame("7E9", "7E9 03")), &ids),
        TapRoute::Answer("7E9 03".into())
    );
    assert_eq!(
        route_event(LinkEvent::Text(" OK ".into()), &ids),
        TapRoute::Answer("OK".into())
    );
}

#[test]
fn the_freshest_frames_stay() {
    let kept = freshest_frames(vec![frame("7E8", "a"), frame("7E9", "b"), frame("7E8", "c")]);
    let raws: Vec<&str> = kept.iter().map(|f| f.raw.as_str()).collect();
    assert_eq!(raws, vec!["c", "b"]);
}

#[test]
fn protocols_have_numbers() {
    assert_eq!(stn_protocol("33").as_deref(), Some("33"));
    assert_eq!(stn_protocol("A6").as_deref(), Some("33"));
    assert_eq!(stn_protocol("7").as_deref(), Some("34"));
    assert_eq!(stn_protocol("?"), None);
}

#[test]
fn a_teardown_comes_to_its_end() {
    for reply in [None, Some("OK"), Some("?"), Some("33"), Some("41 00 BE 3F A8 13")] {
        let (mut phase, first) = teardown_start();
        assert!(first.is_some());
        let mut sent = vec![first.unwrap().command];
        while phase != TeardownPhase::Finished {
            let (next, send) = teardown_step(phase, reply);
            phase = next;
            sent.extend(send.map(|s| s.command));
            assert!(sent.len() < 20);
        }
        assert!(sent.iter().any(|c| c == "STPPMC"), "{sent:?}");
    }
}

#[test]
fn frames_go_to_the_first_decoder_that_splits() {
    let members = |pids: &[&str]| -> Vec<(String, u8)> {
        pids.iter().map(|p| (p.to_string(), 1u8)).collect()
    };
    let decoders = vec![
        ("7E8".to_string(), members(&["0105"])),
        ("7E9".to_string(), members(&["0104", "010F"])),
        ("7E8".to_string(), members(&["010C", "010D", "0111"])),
    ];
    let split = |m: &Vec<(String, u8)>| if m.len() > 1 { Some(m.len()) } else { None };
    assert_eq!(first_split(&decoders, "7E8", &split), Some(3));
    assert_eq!(first_split(&decoders, "7E9", &split), Some(2));
    assert_eq!(first_split(&decoders, "7EA", &split), None);

    let stats = live_stats(&decoders, 40);
    assert_eq!((stats.members, stats.fast_period_ms), (6, 40));
    assert_eq!(live_stats(&vec![], 25).members, 0);
}

#[test]
fn a_full_table_stops_the_installing() {
    let lengths = Table::new();
    let mut s = StnInstall::new();
    let message = |pid: &str| PeriodicMessage {
        header: "7E0".into(),
        data: "x".into(),
        period_ms: 50,
        pids: vec![pid.to_string()],
    };
    assert_eq!(s.settle(&message("010C"), &lengths, "1A\r"), InstallStep::Taken);
    assert_eq!(s.settle(&message("010D"), &lengths, "?"), InstallStep::Skipped);
    assert_eq!(s.settle(&message("0105"), &lengths, "1B"), InstallStep::Taken);
    assert_eq!(s.settle(&message("010F"), &lengths, "out of memory"), InstallStep::Stop);
    assert_eq!(s.finish().unwrap().served_pids, vec!["010C", "0105"]);
}
