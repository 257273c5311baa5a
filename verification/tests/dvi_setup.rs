//! Setting the binary adapter up, its console, and its live slots.
use obd_session_rs::addressing::{Addressing, Bus, Controller};
use obd_session_rs::link::dvi::codec::{
    can_filter, info_request, set_comm, set_protocol, set_timestamps, Comm, FilterType,
    ObdProtocol, RxFrame,
};
use obd_session_rs::link::dvi::handler::{
    late_reply, tap_frame, Act, DviHandler, Encoded, PeriodicLive, SlotDecoder,
};
use obd_session_rs::link::dvi::setup::{
    binary_switch, bootstrap_probe, bootstrap_verdict, connect_steps, connect_verdict,
    console_bytes, dvi_facts, encode_segments, flow_filters, flow_pairs, no_reply_error,
    obd_pass_filter, obd_pass_filter_29, park_filter, setup_verdict, SetupVerdict, CAN_REPLY,
    INFO_REPLY, PROTOCOL_REPLY, SETTINGS_REPLY,
};
use obd_session_rs::link::dvi::codec::DviFrame;
use obd_session_rs::link::elm::learn_addressing;
use obd_session_rs::link::{
    AdapterFacts, ConnectFail, HostFacts, LinkKind, Payload, TierPeriods,
};

#[test]
fn the_bootstrap_asks_for_binary_mode() {
    assert_eq!(bootstrap_probe(), vec![0x31, 0x02, 0x06, 0x01, 0xC5, 0x0D]);
    assert_eq!(binary_switch(), "DX DP 1");
    assert_eq!(bootstrap_verdict(Ok(vec![0x06, 0x01])), Ok(()));
    assert_eq!(
        bootstrap_verdict(Ok(vec![0x06, 0x00])),
        Err("DVI mode not confirmed: [06, 00]".to_string())
    );
    assert_eq!(
        bootstrap_verdict(Ok(vec![])),
        Err("DVI mode not confirmed: []".to_string())
    );
    assert_eq!(bootstrap_verdict(Err("gone".into())), Err("gone".to_string()));
    assert_eq!(no_reply_error(0x31), "no DVI reply to 31");
    assert_eq!(
        setup_verdict(DviFrame::Error { cmd: 0x34, code: 7 }, 0x44, 0x34),
        SetupVerdict::Failed("DVI error on 34: SubCommandInvalidData".to_string())
    );
}

#[test]
fn the_connect_sequence_is_fixed() {
    let steps = connect_steps();
    assert_eq!(steps.len(), 17);
    assert_eq!(steps[0].bytes, info_request(0x02));
    assert_eq!(steps[0].expect, INFO_REPLY);
    assert_eq!(steps[2].bytes, set_protocol(ObdProtocol::HsCan));
    assert_eq!(steps[5].bytes, can_filter(0, false, FilterType::Flow, true, 0x7E8, 0x7FF, 0x7E0));
    assert_eq!(steps[12].bytes, can_filter(7, false, FilterType::Flow, true, 0x7EF, 0x7FF, 0x7E7));
    assert_eq!(steps[13].bytes, obd_pass_filter(true));
    assert_eq!(steps[14].bytes, obd_pass_filter_29(true));
    assert_eq!(steps[14].expect, CAN_REPLY);
    assert_eq!(steps[15].bytes, set_comm(Comm::On));
    assert_eq!(steps[15].expect, PROTOCOL_REPLY);
    assert_eq!(steps[16].bytes, set_timestamps(false));
    assert_eq!(steps[16].expect, SETTINGS_REPLY);
    let required: Vec<usize> = (0..17).filter(|i| steps[*i].required).collect();
    assert_eq!(required, vec![2, 15]);

    assert_eq!(connect_verdict(true, Ok(vec![])), Ok(()));
    assert_eq!(connect_verdict(false, Err("x".into())), Ok(()));
    assert_eq!(
        connect_verdict(true, Err("x".into())),
        Err(ConnectFail::QueueRefused("x".to_string()))
    );
}

#[test]
fn flow_filters_of_a_wide_bus_follow_the_standing_ones() {
    let a = Addressing::Can29 { tester: 0xF1 };
    let pairs = flow_pairs(a, &[0x18DAF110]);
    assert_eq!(
        flow_filters(a, &pairs),
        vec![can_filter(9, true, FilterType::Flow, true, 0x18DAF110, 0x1FFF_FFFF, 0x18DA10F1)]
    );
    let many: Vec<u32> = (0..20).map(|n| 0x18DAF100 + n).collect();
    let filters = flow_filters(a, &flow_pairs(a, &many));
    assert_eq!(filters.len(), 20);
    assert_eq!(filters[17][3], 26);
    assert_eq!(filters[19][3], 27, "the last slot is shared");
    assert_eq!(park_filter(), can_filter(8, false, FilterType::Pass, false, 0, 0, 0));
}

fn tiers() -> TierPeriods {
    TierPeriods {
        fast_ms: 40,
        medium_ms: 200,
        slow_ms: 1000,
    }
}

#[test]
fn facts_are_completed_by_the_host() {
    let facts = AdapterFacts::unknown(LinkKind::Dvi, tiers());
    let host = HostFacts {
        kind: LinkKind::Dvi,
        periodic_capable: true,
        max_chunk: 3,
        tier_periods: TierPeriods {
            fast_ms: 10,
            ..tiers()
        },
    };
    let f = dvi_facts(facts, host);
    assert!(f.concurrent_rx && f.periodic_capable);
    assert_eq!(f.max_chunk, 3);
    assert_eq!(f.tier_periods.fast_ms, 10);

    let found = (Addressing::Can29 { tester: 0xF1 }, Some(Controller::new(0x10)));
    let learned = learn_addressing(f, found);
    assert_eq!(learned.addressing, found.0);
    assert_eq!(learned.primary_ecu, found.1);
    let kept = learn_addressing(learned, (Addressing::Can11, None));
    assert_eq!(kept.addressing, Addressing::Can11);
    assert_eq!(kept.primary_ecu, found.1, "an unknown controller changes nothing");
}

#[test]
fn console_lines_are_bytes() {
    assert_eq!(console_bytes("10 04 00 00 07 DF"), Some(vec![0x10, 4, 0, 0, 7, 0xDF]));
    assert_eq!(console_bytes("0x22 zz"), None, "three digits do not pair up");
    assert_eq!(console_bytes("3-1"), Some(vec![0x31]));
    assert_eq!(console_bytes("?"), None);
    assert_eq!(console_bytes(""), None);
}

#[test]
fn only_the_first_segment_goes_out() {
    let seg = |v: &[&str]| v.iter().map(|s| s.to_string()).collect::<Vec<String>>();
    assert_eq!(encode_segments(&[seg(&["010C", "010D"]), seg(&["0105"])]), "010C0D");
    assert_eq!(encode_segments(&[seg(&["0105"])]), "0105");
    assert_eq!(encode_segments(&[]), "");
}

fn frame(id: u32, data: &[u8]) -> RxFrame {
    RxFrame {
        id,
        ts_us: None,
        data: data.to_vec(),
    }
}

fn with_slot(open: bool) -> DviHandler {
    let mut h = DviHandler::new();
    h.periodic_begin(PeriodicLive {
        decoders: vec![SlotDecoder {
            slot: 0,
            response_id: 0x7E8,
            members: vec![("010C".to_string(), 2), ("010D".to_string(), 1)],
            pids: vec!["010C".to_string(), "010D".to_string()],
        }],
        fast_period_ms: 40,
        open,
    });
    h
}

#[test]
fn a_live_slot_takes_its_frames() {
    let bus = Bus::new(Addressing::Can11);
    let mut h = with_slot(false);
    let f = frame(0x7E8, &[0x06, 0x41, 0x0C, 0x1A, 0xF8, 0x0D, 0x20, 0x00]);
    let (payload, slots) = h.slot_candidates(&f, bus).unwrap();
    assert_eq!(payload.controller, "7E0");
    assert_eq!(payload.bytes, vec![0x41, 0x0C, 0x1A, 0xF8, 0x0D, 0x20]);
    assert_eq!(slots, vec![0]);
    assert!(h.slot_candidates(&frame(0x7E9, &[0x02, 0x41, 0x0C]), bus).is_none());
    assert!(
        h.slot_candidates(&frame(0x7E8, &[0x10, 0x14, 0x41, 0x0C, 0, 0, 0, 0]), bus).is_none(),
        "a first frame is not whole"
    );
    match h.on_rx(f.clone(), bus, Some(0), 5) {
        Act::Slot { id, payload: p, decode } => {
            assert_eq!(id, 0x7E8);
            assert_eq!(p, payload);
            assert!(!decode, "nobody listens yet");
        }
        _ => panic!("the slot has to take it"),
    }
    assert!(h.periodic_arm().is_ok());
    assert!(matches!(h.on_rx(f.clone(), bus, Some(0), 5), Act::Slot { decode: true, .. }));
    h.periodic_break();
    assert!(matches!(h.on_rx(f.clone(), bus, Some(0), 5), Act::Slot { decode: false, .. }));

    let stats = h.periodic_stats().unwrap();
    assert_eq!((stats.members, stats.fast_period_ms), (2, 40));
    h.periodic_abandon();
    assert!(h.periodic_stats().is_none());
    assert!(h.slot_candidates(&f, bus).is_none());
    assert!(matches!(h.on_rx(f, bus, None, 5), Act::Nothing));
}

#[test]
fn a_late_answer_goes_to_its_own_command() {
    let payload = Payload {
        controller: "7E0".into(),
        bytes: vec![0x41, 0x0D, 0x20],
    };
    let parse = |c: &str, p: &Vec<Payload>| Some(format!("{c}/{}", p.len()));
    let (command, reply) = late_reply(
        ("010D".to_string(), payload.clone(), "7E8 03 41 0D 20".to_string()),
        &parse,
    );
    assert_eq!(command, "010D");
    assert_eq!(reply.raw, "7E8 03 41 0D 20");
    assert_eq!(reply.segments.len(), 1);
    assert!(reply.segments[0].is_data());
    assert_eq!(reply.segments[0].payloads, vec![payload]);
    assert_eq!(reply.segments[0].parsed.as_deref(), Some("010D/1"));

    let mut h = DviHandler::new();
    h.encode("ATSH7E0", Addressing::Can11, 0);
    assert!(matches!(h.encode("010C", Addressing::Can11, 0), Encoded::Send { .. }));
    let bus = Bus::new(Addressing::Can11);
    match h.on_rx(frame(0x7E8, &[0x03, 0x41, 0x0D, 0x20, 0, 0, 0, 0]), bus, None, 9) {
        Act::Lagged(Some((c, p, _))) => {
            assert_eq!(c, "010D");
            assert_eq!(p.bytes, vec![0x41, 0x0D, 0x20]);
        }
        _ => panic!("the answer names another command"),
    }
}

#[test]
fn a_tapped_frame_carries_its_own_time() {
    let mut f = frame(0x7E8, &[0x03, 0x41, 0x0D, 0x20]);
    let plain = tap_frame(&f, 99);
    assert_eq!(plain.id, "7E8");
    assert!(!plain.extended);
    assert_eq!(plain.ts_us, 99);
    assert_eq!(plain.raw, "7E8 03 41 0D 20");
    f.ts_us = Some(1_000_042);
    let stamped = tap_frame(&f, 99);
    assert_eq!(stamped.ts_us, 1_000_042);
    assert_eq!(stamped.raw, "1.000042 7E8 03 41 0D 20");
    f.id = 0x18DAF110;
    let wide = tap_frame(&f, 99);
    assert_eq!(wide.id, "18DAF110");
    assert!(wide.extended);
}

#[test]
fn a_new_connection_forgets_the_old_one() {
    let mut h = DviHandler::new();
    h.encode("ATSH7E0", Addressing::Can11, 0);
    assert_eq!(h.target, Some((0x7E0, false)));
    h.begin_probe();
    assert_eq!(h.target, None);
    h.encode("ATSH7E1", Addressing::Can11, 0);
    h.add_flow_pairs(vec![(0x7E8, 0x7E0)]);
    h.add_flow_pairs(vec![(0x7E9, 0x7E1)]);
    assert_eq!(h.flow_pairs, vec![(0x7E8, 0x7E0), (0x7E9, 0x7E1)]);
    h.begin_capture(vec![(16, false)], true);
    h.reset_for_connect();
    assert_eq!(h.target, None);
    assert!(h.flow_pairs.is_empty() && h.capture_slots.is_empty());
    assert!(!h.listen_only && !h.pass_all_disabled);
}

#[test]
fn the_first_slot_that_slices_has_the_frame() {
    let bus = Bus::new(Addressing::Can11);
    let slot = |n: u8, id: u32, pid: &str| SlotDecoder {
        slot: n,
        response_id: id,
        members: vec![(pid.to_string(), 1)],
        pids: vec![pid.to_string()],
    };
    let mut h = DviHandler::new();
    let f = frame(0x7E8, &[0x03, 0x41, 0x0D, 0x20]);
    let all = |_: &Vec<(String, u8)>, _: &Payload| true;
    assert_eq!(h.slot_for(&f, bus, &all), None, "nothing is live");
    h.periodic_begin(PeriodicLive {
        decoders: vec![
            slot(0, 0x7E9, "010D"),
            slot(1, 0x7E8, "010C"),
            slot(2, 0x7E8, "010D"),
            slot(3, 0x7E8, "010D"),
        ],
        fast_period_ms: 40,
        open: true,
    });
    let named = |m: &Vec<(String, u8)>, p: &Payload| {
        m[0].0 == format!("01{:02X}", p.bytes[1])
    };
    assert_eq!(h.slot_for(&f, bus, &named), Some(2));
    assert_eq!(h.slot_for(&f, bus, &all), Some(1));
    let none = |_: &Vec<(String, u8)>, _: &Payload| false;
    assert_eq!(h.slot_for(&f, bus, &none), None);
    let first = frame(0x7E8, &[0x10, 0x14, 0x41, 0x0C, 0, 0, 0, 0]);
    assert_eq!(h.slot_for(&first, bus, &all), None, "a first frame is not whole");
    assert_eq!(h.slot_for(&frame(0x7EA, &[0x02, 0x41, 0x0D]), bus, &all), None);
}
