//! Replies of the binary adapter: framing, matching, collecting.
use obd_session_rs::addressing::{Addressing, Bus, Controller};
use obd_session_rs::link::dvi::codec::{
    can_filter, periodic_data, periodic_enable, periodic_interval, set_comm, set_timestamps,
    tx_can, Comm, DviFrame, FilterType, RxFrame,
};
use obd_session_rs::link::dvi::framing::{
    command_for_reply, command_pid_set, expected_echo, frame_payloads, frame_response_bytes,
    is_obd_responder, render_frame, reply_complete, response_id,
};
use obd_session_rs::link::dvi::handler::{
    ack_reply, Act, Collect, DviHandler, Encoded as DviEncoded, Route, FUNCTIONAL_11,
    FUNCTIONAL_QUIET_US, NO_DATA_TIMEOUT_US, RESYNC_INTERVAL_US,
};
use obd_session_rs::link::dvi::periodic::{first_split, freshest, PeriodicLoader};
use obd_session_rs::link::dvi::setup::{
    accepted_slots, already_binary, capture_requests, connect_steps, flow_pairs, obd_pass_filter,
    setup_verdict, DviSearch, SearchAction, SetupVerdict,
};
use obd_session_rs::link::{
    AddressingFail, CaptureFilter, LinkStatus, Payload, PeriodicMessage, PeriodicPlan,
};
use obd_session_rs::table::Table;

#[test]
fn command_pid_set_parses_mode01_and_mode22_wires() {
    let set = |v: &[&str]| {
        v.iter()
            .map(|s| s.to_string())
            .collect::<std::collections::BTreeSet<_>>()
    };
    let pids = |c: &str| {
        command_pid_set(c)
            .into_iter()
            .collect::<std::collections::BTreeSet<_>>()
    };
    assert_eq!(pids("010C0D"), set(&["010C", "010D"]));
    assert_eq!(pids("0105"), set(&["0105"]));
    assert_eq!(pids("22F190F191"), set(&["22F190", "22F191"]));
    assert!(command_pid_set("ATSH7E0").is_empty());
    assert!(command_pid_set("010C0").is_empty());
}

#[test]
fn frames_become_payloads() {
    let b11 = Bus::new(Addressing::Can11);
    let b29 = Bus::new(Addressing::Can29 { tester: 0xF1 });
    let sf = RxFrame {
        id: 0x7E8,
        ts_us: None,
        data: vec![0x04, 0x41, 0x0C, 0x1A, 0xF8, 0x00, 0x00, 0x00],
    };
    let p = frame_payloads(&[sf.clone()], b11);
    assert_eq!(p.len(), 1);
    assert_eq!(
        p[0].payload,
        Payload {
            controller: "7E0".into(),
            bytes: vec![0x41, 0x0C, 0x1A, 0xF8]
        }
    );
    assert!(p[0].done);
    assert_eq!(render_frame(&sf), "7E8 04 41 0C 1A F8 00 00 00");

    let f29 = RxFrame {
        id: 0x18DAF110,
        ts_us: None,
        data: vec![0x06, 0x41, 0x00, 0xBF, 0xFE, 0xB9, 0x93],
    };
    let p = frame_payloads(&[f29.clone()], b29);
    assert_eq!(
        p[0].payload,
        Payload {
            controller: "10".into(),
            bytes: vec![0x41, 0x00, 0xBF, 0xFE, 0xB9, 0x93]
        }
    );
    assert_eq!(render_frame(&f29), "18 DA F1 10 06 41 00 BF FE B9 93");

    let ff = RxFrame {
        id: 0x7E8,
        ts_us: None,
        data: vec![0x10, 0x14, 0x49, 0x02, 0x01, b'1', b'C', b'4'],
    };
    let cf1 = RxFrame {
        id: 0x7E8,
        ts_us: None,
        data: vec![0x21, b'M', b'O', b'C', b'K', b'2', b'9', b'S'],
    };
    let cf2 = RxFrame {
        id: 0x7E8,
        ts_us: None,
        data: vec![0x22, b'B', b'I', b'T', b'0', b'0', b'0', b'1'],
    };
    assert!(!reply_complete(&[ff.clone(), cf1.clone()], 0x7E8, b11));
    let p = frame_payloads(&[ff, cf1, cf2], b11);
    assert_eq!(p.len(), 1);
    assert!(p[0].done);
    let mut want = vec![0x49, 0x02, 0x01];
    want.extend_from_slice(b"1C4MOCK29SBIT0001");
    assert_eq!(p[0].payload.bytes, want);

    let mut d = vec![0x10, 0x14, 0x49, 0x02, 0x01];
    d.extend_from_slice(b"1C4MOCK29SBIT0001");
    let p = frame_payloads(
        &[RxFrame {
            id: 0x7E8,
            ts_us: None,
            data: d,
        }],
        b11,
    );
    assert!(p[0].done);
    assert_eq!(p[0].payload.bytes, want);

    assert!(is_obd_responder(0x7E8) && is_obd_responder(0x7EF) && is_obd_responder(0x18DAF110));
    assert!(
        !is_obd_responder(0x7E0) && !is_obd_responder(0x0A8) && !is_obd_responder(0x18DB33F1)
    );

    let a = RxFrame {
        id: 0x7E8,
        ts_us: None,
        data: vec![0x06, 0x41, 0x00, 0xBE, 0x1B, 0x30, 0x13],
    };
    let b = RxFrame {
        id: 0x7E9,
        ts_us: None,
        data: vec![0x06, 0x41, 0x00, 0x80, 0x00, 0x00, 0x00],
    };
    let p = frame_payloads(&[a, b], b11);
    assert_eq!(
        p.iter()
            .map(|a| a.payload.controller.as_str())
            .collect::<Vec<_>>(),
        vec!["7E0", "7E1"]
    );
}

#[test]
fn echo_guard_pins_reply_to_its_pid() {
    assert_eq!(expected_echo("22F40C"), Some(vec![0x62, 0xF4, 0x0C]));
    assert_eq!(expected_echo("010C"), Some(vec![0x41, 0x0C]));
    assert_eq!(expected_echo("010C0D"), None);
    assert_eq!(expected_echo("010C|010D"), None);
    assert_eq!(expected_echo("ATSH7E0"), None);
    assert_eq!(
        frame_response_bytes(&[0x05, 0x62, 0xF4, 0x0C, 0x0B, 0xEC]),
        &[0x62, 0xF4, 0x0C, 0x0B, 0xEC]
    );
    assert_eq!(
        frame_response_bytes(&[0x10, 0x09, 0x62, 0xF4, 0x0C]),
        &[0x62, 0xF4, 0x0C]
    );
    let is_lagged = |cmd: &str, data: &[u8]| {
        expected_echo(cmd).map_or(false, |e| {
            let r = frame_response_bytes(data);
            r.first().map_or(false, |&b| b & 0x40 != 0 && b != 0x7F) && !r.starts_with(&e)
        })
    };
    assert!(
        is_lagged("22F410", &[0x05, 0x62, 0xF4, 0x0C, 0x0B, 0xEC]),
        "62 F40C is not F410's reply"
    );
    assert!(
        is_lagged("010C", &[0x05, 0x62, 0xF4, 0x0C, 0x0B, 0xEC]),
        "cross-family: 62 F40C is not 010C's reply"
    );
    assert!(
        !is_lagged("22F40C", &[0x05, 0x62, 0xF4, 0x0C, 0x0B, 0xEC]),
        "62 F40C IS F40C's reply"
    );
    assert!(
        !is_lagged("22F40C", &[0x03, 0x7F, 0x22, 0x31]),
        "7F negative is accepted (no DID)"
    );
    assert_eq!(
        command_for_reply(&[0x62, 0xF4, 0x0C, 0x0B, 0xEC]),
        Some("22F40C".to_string())
    );
    assert_eq!(
        command_for_reply(&[0x41, 0x0C, 0x0B, 0xEC]),
        Some("010C".to_string())
    );
    assert_eq!(
        command_for_reply(&[0x7F, 0x22, 0x31]),
        None,
        "negatives are not re-attributable"
    );
}

#[test]
fn response_ids() {
    assert_eq!(response_id(0x7E0, false), 0x7E8);
    assert_eq!(response_id(0x18DA10F1, true), 0x18DAF110);
    assert_eq!(response_id(0x720, false), 0x728);
    assert_eq!(response_id(0x730, false), 0x738);
    assert_eq!(response_id(0x760, false), 0x768);
    assert_eq!(response_id(0x727, false), 0x72F);
}

fn rx(id: u32, data: &[u8]) -> RxFrame {
    RxFrame {
        id,
        ts_us: None,
        data: data.to_vec(),
    }
}

fn parse(_: &str, p: &Vec<Payload>) -> Option<usize> {
    Some(p.len())
}

#[test]
fn a_request_completes_on_its_own_echo() {
    let bus = Bus::new(Addressing::Can11);
    let mut h = DviHandler::new();
    let e = h.encode("ATSH7E0", Addressing::Can11, 0);
    assert!(matches!(e, DviEncoded::Retarget { filter: Some(_) }));
    h.flow_filter_installed(0x7E0, false);
    let e = h.encode("22F410", Addressing::Can11, 10);
    let DviEncoded::Send { generation, bytes } = e else {
        panic!("{e:?}")
    };
    assert_eq!(bytes, tx_can(0x7E0, false, &[0x22, 0xF4, 0x10]));

    let late = h.on_rx(rx(0x7E8, &[0x05, 0x62, 0xF4, 0x0C, 0x0B, 0xEC]), bus, None, 20);
    let Act::Lagged(Some((command, payload, raw))) = late else {
        panic!("{late:?}")
    };
    assert_eq!(command, "22F40C");
    assert_eq!(payload.bytes, vec![0x62, 0xF4, 0x0C, 0x0B, 0xEC]);
    assert_eq!(raw, "7E8 05 62 F4 0C 0B EC");

    assert_eq!(h.on_rx(rx(0x7E9, &[0x03, 0x41, 0x0D, 0x00]), bus, None, 21), Act::Nothing);
    assert_eq!(
        h.on_rx(rx(0x7E8, &[0x04, 0x62, 0xF4, 0x10, 0x07]), bus, None, 22),
        Act::Complete(generation)
    );
    let (command, outcome) = h.finish(generation, None, bus, &parse).unwrap();
    assert_eq!(command, "22F410");
    let reply = outcome.unwrap();
    assert_eq!(reply.raw, "7E8 04 62 F4 10 07");
    assert_eq!(reply.segments[0].parsed, Some(1));
    assert!(h.finish(generation, None, bus, &parse).is_none());
}

#[test]
fn a_request_without_an_answer_expires() {
    let bus = Bus::new(Addressing::Can11);
    let mut h = DviHandler::new();
    let e = h.encode("0100", Addressing::Can11, 1_000);
    let DviEncoded::Send { generation, bytes } = e else {
        panic!("{e:?}")
    };
    assert_eq!(bytes, tx_can(FUNCTIONAL_11, false, &[0x01, 0x00]));
    assert_eq!(
        h.collector_step(generation, 1_000),
        Collect::Wait {
            us: NO_DATA_TIMEOUT_US
        }
    );
    assert_eq!(
        h.collector_step(generation, 1_000 + NO_DATA_TIMEOUT_US),
        Collect::Expired { resync: false }
    );
    assert_eq!(h.collector_step(generation + 1, 0), Collect::Gone);
    let (_, outcome) = h.finish(generation, None, bus, &parse).unwrap();
    let reply = outcome.unwrap();
    assert_eq!(reply.raw, "NO DATA");
    assert_eq!(reply.segments[0].status, LinkStatus::NoData);
    assert_eq!(h.collector_step(generation, 0), Collect::Gone);
}

#[test]
fn a_functional_request_waits_for_quiet() {
    let bus = Bus::new(Addressing::Can11);
    let mut h = DviHandler::new();
    let e = h.encode("0100", Addressing::Can11, 0);
    let DviEncoded::Send { generation, .. } = e else {
        panic!("{e:?}")
    };
    h.on_rx(rx(0x7E8, &[0x06, 0x41, 0x00, 0xBE, 0x1B, 0x30, 0x13]), bus, None, 5_000);
    assert_eq!(
        h.collector_step(generation, 5_000),
        Collect::Wait {
            us: FUNCTIONAL_QUIET_US
        }
    );
    assert_eq!(
        h.collector_step(generation, 5_000 + FUNCTIONAL_QUIET_US),
        Collect::Expired { resync: false }
    );
}

#[test]
fn commands_without_a_counterpart_are_acknowledged() {
    let mut h = DviHandler::new();
    for c in ["ATE0", "STPPMC", "DXDP1", "ATZ", "010"] {
        assert_eq!(h.encode(c, Addressing::Can11, 0), DviEncoded::Ack, "{c}");
    }
    assert_eq!(
        h.encode("ATSH7DF", Addressing::Can11, 0),
        DviEncoded::Retarget { filter: None }
    );
    assert_eq!(
        h.encode("ATSH XYZ", Addressing::Can11, 0),
        DviEncoded::Refused("bad ATSH header XYZ".into())
    );
    assert_eq!(ack_reply::<u8>().raw, "OK");
}

#[test]
fn the_tools_errors_are_told_apart() {
    let mut h = DviHandler::new();
    assert_eq!(
        h.on_frame(DviFrame::Error { cmd: 0x10, code: 5 }),
        Route::Ignored
    );
    let e = h.encode("0100", Addressing::Can11, 0);
    let DviEncoded::Send { generation, .. } = e else {
        panic!("{e:?}")
    };
    assert_eq!(
        h.on_frame(DviFrame::Error { cmd: 0x10, code: 2 }),
        Route::TxFailed {
            generation,
            code: "DVI_ERROR RecvTooLong".into()
        }
    );
    for _ in 0..3 {
        assert_eq!(
            h.on_frame(DviFrame::Error { cmd: 0x55, code: 1 }),
            Route::Counted
        );
    }
    assert_eq!(
        h.collector_step(generation, 1_000_000),
        Collect::Expired { resync: true }
    );
    assert!(h.resync_due(0));
    assert!(!h.resync_due(RESYNC_INTERVAL_US - 1));
    assert!(h.resync_due(RESYNC_INTERVAL_US));
    assert_eq!(
        h.on_frame(DviFrame::Reply {
            cmd: 0x20,
            data: vec![0]
        }),
        Route::TxAcked
    );
    let (_, outcome) = h
        .finish(generation, Some("DVI_ERROR x".into()), Bus::new(Addressing::Can11), &parse)
        .unwrap();
    assert_eq!(outcome.unwrap_err(), "DVI_ERROR x");
}

#[test]
fn the_search_tries_both_addressings_and_rates() {
    let (mut s, first) = DviSearch::start();
    let SearchAction::Probe { addressing, switch_baud, .. } = first else {
        panic!("{first:?}")
    };
    assert_eq!((addressing, switch_baud), (Addressing::Can11, false));
    let a = s.step(Some(LinkStatus::NoData), None, false);
    assert!(matches!(
        a,
        SearchAction::Probe { addressing: Addressing::Can29 { tester: 0xF1 }, switch_baud: false, .. }
    ));
    let a = s.step(Some(LinkStatus::Data), Some(0x18DAF110), false);
    assert_eq!(
        a,
        SearchAction::Found {
            addressing: Addressing::Can29 { tester: 0xF1 },
            primary: Some(Controller::new(0x10)),
        }
    );

    let (mut s, _) = DviSearch::start();
    let mut action = s.step(Some(LinkStatus::NoData), None, true);
    let mut probes = 1;
    while matches!(action, SearchAction::Probe { .. }) {
        probes += 1;
        assert!(probes < 10);
        action = s.step(Some(LinkStatus::NoData), None, true);
    }
    assert_eq!(probes, 4);
    assert_eq!(
        action,
        SearchAction::Failed {
            restore_baud: true,
            fail: AddressingFail::NoResponse
        }
    );
}

#[test]
fn setup_replies_are_matched() {
    let done = |f: DviFrame| setup_verdict(f, 0x41, 0x31);
    assert_eq!(
        done(DviFrame::Reply {
            cmd: 0x41,
            data: vec![1]
        }),
        SetupVerdict::Done(vec![1])
    );
    assert_eq!(
        done(DviFrame::Reply {
            cmd: 0x44,
            data: vec![1]
        }),
        SetupVerdict::KeepWaiting
    );
    assert!(matches!(
        done(DviFrame::Error { cmd: 0x31, code: 1 }),
        SetupVerdict::Failed(_)
    ));
    assert!(connect_steps().iter().all(|s| !s.bytes.is_empty()));
    assert!(already_binary(&Ok(vec![0x06, 0x01])));
    assert!(!already_binary(&Ok(vec![0x06])));
    assert!(!already_binary(&Err("x".into())));
}

#[test]
fn responders_are_paired_once() {
    let pairs = flow_pairs(Addressing::Can29 { tester: 0xF1 }, &[0x18DAF110, 0x18DAF110, 0x18DAF128]);
    assert_eq!(pairs, vec![(0x18DAF110, 0x18DA10F1), (0x18DAF128, 0x18DA28F1)]);
    let pairs = flow_pairs(Addressing::Can11, &[]);
    assert_eq!(pairs.len(), 8);
    assert_eq!(pairs[0], (0x7E8, 0x7E0));
}

fn plan(pids: &[&str]) -> PeriodicPlan {
    let mut lengths = Table::new();
    lengths.insert("010C".to_string(), 2);
    PeriodicPlan {
        messages: pids
            .iter()
            .map(|p| PeriodicMessage {
                header: "7E0".into(),
                data: p.to_string(),
                period_ms: 40,
                pids: vec![p.to_string()],
            })
            .collect(),
        lengths,
    }
}

#[test]
fn slots_are_loaded_padded_and_enabled() {
    let mut l = PeriodicLoader::new(plan(&["010C", "not hex", "010D"]));
    let a = l.advance().unwrap();
    assert_eq!(a.slot, 0);
    assert_eq!(a.interval, periodic_interval(0, 40));
    assert_eq!(a.data, periodic_data(0, 0x7E0, &[0x02, 0x01, 0x0C, 0, 0, 0, 0, 0]));
    l.settle(false);
    let b = l.advance().unwrap();
    assert_eq!(b.slot, 0, "a refused slot is used again");
    l.settle(true);
    assert!(l.advance().is_none());
    let live = match l.into_live() {
        Ok(live) => live,
        Err(e) => panic!("{}", e.message()),
    };
    assert_eq!(live.decoders.len(), 1);
    assert_eq!(live.decoders[0].response_id, 0x7E8);
    assert_eq!(live.decoders[0].members, vec![("010D".to_string(), 1)]);

    let mut h = DviHandler::new();
    assert!(h.periodic_may_start().is_ok());
    let sends = h.periodic_begin(live);
    assert_eq!(sends, vec![periodic_enable(0, true)]);
    let install = match h.periodic_enabled(&vec![true]) {
        Ok(i) => i,
        Err(e) => panic!("{}", e.message()),
    };
    assert_eq!(install.accepted, 1);
    assert_eq!(install.served_pids, vec!["010D"]);
    assert!(h.periodic_arm().is_ok());
    assert!(h.periodic_is_live());
    assert_eq!(h.periodic_teardown(), vec![periodic_enable(0, false)]);
    assert!(!h.periodic_is_live());
}

#[test]
fn the_last_payload_of_an_id_is_kept() {
    let p = |b: u8| Payload {
        controller: "7E0".into(),
        bytes: vec![b],
    };
    let kept = freshest(vec![(0x7E8, p(1)), (0x7E9, p(2)), (0x7E8, p(3))]);
    let kept: Vec<(u32, u8)> = kept.iter().map(|(i, p)| (*i, p.bytes[0])).collect();
    assert!(kept.contains(&(0x7E8, 3)) && kept.contains(&(0x7E9, 2)));
    assert_eq!(kept.len(), 2);
}

#[test]
fn a_capture_is_undone() {
    let filter = |id: u32| CaptureFilter {
        id,
        mask: 0x7FF,
        extended: false,
    };
    let filters: Vec<CaptureFilter> = (0..12).map(|n| filter(0x7E8 + n)).collect();
    let requests = capture_requests(&filters);
    assert_eq!(requests.len(), 10);
    assert_eq!(requests[0].bytes, can_filter(16, false, FilterType::Pass, true, 0x7E8, 0x7FF, 0));
    let mut taken = vec![false; 10];
    taken[1] = true;
    let slots = accepted_slots(&requests, &taken);
    assert_eq!(slots, vec![(17, false)]);

    let mut h = DviHandler::new();
    h.begin_capture(slots, true);
    assert!(h.listen_only && h.pass_all_disabled);
    let steps: Vec<Vec<u8>> = h.end_capture().into_iter().map(|s| s.bytes).collect();
    assert_eq!(
        steps,
        vec![
            set_timestamps(false),
            set_comm(Comm::On),
            can_filter(17, false, FilterType::Pass, false, 0, 0, 0),
            obd_pass_filter(true),
        ]
    );
    assert!(!h.listen_only && !h.pass_all_disabled && h.capture_slots.is_empty());
    assert_eq!(h.end_capture().len(), 1);
}

#[test]
fn a_sign_opens_no_echo() {
    assert_eq!(expected_echo("01+5"), None);
    assert_eq!(expected_echo("22F4+C"), None);
}

#[test]
fn the_first_decoder_that_splits_has_the_reply() {
    let members = |p: &str| vec![(p.to_string(), 1u8)];
    let decoders = vec![
        (0x7E9, members("0104")),
        (0x7E8, members("0105")),
        (0x7E8, members("010C")),
        (0x7E8, members("010D")),
    ];
    let split = |m: &Vec<(String, u8)>| match m[0].0.as_str() {
        "0105" => None,
        p => Some(p.to_string()),
    };
    assert_eq!(first_split(&decoders, 0x7E8, &split), Some("010C".to_string()));
    assert_eq!(first_split(&decoders, 0x7E9, &split), Some("0104".to_string()));
    assert_eq!(first_split(&decoders, 0x7EA, &split), None);
    let never = |_: &Vec<(String, u8)>| -> Option<u8> { None };
    assert_eq!(first_split(&decoders, 0x7E8, &never), None);
}
