//! The text adapter: wire texts, replies and the connect sequence.
use obd_session_rs::addressing::{Addressing, Bus, Controller};
use obd_session_rs::link::dvi::codec::RxFrame;
use obd_session_rs::link::dvi::framing::frame_payloads;
use obd_session_rs::link::elm::{
    decode_wire, detect_addressing, encode_wire, exchange_text, join_chunk_wire,
    parse_monitor_line, run_outcome, split_pipe_segments, ConnectAction, ConnectEvent, ElmConnect,
    RUN_TIMEOUT_MS,
};
use obd_session_rs::link::{AddressingFail, ConnectFail, LinkEvent, LinkStatus, Payload};

#[test]
fn encode_is_bare_pid_for_single_member() {
    assert_eq!(encode_wire(&[vec!["010C".into()]]), "010C");
}

#[test]
fn encode_joins_chunks_and_pipes() {
    assert_eq!(
        encode_wire(&[vec!["010C".into(), "010D".into()], vec!["0105".into()]]),
        "010C0D|0105"
    );
    assert_eq!(
        join_chunk_wire(&["222222".into(), "222223".into()]),
        "2222222223"
    );
}

#[test]
fn monitor_line_parse_table() {
    let b11 = Bus::new(Addressing::Can11);
    let b29 = Bus::new(Addressing::Can29 { tester: 0xF1 });
    let frame = |ev: Option<LinkEvent>| match ev {
        Some(LinkEvent::Frame(f)) => f,
        other => panic!("{other:?}"),
    };
    let f = frame(parse_monitor_line("6A0 00 0B 4A 4F", b11, 5));
    assert_eq!(
        (f.id.as_str(), f.extended, f.data.as_slice(), f.raw.as_str()),
        (
            "6A0",
            false,
            &[0x00, 0x0B, 0x4A, 0x4F][..],
            "6A0 00 0B 4A 4F"
        )
    );
    let f = frame(parse_monitor_line(">6A0 04 11 22 33 44", b11, 5));
    assert_eq!(
        (f.id.as_str(), f.raw.as_str()),
        ("6A0", "6A0 04 11 22 33 44")
    );
    let f = frame(parse_monitor_line("18 DA F1 10 06 41 00 BF FE B9 93", b29, 5));
    assert_eq!(
        (f.id.as_str(), f.extended, f.data.len(), f.raw.as_str()),
        ("18DAF110", true, 7, "18 DA F1 10 06 41 00 BF FE B9 93")
    );
    assert_eq!(
        frame(parse_monitor_line("18DAF110 06 41 00 BF FE B9 93", b11, 5)).id,
        "18DAF110"
    );
    assert_eq!(parse_monitor_line("STOPPED", b11, 5), Some(LinkEvent::Stopped));
    assert_eq!(
        parse_monitor_line(">stopped", b11, 5),
        Some(LinkEvent::Stopped)
    );
    assert_eq!(
        parse_monitor_line("OK", b11, 5),
        Some(LinkEvent::Text("OK".into()))
    );
    assert_eq!(
        parse_monitor_line("BUFFER FULL", b11, 5),
        Some(LinkEvent::Text("BUFFER FULL".into()))
    );
    assert_eq!(
        parse_monitor_line("SEARCHING...", b11, 5),
        Some(LinkEvent::Text("SEARCHING...".into()))
    );
    assert_eq!(
        parse_monitor_line("7E8", b11, 5),
        Some(LinkEvent::Text("7E8".into()))
    );
    assert_eq!(
        parse_monitor_line("7E8 0G", b11, 5),
        Some(LinkEvent::Text("7E8 0G".into()))
    );
    assert_eq!(parse_monitor_line("", b11, 5), None);
    assert_eq!(parse_monitor_line(">", b11, 5), None);
    assert_eq!(parse_monitor_line("   ", b11, 5), None);
}

/// Cuts the members of a chunked reply line by their lengths: which member, of
/// which controller, with which data.
fn split_members<'a>(
    members: &'a [(String, u8)],
    raw: &str,
    bus: Bus,
) -> Option<Vec<(&'a str, String, Vec<u8>)>> {
    let tokens: Vec<&str> = raw.split_whitespace().collect();
    let (controller, used) = bus.read(&tokens)?;
    let data: Option<Vec<u8>> = tokens[used..]
        .iter()
        .map(|t| u8::from_str_radix(t, 16).ok())
        .collect();
    let frame = RxFrame {
        id: u32::from_str_radix(&tokens[..used].concat(), 16).ok()?,
        ts_us: None,
        data: data?,
    };
    let payload = frame_payloads(&[frame], bus).remove(0).payload;
    assert_eq!(payload.controller, controller.key());
    let mut at = 1;
    let mut out = Vec::new();
    for (pid, len) in members {
        let id = u8::from_str_radix(&pid[2..], 16).ok()?;
        if payload.bytes.get(at) != Some(&id) {
            return None;
        }
        let end = at + 1 + *len as usize;
        out.push((pid.as_str(), payload.controller.clone(), payload.bytes.get(at + 1..end)?.to_vec()));
        at = end;
    }
    Some(out)
}

#[test]
fn sp_29bit_frame_raw_reframes_through_splitter() {
    let b29 = Bus::new(Addressing::Can29 { tester: 0xF1 });
    let Some(LinkEvent::Frame(f)) = parse_monitor_line("18 DA F1 10 06 41 0C 1A F8 0D 45", b29, 5)
    else {
        panic!()
    };
    assert_eq!(f.id, "18DAF110");
    let members = vec![("010C".to_string(), 2u8), ("010D".to_string(), 1u8)];
    let parsed = split_members(&members, &f.raw, b29).expect("splits");
    assert_eq!(parsed[0], ("010C", "10".to_string(), vec![0x1A, 0xF8]));
    assert_eq!(parsed[1], ("010D", "10".to_string(), vec![0x45]));
}

#[test]
fn split_is_positional_and_trims() {
    assert_eq!(
        split_pipe_segments("7E8 04 41 0C 3F F3 \r\r|7E8 03 41 0D 73"),
        vec!["7E8 04 41 0C 3F F3", "7E8 03 41 0D 73"]
    );
}

fn ok(s: &str) -> Option<Result<String, String>> {
    Some(Ok(s.to_string()))
}

#[test]
fn a_handshake_probes_batched_commands() {
    let (mut c, first) = ElmConnect::start(vec!["ATZ".into(), "ATE0".into()], true);
    assert_eq!(first, ConnectAction::Queue(0));
    assert_eq!(c.step(ConnectEvent::Queued(true)), ConnectAction::Queue(1));
    assert_eq!(c.step(ConnectEvent::Queued(true)), ConnectAction::Drain { seconds: 20 });
    let drained = ConnectEvent::Drained {
        idle: true,
        echo: ok("?"),
    };
    assert_eq!(c.step(drained), ConnectAction::Run("ATE0"));
    assert_eq!(c.step(ConnectEvent::Ran(ok("OK"))), ConnectAction::Run("STPPMC"));
    assert_eq!(c.step(ConnectEvent::Ran(ok("?"))), ConnectAction::Run("STBC 1"));
    assert_eq!(c.step(ConnectEvent::Ran(ok("ok"))), ConnectAction::Run("STBCOF 0"));
    assert_eq!(
        c.step(ConnectEvent::Ran(ok("OK"))),
        ConnectAction::Done { pipe_capable: true }
    );
    assert_eq!(RUN_TIMEOUT_MS, 5000);
}

#[test]
fn a_handshake_can_fail() {
    let (_, first) = ElmConnect::start(vec![], true);
    assert_eq!(first, ConnectAction::Done { pipe_capable: false });

    let (mut c, _) = ElmConnect::start(vec!["ATZ".into()], true);
    assert_eq!(
        c.step(ConnectEvent::Queued(false)),
        ConnectAction::Fail(ConnectFail::QueueRefused("ATZ".into()))
    );

    let (mut c, _) = ElmConnect::start(vec!["ATZ".into()], true);
    c.step(ConnectEvent::Queued(true));
    assert_eq!(
        c.step(ConnectEvent::Drained {
            idle: false,
            echo: None
        }),
        ConnectAction::Fail(ConnectFail::InitTimeout)
    );

    let (mut c, _) = ElmConnect::start(vec!["ATE0".into()], false);
    c.step(ConnectEvent::Queued(true));
    assert_eq!(
        c.step(ConnectEvent::Drained {
            idle: true,
            echo: ok("OK")
        }),
        ConnectAction::Run("STPPMC")
    );
    assert_eq!(
        c.step(ConnectEvent::Ran(None)),
        ConnectAction::Done {
            pipe_capable: false
        }
    );
}

#[test]
fn a_run_that_leaves_nothing_timed_out() {
    assert_eq!(run_outcome(false, None, true), None);
    assert_eq!(run_outcome(true, None, false), None);
    assert_eq!(run_outcome(true, None, true), Some(Err("TIMEOUT".to_string())));
    assert_eq!(run_outcome(true, ok("OK"), false), ok("OK"));
    assert_eq!(exchange_text(ok("OK")), Some("OK".to_string()));
    assert_eq!(exchange_text(Some(Err("X".into()))), None);
}

#[test]
fn addressing_is_negotiated() {
    assert_eq!(
        detect_addressing(Some("SEARCHING...\r7E8 06 41 00 BE 3F A8 13"), None),
        Ok((Addressing::Can11, Some(Controller::new(0x7E0))))
    );
    assert_eq!(
        detect_addressing(Some("18 DA F1 10 06 41 00 BF FE B9 93"), None),
        Ok((Addressing::Can29 { tester: 0xF1 }, Some(Controller::new(0x10))))
    );
    assert_eq!(
        detect_addressing(Some("41 00 BE 3F A8 13"), Some("6")),
        Ok((Addressing::Can11, None))
    );
    assert_eq!(
        detect_addressing(Some("NO DATA"), None),
        Err(AddressingFail::NoResponse)
    );
    assert_eq!(
        detect_addressing(Some("48 6B 10 41 00"), Some("3")),
        Err(AddressingFail::NonCan)
    );
}

#[test]
fn piped_replies_are_paired_by_position() {
    let bus = Bus::new(Addressing::Can11);
    let frame = |wire: &str, text: &str, _: Bus| {
        (
            vec![Payload {
                controller: "7E0".into(),
                bytes: vec![],
            }],
            Some(format!("{wire}={text}")),
        )
    };
    let r = decode_wire("010C|010D", "7E8 04 41 0C 1A F8\r\r|NO DATA", bus, &frame);
    assert_eq!(r.segments.len(), 2);
    assert_eq!(r.segments[0].status, LinkStatus::Data);
    assert_eq!(r.segments[0].parsed.as_deref(), Some("010C=7E8 04 41 0C 1A F8"));
    assert!(!r.segments[0].faulted);
    assert_eq!(r.segments[1].status, LinkStatus::NoData);
    assert!(r.segments[1].faulted);
    let r = decode_wire("010C", "7E8 04 41 0C 1A F8", bus, &frame);
    assert_eq!(r.segments.len(), 1);
    assert_eq!(r.raw, "7E8 04 41 0C 1A F8");
}

#[test]
fn pipes_are_mirrored() {
    let wire = encode_wire(&[vec!["010C".into()], vec!["0105".into(), "010D".into()]]);
    assert_eq!(split_pipe_segments(&wire), vec!["010C", "01050D"]);
}

#[test]
fn a_short_id_is_no_frame_of_a_29bit_bus() {
    let b29 = Bus::new(Addressing::Can29 { tester: 0xF1 });
    assert_eq!(
        parse_monitor_line("7E8 03 41 0D 45", b29, 5),
        Some(LinkEvent::Text("7E8 03 41 0D 45".into()))
    );
    assert!(matches!(
        parse_monitor_line("18DAF110 03 41 0D 45", b29, 5),
        Some(LinkEvent::Frame(_))
    ));
}

#[test]
fn split_segments_join_to_what_they_were() {
    for blob in ["", "|", " a |b\r\n| |c", "7E8 04 41 0C\r\r|7E8 03 41 0D 73", "||"] {
        let segments = split_pipe_segments(blob);
        assert_eq!(segments.len(), blob.matches('|').count() + 1);
        assert_eq!(split_pipe_segments(&segments.join("|")), segments, "{blob}");
    }
    assert_eq!(split_pipe_segments(" a |b\r\n| |c"), vec!["a", "b", "", "c"]);
}
