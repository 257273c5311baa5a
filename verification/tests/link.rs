//! What adapter lines say.
use obd_session_rs::acquisition::PIPE_MAX_SEGMENTS;
use obd_session_rs::addressing::Addressing;
use obd_session_rs::link::{
    classify_line, classify_text, request, request_raw, telling_text, AdapterFacts, HostFacts,
    LinkKind, LinkReply, LinkStatus, Payload, PeriodicError, ReplyWaiters, TierPeriods, WireReply,
};

#[test]
fn classify_tokens() {
    assert_eq!(classify_text(None), LinkStatus::Timeout);
    assert_eq!(classify_text(Some("")), LinkStatus::NoData);
    assert_eq!(classify_text(Some("SEARCHING...\r")), LinkStatus::NoData);
    assert_eq!(classify_text(Some("NO DATA")), LinkStatus::NoData);
    assert_eq!(
        classify_text(Some("SEARCHING...\rUNABLE TO CONNECT")),
        LinkStatus::AdapterError("UNABLE_TO_CONNECT".into())
    );
    assert_eq!(
        classify_text(Some("CAN ERROR")),
        LinkStatus::AdapterError("CAN_ERROR".into())
    );
    assert_eq!(
        classify_text(Some("ERROR")),
        LinkStatus::AdapterError("ERROR".into())
    );
    assert_eq!(classify_text(Some("STOPPED")), LinkStatus::Stopped);
    assert_eq!(classify_text(Some("OK")), LinkStatus::Chatter);
    assert_eq!(classify_text(Some("?")), LinkStatus::Chatter);
    assert_eq!(classify_text(Some("ELM327 v1.5")), LinkStatus::Chatter);
    assert_eq!(
        classify_text(Some("SEARCHING...\r7E8 06 41 00 BE 3F A8 13")),
        LinkStatus::Data
    );
    assert!(LinkStatus::NoData.is_no_response());
    assert!(!LinkStatus::Data.is_no_response());
}

#[test]
fn classify_line_covers_parser_table() {
    for tok in [
        "OK",
        "?",
        "NO DATA",
        "UNABLE TO CONNECT",
        "CAN ERROR",
        "BUS BUSY",
        "BUS ERROR",
        "DATA ERROR",
        "<DATA ERROR",
        "<RX ERROR",
        "FB ERROR",
        "FC RX TIMEOUT",
        "BUFFER FULL",
        "OUT OF MEMORY",
        "STOPPED",
        "UART RX OVERFLOW",
        "LV RESET",
        "ACT ALERT",
        "LP ALERT",
        "BUS INIT: ...ERROR",
        "ERROR",
        "ELM327 v1.5",
        "STN2120 v4.2.1",
    ] {
        assert!(
            classify_line(tok).is_some(),
            "{tok} must classify as non-data"
        );
    }
    assert!(classify_line("7E8 04 41 0C 1A F8").is_none());
}

fn reply(status: LinkStatus, faulted: bool) -> LinkReply<u8> {
    LinkReply {
        status,
        parsed: Some(7),
        faulted,
        payloads: vec![],
        raw: "r".into(),
    }
}

#[test]
fn errors_never_pass_as_data() {
    for text in ["NO DATA", "CAN ERROR", "STOPPED", "?", ""] {
        let r = reply(classify_text(Some(text)), false);
        assert!(!r.is_data(), "{text}");
    }
    let r = reply(classify_text(Some("7E8 03 41 0D 00")), false);
    assert!(r.is_data() && r.is_clean());
    assert_eq!(r.clean_parsed(), Some(&7));
    assert!(!reply(LinkStatus::Data, true).is_clean());
    assert!(reply(LinkStatus::Data, true).clean_parsed().is_none());
    assert!(!reply(LinkStatus::Timeout, false).answered());
    assert!(reply(LinkStatus::NoData, false).answered());
}

#[test]
fn a_request_gives_its_first_segment() {
    let ex = WireReply {
        raw: "whole".to_string(),
        segments: vec![reply(LinkStatus::Data, false), reply(LinkStatus::NoData, false)],
    };
    assert_eq!(request_raw(Some(ex.clone())), Some("whole".to_string()));
    assert_eq!(request(Some(ex)).status, LinkStatus::Data);
    assert_eq!(request_raw::<u8>(None), None);
    assert_eq!(request::<u8>(None).status, LinkStatus::Timeout);
}

#[test]
fn a_reply_is_made_of_its_parts() {
    let p = Payload {
        controller: "7E0".into(),
        bytes: vec![0x41, 0x0C],
    };
    let r: LinkReply<u8> =
        LinkReply::from_payloads(LinkStatus::Data, false, vec![p.clone()], Some(1), "raw".into());
    assert_eq!(r.status, LinkStatus::Data);
    assert_eq!(r.parsed, Some(1));
    assert_eq!(r.payloads, vec![p]);
    assert_eq!(r.raw, "raw");
    let count = |c: &str, p: &Vec<Payload>| Some((c.len() + p.len()) as u8);
    assert_eq!(r.parsed_for("010D", &count), Some(5));
    assert_eq!(LinkReply::<u8>::timeout().status, LinkStatus::Timeout);
    assert_eq!(LinkReply::<u8>::ack().status, LinkStatus::Chatter);
    assert_eq!(LinkReply::<u8>::ack().raw, "OK");
}

#[test]
fn waiters_are_filled_once() {
    let mut w = ReplyWaiters::new();
    let a = w.arm("010C");
    assert_eq!(w.fill("010C"), Some(a));
    assert_eq!(w.fill("010C"), None);
    w.arm("010D");
    w.disarm("010D");
    assert_eq!(w.fill("010D"), None);
}

#[test]
fn the_telling_line_skips_searching() {
    assert_eq!(telling_text("SEARCHING...\rNO DATA\r"), Some("NO DATA".to_string()));
    assert_eq!(telling_text("SEARCHING...\r"), None);
}

#[test]
fn host_facts_reach_the_adapter_facts() {
    let t = TierPeriods {
        fast_ms: 50,
        medium_ms: 200,
        slow_ms: 1000,
    };
    let unknown = AdapterFacts::unknown(LinkKind::Elm, t);
    assert_eq!(unknown.addressing, Addressing::Can11);
    assert!(!unknown.pipe_capable && unknown.primary_ecu.is_none());
    let mut host = HostFacts::initial(t);
    host.periodic_capable = true;
    host.max_chunk = 3;
    let f = unknown.with_host(host);
    assert!(f.periodic_capable);
    assert_eq!(f.max_chunk, 3);
    assert_eq!(PIPE_MAX_SEGMENTS, 12);
}

#[test]
fn periodic_errors_have_messages() {
    assert_eq!(
        PeriodicError::NoneAccepted.message(),
        "no STPPMA accepted — staying on poll"
    );
    assert_eq!(
        PeriodicError::MonitorFailed("x".into()).message(),
        "monitor mode failed: x"
    );
    assert_eq!(
        PeriodicError::ArmAborted { attempts: 5 }.message(),
        "STM would not hold (aborted 5×)"
    );
    assert_eq!(PeriodicError::NotStarted.message(), "periodic engine not started");
}

#[test]
fn every_error_flavour_is_an_adapter_error() {
    for line in ["ERROR", "FB ERROR", "BUS INIT: ERROR", "BUS INIT: ...ERROR", " LIN ERROR "] {
        assert_eq!(
            classify_line(line),
            Some(LinkStatus::AdapterError("ERROR".into())),
            "{line}"
        );
    }
    assert_eq!(
        classify_line("CAN ERROR"),
        Some(LinkStatus::AdapterError("CAN_ERROR".into()))
    );
    assert_eq!(classify_line("7E8 04 41 0C 1A F8"), None);
}

#[test]
fn a_reply_reaches_the_newest_slot_only() {
    let mut w = ReplyWaiters::new();
    let first = w.arm("010c");
    let other = w.arm("010D");
    let second = w.arm("010C");
    assert!(first < other && other < second);
    assert_eq!(w.fill("010C"), Some(second));
    assert_eq!(w.fill("010c"), None, "the earlier slot is forgotten");
    assert_eq!(w.fill("010d"), Some(other), "other commands are untouched");
    let third = w.arm("010C");
    assert!(second < third, "a ticket is issued once");
}
