//! Bytes become responses, lines and frames.
use obd_session_rs::accumulator::{AccEvent, Mode, ResponseAccumulator};
use obd_session_rs::link::dvi::codec::{frame, DviFrame, RxFrame};

fn b(s: &str) -> &[u8] {
    s.as_bytes()
}

#[test]
fn prompt_delivers_text_before_last_prompt() {
    let mut acc = ResponseAccumulator::new();
    let ev = acc.feed_bytes(b"7E8 04 41 0C 1A F8\r\r>");
    assert_eq!(ev, vec![AccEvent::Response("7E8 04 41 0C 1A F8".into())]);
    assert!(!acc.has_pending());
}

#[test]
fn prompt_split_across_ble_notifications() {
    let mut acc = ResponseAccumulator::new();
    assert!(acc.feed_bytes(b"7E8 04 41").is_empty());
    assert!(acc.feed_bytes(b" 0C 1A F8\r\r").is_empty());
    assert_eq!(
        acc.feed_bytes(b">"),
        vec![AccEvent::Response("7E8 04 41 0C 1A F8".into())]
    );
}

#[test]
fn prompt_preserves_searching_lines() {
    let mut acc = ResponseAccumulator::new();
    let ev = acc.feed_bytes(b"SEARCHING...\r7E8 06 41 00 BE 3F A8 13\r\r>");
    assert_eq!(
        ev,
        vec![AccEvent::Response(
            "SEARCHING...\r7E8 06 41 00 BE 3F A8 13".into()
        )]
    );
    let ev = acc.feed_bytes(b"SEARCHING...\rUNABLE TO CONNECT\r\r>");
    assert_eq!(
        ev,
        vec![AccEvent::Response("SEARCHING...\rUNABLE TO CONNECT".into())]
    );
}

#[test]
fn prompt_stale_prompt_is_dropped_not_delivered() {
    let mut acc = ResponseAccumulator::new();
    let ev = acc.feed_bytes(b"\r\r>");
    assert!(matches!(ev.as_slice(), [AccEvent::Dropped(_)]));
    let ev = acc.feed_bytes(b">");
    assert!(matches!(ev.as_slice(), [AccEvent::Dropped(_)]));
}

#[test]
fn prompt_last_prompt_wins_and_buffer_fully_cleared() {
    let mut acc = ResponseAccumulator::new();
    let ev = acc.feed_bytes(b"OK\r\r>OK\r\r>");
    assert_eq!(ev, vec![AccEvent::Response("OK\r\r>OK".into())]);
    assert!(!acc.has_pending());
}

#[test]
fn prompt_non_ascii_byte_does_not_wedge() {
    let mut acc = ResponseAccumulator::new();
    let ev = acc.feed_bytes(b"NO \xffDATA\r>");
    assert_eq!(ev, vec![AccEvent::Response("NO ?DATA".into())]);
}

#[test]
fn line_mode_splits_and_carries_partial() {
    let mut acc = ResponseAccumulator::new();
    acc.set_mode(Mode::Line);
    let ev = acc.feed_bytes(b"7E8 03 41 0C 1A F8\r6A0 04 12");
    assert_eq!(ev, vec![AccEvent::Line("7E8 03 41 0C 1A F8".into())]);
    assert!(acc.has_pending());
    let ev = acc.feed_bytes(b(" 34 56\r\n"));
    assert_eq!(ev, vec![AccEvent::Line("6A0 04 12 34 56".into())]);
    assert!(!acc.has_pending());
}

#[test]
fn line_mode_skips_blank_and_bare_prompt_but_keeps_glued_prompt() {
    let mut acc = ResponseAccumulator::new();
    acc.set_mode(Mode::Line);
    let ev = acc.feed_bytes(b"\r\r>\r>6A0 04 11 22 33 44\rSTOPPED\r");
    assert_eq!(
        ev,
        vec![
            AccEvent::Line(">6A0 04 11 22 33 44".into()),
            AccEvent::Line("STOPPED".into()),
        ]
    );
}

#[test]
fn mode_switch_clears_half_formed_buffer() {
    let mut acc = ResponseAccumulator::new();
    acc.feed_bytes(b"7E8 04 41");
    acc.set_mode(Mode::Line);
    assert!(!acc.has_pending());
    acc.feed_bytes(b"partial");
    acc.set_mode(Mode::Prompt);
    assert!(!acc.has_pending());
    assert_eq!(
        acc.feed_bytes(b"OK\r>"),
        vec![AccEvent::Response("OK".into())]
    );
}

#[test]
fn test_flush_and_reset() {
    let mut acc = ResponseAccumulator::new();
    acc.feed_bytes(b"7E8 04 41 0C");
    assert!(acc.has_pending());
    assert_eq!(acc.flush().unwrap(), "7E8 04 41 0C");
    assert!(!acc.has_pending());
    acc.feed_bytes(b"7E8 04");
    acc.reset();
    assert!(!acc.has_pending());
}

#[test]
fn lines_do_not_depend_on_chunks() {
    let all = b"7E8 03 41 0D 45\r6A0 00 0B 4A\r\nSTOPPED\rtail";
    let mut whole = ResponseAccumulator::new();
    whole.set_mode(Mode::Line);
    let want = whole.feed_bytes(all);
    for cut in 0..all.len() {
        let mut acc = ResponseAccumulator::new();
        acc.set_mode(Mode::Line);
        let mut got = acc.feed_bytes(&all[..cut]);
        got.extend(acc.feed_bytes(&all[cut..]));
        assert_eq!(got, want, "cut at {cut}");
    }
}

#[test]
fn binary_mode_gives_frames() {
    let mut acc = ResponseAccumulator::new();
    acc.set_mode(Mode::Dvi);
    let wire = frame(0x08, &[0x00, 0x00, 0x07, 0xE8, 0x04, 0x41, 0x0C, 0x09, 0xC4]);
    assert!(acc.feed_bytes(&wire[..3]).is_empty());
    assert!(acc.has_pending());
    assert_eq!(
        acc.feed_bytes(&wire[3..]),
        vec![AccEvent::Dvi(DviFrame::Rx(RxFrame {
            id: 0x7E8,
            ts_us: None,
            data: vec![0x04, 0x41, 0x0C, 0x09, 0xC4],
        }))]
    );
    assert!(!acc.has_pending());
    assert_eq!(acc.mode(), Mode::Dvi);
    acc.feed_bytes(&wire[..3]);
    acc.reset();
    assert!(!acc.has_pending());
}

#[test]
fn only_the_buffer_of_the_mode_holds_bytes() {
    let wire = frame(0x08, &[0x00, 0x00, 0x07, 0xE8, 0x04, 0x41, 0x0C, 0x09, 0xC4]);
    let mut acc = ResponseAccumulator::new();
    acc.set_mode(Mode::Dvi);
    acc.feed_bytes(&wire[..3]);
    assert_eq!(acc.flush(), None, "half a frame is no text");
    assert!(acc.has_pending());
    acc.set_mode(Mode::Line);
    assert!(!acc.has_pending(), "half a frame does not reach a text mode");
    assert!(acc.feed_bytes(b("41 0C")).is_empty());
    assert!(acc.has_pending());
    acc.set_mode(Mode::Dvi);
    assert!(!acc.has_pending(), "nor half a line the binary mode");
    assert_eq!(acc.feed_bytes(&wire).len(), 1);
}
