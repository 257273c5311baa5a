//! Frames of the binary adapter.
use obd_session_rs::link::dvi::codec::{
    can_filter, can_filter_status, checksum, cmd, error_name, frame, info, info_request,
    periodic_data, periodic_enable, periodic_interval, set_api_dvi, set_baud, set_comm,
    set_padding, set_protocol, set_software_filters, set_timestamps, tx_can, Comm, DviFrame,
    FilterType, FrameParser, ObdProtocol, RxFrame, BAUD_250K, BAUD_500K,
};

fn hex(s: &str) -> Vec<u8> {
    s.split_whitespace()
        .map(|t| u8::from_str_radix(t, 16).unwrap())
        .collect()
}

#[test]
fn checksum_matches_the_manual() {
    assert_eq!(checksum(&hex("22 01 00")), 0xDC);
    assert_eq!(checksum(&hex("32 05 00 01 00 00 00")), 0xC7);
    assert_eq!(checksum(&hex("32 05 00 FF FE FC FD")), 0xD2);
}

#[test]
fn hs_can_example_frames() {
    assert_eq!(set_protocol(ObdProtocol::HsCan), hex("31 02 01 02 C9"));
    assert_eq!(set_protocol(ObdProtocol::GmCan), hex("31 02 01 03 C8"));
    assert_eq!(
        can_filter(0, false, FilterType::Flow, true, 0x7E8, 0x7FF, 0x7E0),
        hex("34 11 00 00 00 01 01 00 00 07 E8 00 00 07 FF 00 00 07 E0 DC")
    );
    assert_eq!(set_comm(Comm::On), hex("31 02 02 01 C9"));
    assert_eq!(
        tx_can(0x7E0, false, &[0x20]),
        hex("10 05 00 00 07 E0 20 E3")
    );
    let mut ex = hex("10 06 00 00 07 E0 01 00");
    ex.push(checksum(&ex));
    assert_eq!(tx_can(0x7E0, false, &[0x01, 0x00]), ex);
    assert_eq!(info_request(info::HARDWARE_VERSION), hex("22 01 00 DC"));
    assert_eq!(info_request(info::MODEL), hex("22 01 02 DA"));
    assert_eq!(set_api_dvi(), hex("31 02 06 01 C5"));
    let mut pd = hex("34 08 1B 00 00 00 07 E0 01 3E");
    pd.push(checksum(&pd));
    assert_eq!(periodic_data(0, 0x7E0, &[0x01, 0x3E]), pd);
    let mut pi = hex("34 04 1A 03 00 64");
    pi.push(checksum(&pi));
    assert_eq!(periodic_interval(3, 100), pi);
    let mut pe = hex("34 03 1C 03 01");
    pe.push(checksum(&pe));
    assert_eq!(periodic_enable(3, true), pe);
    let mut baud = hex("34 02 15 05");
    baud.push(checksum(&baud));
    assert_eq!(set_baud(BAUD_250K), baud);
    let mut pad = hex("34 02 0E 01");
    pad.push(checksum(&pad));
    assert_eq!(set_padding(true), pad);
    assert_eq!(set_comm(Comm::ListenOnly), hex("31 02 02 02 C8"));
}

#[test]
fn parses_rx_reply_and_error_frames() {
    let mut p = FrameParser::new();
    let frames = p.feed(&hex(
        "08 06 00 00 07 E8 01 60 A1 20 01 00 DE 7F 02 22 05 57",
    ));
    assert_eq!(frames.len(), 3, "{frames:?}");
    assert_eq!(
        frames[0],
        DviFrame::Rx(RxFrame {
            id: 0x7E8,
            ts_us: None,
            data: vec![0x01, 0x60]
        })
    );
    assert_eq!(
        frames[1],
        DviFrame::Reply {
            cmd: 0x20,
            data: vec![0x00]
        }
    );
    assert_eq!(frames[2], DviFrame::Error { cmd: 0x22, code: 5 });
    let f = p.feed(&frame(cmd::RX_NORMAL, &hex("00 00 07 E8 04 41 0C 09 C4")));
    assert_eq!(
        f,
        vec![DviFrame::Rx(RxFrame {
            id: 0x7E8,
            ts_us: None,
            data: hex("04 41 0C 09 C4")
        })]
    );
}

#[test]
fn parser_handles_split_chunks_and_resyncs_on_bad_checksum() {
    let mut p = FrameParser::new();
    let whole = hex("08 06 00 00 07 E8 01 60 A1");
    assert!(p.feed(&whole[..4]).is_empty());
    let f = p.feed(&whole[4..]);
    assert_eq!(f.len(), 1);
    let mut bad = whole.clone();
    *bad.last_mut().unwrap() ^= 0xFF;
    bad.extend_from_slice(&whole);
    let f = p.feed(&bad);
    assert_eq!(f.len(), 1);
}

#[test]
fn timestamped_rx_and_large_frames() {
    let mut p = FrameParser::new();
    p.timestamps = true;
    let f = p.feed(&frame(
        cmd::RX_NORMAL,
        &hex("00 00 03 E8 00 00 07 E8 04 41 0C 09 C4"),
    ));
    assert_eq!(
        f,
        vec![DviFrame::Rx(RxFrame {
            id: 0x7E8,
            ts_us: Some(1000),
            data: hex("04 41 0C 09 C4")
        })]
    );
    p.timestamps = false;
    let f = p.feed(&frame(cmd::RX_LARGE, &hex("00 00 07 E8 04 41 0C 09 C4")));
    assert_eq!(
        f,
        vec![DviFrame::Rx(RxFrame {
            id: 0x7E8,
            ts_us: None,
            data: hex("04 41 0C 09 C4")
        })]
    );
    let f = p.feed(&frame(
        cmd::RX_NORMAL,
        &hex("18 DA F1 10 06 41 00 BF FE B9 93"),
    ));
    assert_eq!(
        f[0],
        DviFrame::Rx(RxFrame {
            id: 0x18DAF110,
            ts_us: None,
            data: hex("06 41 00 BF FE B9 93")
        })
    );
}

#[test]
fn frames_read_back_whatever_the_chunks() {
    let wire = [
        frame(0x41, &[1, 2, 3]),
        frame(cmd::RX_NORMAL, &hex("00 00 07 E8 01 60")),
        frame(cmd::ERROR, &[0x34, 2]),
    ]
    .concat();
    let want = FrameParser::new().feed(&wire);
    assert_eq!(
        want,
        vec![
            DviFrame::Reply {
                cmd: 0x41,
                data: vec![1, 2, 3]
            },
            DviFrame::Rx(RxFrame {
                id: 0x7E8,
                ts_us: None,
                data: vec![0x01, 0x60]
            }),
            DviFrame::Error { cmd: 0x34, code: 2 },
        ]
    );
    for cut in 0..wire.len() {
        let mut p = FrameParser::new();
        let mut got = p.feed(&wire[..cut]);
        got.extend(p.feed(&wire[cut..]));
        assert_eq!(got, want, "cut at {cut}");
    }
}

#[test]
fn a_reset_parser_starts_anew() {
    let mut p = FrameParser::new();
    p.feed(&[0x08, 0x06, 0x00]);
    p.reset();
    assert_eq!(p.feed(&hex("20 01 00 DE")).len(), 1);
}

#[test]
fn long_data_takes_the_large_form() {
    let data = vec![0x55; 300];
    let wire = tx_can(0x7E0, false, &data);
    assert_eq!(wire[0], cmd::TX_LARGE);
    assert_eq!(checksum(&wire[..wire.len() - 1]), wire[wire.len() - 1]);
    assert_eq!(&wire[1..3], &[0x01, 0x30]);
}

#[test]
fn settings_have_their_bytes() {
    let framed = |head: &str| {
        let mut v = hex(head);
        v.push(checksum(&v));
        v
    };
    assert_eq!(set_timestamps(true), framed("24 02 03 01"));
    assert_eq!(set_software_filters(false), framed("34 02 06 00"));
    assert_eq!(can_filter_status(3, true, false), framed("34 04 05 03 01 00"));
    assert_eq!(set_baud(BAUD_500K), framed("34 02 15 06"));
    for (code, name) in [
        (1, "InvalidCommand"),
        (2, "RecvTooLong"),
        (3, "ByteWaitTimeout"),
        (4, "InvalidSerialChksum"),
        (5, "SubCommandIncorrectSize"),
        (6, "InvalidSubCommand"),
        (7, "SubCommandInvalidData"),
        (8, "Unknown"),
    ] {
        assert_eq!(error_name(code), name);
    }
}

#[test]
fn a_large_request_reads_back() {
    let wire = frame(0x11, &[0xAA]);
    assert_eq!(wire, vec![0x11, 0x00, 0x01, 0xAA, 0x43]);
    let mut p = FrameParser::new();
    assert_eq!(
        p.feed(&wire),
        vec![DviFrame::Reply { cmd: 0x11, data: vec![0xAA] }]
    );
    let long: Vec<u8> = (0..600u32).map(|i| (i % 251) as u8).collect();
    assert_eq!(
        p.feed(&frame(0x11, &long)),
        vec![DviFrame::Reply { cmd: 0x11, data: long }]
    );
}

#[test]
fn a_large_stamped_frame_reads_back() {
    let data: Vec<u8> = (0..300u32).map(|i| (i % 251) as u8).collect();
    let mut body = vec![0x00, 0x01, 0x02, 0x03, 0x18, 0xDA, 0xF1, 0x10];
    body.extend_from_slice(&data);
    let mut p = FrameParser::new();
    p.timestamps = true;
    assert_eq!(
        p.feed(&frame(cmd::RX_LARGE, &body)),
        vec![DviFrame::Rx(RxFrame { id: 0x18DAF110, ts_us: Some(0x00010203), data })]
    );
}
