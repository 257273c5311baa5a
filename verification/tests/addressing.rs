//! Controllers, headers and the two ways of addressing.
use obd_session_rs::addressing::{periodic_response_id, Addressing, Bus, Controller};

#[test]
fn atdpn_maps_can_protocols_and_rejects_non_can() {
    assert_eq!(Addressing::from_atdpn("6"), Some(Addressing::Can11));
    assert_eq!(Addressing::from_atdpn("8"), Some(Addressing::Can11));
    assert_eq!(
        Addressing::from_atdpn("7"),
        Some(Addressing::Can29 { tester: 0xF1 })
    );
    assert_eq!(
        Addressing::from_atdpn("9"),
        Some(Addressing::Can29 { tester: 0xF1 })
    );
    for n in ["1", "2", "3", "4", "5", "0", "A", ""] {
        assert_eq!(
            Addressing::from_atdpn(n),
            None,
            "protocol {n} should be non-CAN"
        );
    }
}

#[test]
fn sniff_detects_mode_and_learns_tester() {
    let t: Vec<&str> = "7E8 04 41 0C 1A F8".split_whitespace().collect();
    assert_eq!(Addressing::sniff(&t), Some(Addressing::Can11));

    let t: Vec<&str> = "18 DA F1 10 06 41 00 BF FE B9 93"
        .split_whitespace()
        .collect();
    assert_eq!(
        Addressing::sniff(&t),
        Some(Addressing::Can29 { tester: 0xF1 })
    );

    let t: Vec<&str> = "18 DA F0 11 06 41 00 80 00 00 01"
        .split_whitespace()
        .collect();
    assert_eq!(
        Addressing::sniff(&t),
        Some(Addressing::Can29 { tester: 0xF0 })
    );

    assert_eq!(Addressing::sniff(&["NO", "DATA"]), None);
    assert_eq!(Addressing::sniff(&[]), None);
}

#[test]
fn controller_key_is_uniform() {
    assert_eq!(Controller::new(0x7E0).key(), "7E0");
    assert_eq!(Controller::new(0x10).key(), "10");
    assert_eq!(Controller::new(0x28).key(), "28");
}

#[test]
fn read_11bit_response_headers() {
    let bus = Bus::new(Addressing::Can11);
    let t: Vec<&str> = "7E8 04 41 0C 1A F8".split_whitespace().collect();
    assert_eq!(bus.read(&t), Some((Controller::new(0x7E0), 1)));
    let t: Vec<&str> = "7E9 06 41 00 80 00 00 01".split_whitespace().collect();
    assert_eq!(bus.read(&t), Some((Controller::new(0x7E1), 1)));
    let t: Vec<&str> = "654 04 62 41 1E 01".split_whitespace().collect();
    assert_eq!(bus.read(&t), Some((Controller::new(0x254), 1)));
    let t: Vec<&str> = "728 05 62 F1 11 49".split_whitespace().collect();
    assert_eq!(
        bus.read(&t),
        Some((Controller::new(0x720), 1)),
        "IPC 728 → 720"
    );
    let t: Vec<&str> = "768 05 62 F1 11 41".split_whitespace().collect();
    assert_eq!(
        bus.read(&t),
        Some((Controller::new(0x760), 1)),
        "ABS 768 → 760"
    );
    let t: Vec<&str> = "7D8 05 62 F1 11 53".split_whitespace().collect();
    assert_eq!(
        bus.read(&t),
        Some((Controller::new(0x7D0), 1)),
        "APIM 7D8 → 7D0"
    );
    let t: Vec<&str> = "70E 05 62 F1 11 49".split_whitespace().collect();
    assert_eq!(
        bus.read(&t),
        Some((Controller::new(0x706), 1)),
        "IPMA 70E → 706"
    );
    assert_eq!(bus.read(&["554", "04", "62", "41", "1E", "01"]), None);
    assert_eq!(bus.read(&["41", "0C", "1A", "F8"]), None);
}

#[test]
fn read_29bit_response_headers_from_captured_frames() {
    let bus = Bus::new(Addressing::Can29 { tester: 0xF1 });
    let t: Vec<&str> = "18 DA F1 10 06 41 00 BF FE B9 93"
        .split_whitespace()
        .collect();
    assert_eq!(bus.read(&t), Some((Controller::new(0x10), 4)));
    let t: Vec<&str> = "18 DA F1 18 06 41 00 98 18 00 01"
        .split_whitespace()
        .collect();
    assert_eq!(bus.read(&t), Some((Controller::new(0x18), 4)));
    let t: Vec<&str> = "18 DA F1 28 06 41 01 00 04 00 00"
        .split_whitespace()
        .collect();
    assert_eq!(bus.read(&t), Some((Controller::new(0x28), 4)));
    let t: Vec<&str> = "18 DA F1 40 06 41 00 80 00 00 01"
        .split_whitespace()
        .collect();
    assert_eq!(bus.read(&t), Some((Controller::new(0x40), 4)));
}

#[test]
fn read_29bit_rejects_wrong_tester() {
    let bus = Bus::new(Addressing::Can29 { tester: 0xF1 });
    let t: Vec<&str> = "18 DA F0 10 06 41 00 BF FE B9 93"
        .split_whitespace()
        .collect();
    assert_eq!(bus.read(&t), None);
}

#[test]
fn request_and_functional_headers_both_protocols() {
    let bus11 = Bus::new(Addressing::Can11);
    assert_eq!(bus11.functional_header(), "7DF");
    assert_eq!(bus11.request_header(Controller::new(0x7E0)), "7E0");
    assert_eq!(bus11.request_header(Controller::new(0x7E1)), "7E1");
    assert_eq!(bus11.request_header(Controller::new(0x254)), "254");

    let bus29 = Bus::new(Addressing::Can29 { tester: 0xF1 });
    assert_eq!(bus29.functional_header(), "18DB33F1");
    assert_eq!(bus29.request_header(Controller::new(0x10)), "18DA10F1");
    assert_eq!(bus29.request_header(Controller::new(0x28)), "18DA28F1");
}

#[test]
fn request_response_round_trip_29bit() {
    let bus = Bus::new(Addressing::Can29 { tester: 0xF1 });
    let ecu = Controller::new(0x11);
    assert_eq!(bus.request_header(ecu), "18DA11F1");
    let resp: Vec<&str> = "18 DA F1 11 10 14 49 0A 01 45".split_whitespace().collect();
    assert_eq!(bus.read(&resp).map(|(c, _)| c), Some(ecu));
}

#[test]
fn from_target_11bit_imported_torque_headers() {
    let bus = Bus::new(Addressing::Can11);
    assert_eq!(bus.from_target("7E0"), Some(Controller::new(0x7E0)));
    assert_eq!(bus.from_target("7E8"), Some(Controller::new(0x7E0)));
    assert_eq!(bus.from_target("00"), Some(Controller::new(0x7E0)));
    assert_eq!(bus.from_target("7E1"), Some(Controller::new(0x7E1)));
    assert_eq!(bus.from_target("254"), Some(Controller::new(0x254)));
    assert_eq!(bus.from_target("654"), Some(Controller::new(0x254)));
    assert_eq!(bus.from_target("7DF"), None);
}

#[test]
fn target_header_resolution_c3_contract() {
    let b11 = Bus::new(Addressing::Can11);
    assert_eq!(b11.target_header("7E0"), "7E0");
    assert_eq!(b11.target_header("7E8"), "7E0");
    assert_eq!(b11.target_header("7DF"), "7DF");
    let b29 = Bus::new(Addressing::Can29 { tester: 0xF1 });
    assert_eq!(b29.target_header("10"), "18DA10F1");
    assert_eq!(b29.target_header("28"), "18DA28F1");
    assert_eq!(b29.target_header("7E0"), "18DB33F1");
}

#[test]
fn monitor_id_normalizes_both_protocols() {
    let b11 = Bus::new(Addressing::Can11);
    assert_eq!(
        b11.monitor_id("7E8 06 41 0C 3F E3 0D 73"),
        Some("7E8".into())
    );
    assert_eq!(b11.monitor_id("STOPPED"), Some("STOPPED".into()));
    assert_eq!(b11.monitor_id(""), None);

    let b29 = Bus::new(Addressing::Can29 { tester: 0xF1 });
    assert_eq!(
        b29.monitor_id("18 DA F1 10 06 41 00 BF FE B9 93"),
        Some("18DAF110".into())
    );
    assert_eq!(
        b29.monitor_id("18 DA F1 18 05 41 05 7F 00"),
        Some("18DAF118".into())
    );
    assert_eq!(b29.monitor_id("STOPPED"), Some("STOPPED".into()));
    assert_eq!(b29.monitor_id("OK"), Some("OK".into()));
}

#[test]
fn from_target_29bit_11bit_header_falls_back_to_functional() {
    let bus = Bus::new(Addressing::Can29 { tester: 0xF1 });
    assert_eq!(bus.from_target("7E0"), None);
    assert_eq!(bus.from_target("7E8"), None);
    assert_eq!(bus.from_target("7DF"), None);
    assert_eq!(bus.from_target("18DB33F1"), None);
    assert_eq!(bus.from_target("10"), Some(Controller::new(0x10)));
    assert_eq!(bus.from_target("28"), Some(Controller::new(0x28)));
}


#[test]
fn from_target_29bit_full_physical_headers_both_priorities() {
    let bus = Bus::new(Addressing::Can29 { tester: 0xF1 });
    assert_eq!(bus.from_target("14DA41F1"), Some(Controller::new(0x41)));
    assert_eq!(bus.from_target("14DA80F1"), Some(Controller::new(0x80)));
    assert_eq!(bus.from_target("18DA10F1"), Some(Controller::new(0x10)));
    assert_eq!(bus.from_target("14da11f1"), Some(Controller::new(0x11)));
    assert_eq!(bus.from_target("14DB33F1"), None);
    assert_eq!(bus.from_target("14DCF141"), None);
}

#[test]
fn target_header_29bit_full_headers_pass_through_verbatim() {
    let bus = Bus::new(Addressing::Can29 { tester: 0xF1 });
    assert_eq!(bus.target_header("14DA41F1"), "14DA41F1");
    assert_eq!(bus.target_header("14da80f1"), "14DA80F1");
    assert_eq!(bus.target_header("18DA10F1"), "18DA10F1");
    assert_eq!(bus.target_header("41"), "18DA41F1");
    assert_eq!(bus.target_header("14DCF141"), "18DB33F1");
    let b11 = Bus::new(Addressing::Can11);
    assert_eq!(b11.target_header("14DA41F1"), "7DF");
}

#[test]
fn read_29bit_accepts_gm_priority_responses() {
    let bus = Bus::new(Addressing::Can29 { tester: 0xF1 });
    let t: Vec<&str> = "14 DA F1 41 03 59 02 8D".split_whitespace().collect();
    assert_eq!(bus.read(&t), Some((Controller::new(0x41), 4)));
    let t: Vec<&str> = "14 DC F1 41 05 62 F2 FE 00".split_whitespace().collect();
    assert_eq!(bus.read(&t), None);
    assert_eq!(
        bus.monitor_id("14 DC F1 41 05 62 F2 FE 00"),
        Some("14DCF141".into())
    );
    assert_eq!(
        bus.monitor_id("14 DA F1 80 03 7F 19 11"),
        Some("14DAF180".into())
    );
}

#[test]
fn responses_to_periodic_headers() {
    assert_eq!(periodic_response_id("7E0"), "7E8");
    assert_eq!(periodic_response_id(" 73b "), "743");
    assert_eq!(periodic_response_id("241"), "641");
    assert_eq!(periodic_response_id("25F"), "65F");
    assert_eq!(periodic_response_id("18DA10F1"), "18DAF110");
    assert_eq!(periodic_response_id("14da41f1"), "14DAF141");
    assert_eq!(periodic_response_id("hello"), "HELLO");
    let there = periodic_response_id("18DA10F1");
    assert_eq!(periodic_response_id(&there), "18DA10F1");
}

#[test]
fn a_response_is_attributed_to_the_controller_that_was_asked() {
    let bus = Bus::new(Addressing::Can11);
    for ecu in [0x7E0u16, 0x7E7, 0x720, 0x254] {
        let request = bus.request_header(Controller::new(ecu));
        let response = periodic_response_id(&request);
        assert_eq!(
            bus.read(&[response.as_str(), "03", "41", "0D", "00"]),
            Some((Controller::new(ecu), 1)),
            "{request} -> {response}"
        );
    }
}

#[test]
fn a_bare_key_is_a_controller_of_a_29bit_bus() {
    let bus = Bus::new(Addressing::Can29 { tester: 0xF1 });
    assert_eq!(bus.from_target("7E"), Some(Controller::new(0x7E)));
    assert_eq!(bus.from_target("7D"), Some(Controller::new(0x7D)));
    assert_eq!(bus.from_target("7E0"), None);
    assert_eq!(bus.target_header("7E"), "18DA7EF1");
}

#[test]
fn a_signed_token_is_no_byte() {
    assert_eq!(Addressing::sniff(&["18", "DA", "+1", "10"]), None);
    let bus = Bus::new(Addressing::Can29 { tester: 0x01 });
    assert_eq!(bus.read(&["18", "DA", "+1", "10"]), None);
    assert_eq!(
        bus.read(&["18", "DA", "01", "10"]),
        Some((Controller::new(0x10), 4))
    );
    assert_eq!(periodic_response_id("+7E"), "+7E");
}

#[test]
fn a_resolved_target_resolves_to_itself() {
    let buses = [
        Bus::new(Addressing::Can11),
        Bus::new(Addressing::Can29 { tester: 0xF1 }),
        Bus::new(Addressing::Can29 { tester: 0xF0 }),
    ];
    let targets = [
        "", "7DF", "07DF", "7E0", "7E8", "654", "254", "03", "42", "10", "7E", "14da41f1",
        " 18DA10F1 ", "18DB33F1", "18DB33F0", "14DCF141", "nothing",
    ];
    for bus in buses {
        for t in targets {
            let once = bus.target_header(t);
            assert_eq!(bus.target_header(&once), once, "{t}");
        }
    }
    assert_eq!(buses[1].target_header("14da41f1"), "14DA41F1");
    let ligature = buses[1].target_header("14da\u{FB00}f1");
    assert_eq!(ligature, "14DAFFF1");
    assert_eq!(buses[1].target_header(&ligature), ligature);
    assert_eq!(buses[0].target_header("7E8"), "7E0");
    assert_eq!(buses[2].target_header("7E8"), "18DB33F0");
}
