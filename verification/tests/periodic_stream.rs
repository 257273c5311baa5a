//! Packing signals into periodic identifiers, and reading them back.
use obd_session_rs::addressing::{Addressing, Bus};
use obd_session_rs::link::dvi::codec::RxFrame;
use obd_session_rs::link::dvi::framing::frame_payloads;
use obd_session_rs::link::{classify_line, Payload};
use obd_session_rs::periodic_stream::{
    build_defines, decode_periodic_frame, decode_periodic_line, drop_refused,
    parse_stream_profiles, source_did, BuildDefinesError, PackedSignal, RawProfile, StreamProfile,
    UnpackMap, SLOT_DATA_BYTES,
};
use std::collections::HashMap;

fn s197_profile() -> StreamProfile {
    StreamProfile {
        name: "Ford S197 Mustang 2011–2014".to_string(),
        target: "7E0".to_string(),
        response_ids: vec!["6A0".to_string(), "6A1".to_string()],
        slot_count: 10,
        rate_mode: 0x03,
        keepalive_interval_ms: 4000,
        keepalive_settle_ms: 200,
    }
}


fn named<'a>(profiles: &'a [(String, StreamProfile)], name: &str) -> &'a StreamProfile {
    &profiles.iter().find(|(k, _)| k == name).unwrap().1
}

#[test]
fn parse_profiles_happy_path() {
    let json = r#"{
      "_comment": "ignored",
      "s197": {
        "name": "Ford S197 Mustang 2011–2014",
        "target": "7e0",
        "responseIds": ["6a0", "6A1"],
        "slotCount": 10,
        "periodicRate": "fast",
        "keepaliveIntervalMs": 4000
      }
    }"#;
    let profiles = parse_stream_profiles(json);
    assert_eq!(profiles.len(), 1);
    assert_eq!(*named(&profiles, "s197"), s197_profile());
}

#[test]
fn parse_profiles_explicit_keepalive_settle() {
    let json = r#"{
      "mock": { "name": "x", "target": "7E0", "responseIds": ["6A0"],
                "slotCount": 4, "keepaliveSettleMs": 25 }
    }"#;
    let profiles = parse_stream_profiles(json);
    assert_eq!(named(&profiles, "mock").keepalive_settle_ms, 25);
    assert_eq!(
        named(&profiles, "mock").keepalive_interval_ms, 4000,
        "interval still defaults"
    );
}

#[test]
fn parse_profiles_malformed_degrades_to_untagged() {
    let json = r#"{
      "no_ids":   { "name": "x", "target": "7E0", "slotCount": 10 },
      "no_slots": { "name": "x", "target": "7E0", "responseIds": ["6A0"] },
      "bad_rate": { "name": "x", "target": "7E0", "responseIds": ["6A0"], "slotCount": 10, "periodicRate": "ludicrous" },
      "zero":     { "name": "x", "target": "7E0", "responseIds": ["6A0"], "slotCount": 0 },
      "ok":       { "name": "x", "target": "7E0", "responseIds": ["6A0"], "slotCount": 4 }
    }"#;
    let profiles = parse_stream_profiles(json);
    assert_eq!(profiles.len(), 1, "only the well-formed entry survives");
    assert!(profiles.iter().any(|(k, _)| k == "ok"));
    assert_eq!(named(&profiles, "ok").rate_mode, 0x03, "rate defaults to fast");
    assert!(parse_stream_profiles("not json at all").is_empty());
    assert!(parse_stream_profiles("[1,2,3]").is_empty());
}


#[test]
fn source_did_mapping() {
    assert_eq!(source_did("221E1A").as_deref(), Some("1E1A"));
    assert_eq!(source_did("22f40c").as_deref(), Some("F40C"));
    assert_eq!(source_did("010C").as_deref(), Some("F40C"));
    assert_eq!(source_did("0105").as_deref(), Some("F405"));
    assert_eq!(source_did("0902"), None);
    assert_eq!(source_did("03"), None);
    assert_eq!(source_did("010C|010D"), None);
    assert_eq!(source_did("ATSP 0"), None);
}


#[test]
fn defines_pack_one_slot_like_the_capture() {
    let signals = vec![
        ("220700".to_string(), 4u8, None),
        ("22F40C".to_string(), 2u8, None),
        ("22F40F".to_string(), 1u8, None),
    ];
    let set = build_defines(&signals, &s197_profile()).unwrap();
    assert_eq!(
        set.define_commands,
        vec!["2C01F20007000104", "2C01F200F40C0102", "2C01F200F40F0101"]
    );
    assert_eq!(set.slots_used, 1, "4+2+1 = 7 bytes, one full slot");
    assert_eq!(set.start_command, "2A0300");
    assert!(set.dropped.is_empty());
    assert_eq!(
        set.unpack[&0][0],
        PackedSignal {
            pid: "220700".into(),
            offset: 0,
            len: 4
        }
    );
    assert_eq!(
        set.unpack[&0][1],
        PackedSignal {
            pid: "22F40C".into(),
            offset: 4,
            len: 2
        }
    );
    assert_eq!(
        set.unpack[&0][2],
        PackedSignal {
            pid: "22F40F".into(),
            offset: 6,
            len: 1
        }
    );
}

#[test]
fn defines_overflow_and_mixed_lengths() {
    let signals = vec![
        ("22AAAA".to_string(), 4u8, None),
        ("22BBBB".to_string(), 2u8, None),
        ("22CCCC".to_string(), 2u8, None),
        ("010C".to_string(), 2u8, None),
    ];
    let set = build_defines(&signals, &s197_profile()).unwrap();
    assert_eq!(set.slots_used, 2);
    assert_eq!(set.start_command, "2A030001");
    assert_eq!(set.unpack[&0].len(), 2);
    assert_eq!(
        set.unpack[&1][0],
        PackedSignal {
            pid: "22CCCC".into(),
            offset: 0,
            len: 2
        }
    );
    assert_eq!(
        set.unpack[&1][1],
        PackedSignal {
            pid: "010C".into(),
            offset: 2,
            len: 2
        }
    );
    assert_eq!(set.define_commands[3], "2C01F201F40C0102");
}

#[test]
fn drop_refused_shifts_later_offsets() {
    let signals = vec![
        ("220700".to_string(), 4u8, None),
        ("22F40C".to_string(), 2u8, None),
        ("22F40F".to_string(), 1u8, None),
    ];
    let mut unpack = build_defines(&signals, &s197_profile()).unwrap().unpack;
    assert!(drop_refused(&mut unpack, 0, "220700"));
    assert_eq!(
        unpack[&0][0],
        PackedSignal {
            pid: "22F40C".into(),
            offset: 0,
            len: 2
        }
    );
    assert_eq!(
        unpack[&0][1],
        PackedSignal {
            pid: "22F40F".into(),
            offset: 2,
            len: 1
        }
    );
    assert!(!drop_refused(&mut unpack, 0, "22ZZZZ"));
    assert!(drop_refused(&mut unpack, 0, "22F40C"));
    assert!(drop_refused(&mut unpack, 0, "22F40F"));
    assert!(unpack.is_empty());
}

#[test]
fn defines_demote_reasons() {
    let p = s197_profile();
    for bad in [("0902", 2u8), ("22F40C", 0), ("221111", 8)] {
        let set = build_defines(&[(bad.0.into(), bad.1, None)], &p).unwrap();
        assert_eq!(set.dropped, vec![bad.0.to_uppercase()], "{bad:?}");
        assert!(set.define_commands.is_empty());
    }
    let small = StreamProfile {
        slot_count: 2,
        ..p.clone()
    };
    let signals: Vec<_> = (0..3)
        .map(|i| (format!("22AA{i:02X}"), 7u8, None))
        .collect();
    let set = build_defines(&signals, &small).unwrap();
    assert_eq!(set.slots_used, 2);
    assert_eq!(set.dropped, vec!["22AA02".to_string()]);
    let e = build_defines(
        &[
            ("22AAAA".into(), 2, Some("7E0".into())),
            ("22BBBB".into(), 2, Some("7E9".into())),
        ],
        &p,
    )
    .unwrap_err();
    assert_eq!(e, BuildDefinesError::MixedTarget);
    let e = build_defines(&[("22AAAA".into(), 2, Some("726".into()))], &p).unwrap_err();
    assert_eq!(e, BuildDefinesError::MixedTarget);
}


fn capture_unpack() -> UnpackMap {
    let mut m: UnpackMap = HashMap::new();
    m.insert(
        0,
        vec![
            PackedSignal {
                pid: "220700".into(),
                offset: 0,
                len: 4,
            },
            PackedSignal {
                pid: "22F40C".into(),
                offset: 4,
                len: 2,
            },
            PackedSignal {
                pid: "22F40F".into(),
                offset: 6,
                len: 1,
            },
        ],
    );
    m.insert(
        1,
        vec![
            PackedSignal {
                pid: "22F434".into(),
                offset: 0,
                len: 2,
            },
            PackedSignal {
                pid: "22F435".into(),
                offset: 2,
                len: 2,
            },
        ],
    );
    m.insert(
        3,
        vec![PackedSignal {
            pid: "22116B".into(),
            offset: 0,
            len: 2,
        }],
    );
    m.insert(
        4,
        vec![
            PackedSignal {
                pid: "221505".into(),
                offset: 0,
                len: 2,
            },
            PackedSignal {
                pid: "220914".into(),
                offset: 2,
                len: 2,
            },
            PackedSignal {
                pid: "22F408".into(),
                offset: 4,
                len: 2,
            },
        ],
    );
    m
}

fn rpm_of(decoded: &[(String, Vec<u8>)]) -> Option<u32> {
    decoded
        .iter()
        .find(|(p, _)| p == "22F40C")
        .map(|(_, b)| ((b[0] as u32) << 8 | b[1] as u32) / 4)
}

#[test]
fn decode_reproduces_captured_rev_sweep() {
    let ids = s197_profile().response_ids;
    let unpack = capture_unpack();

    let idle = decode_periodic_line("6A0 00 00 80 01 00 0B 4A 4F", &ids, &unpack);
    assert_eq!(rpm_of(&idle), Some(722));
    assert!(idle
        .iter()
        .any(|(p, b)| p == "220700" && b == &vec![0x00, 0x80, 0x01, 0x00]));
    assert!(idle.iter().any(|(p, b)| p == "22F40F" && b == &vec![0x4F]));

    let low = decode_periodic_line("6A0 00 00 80 01 00 0B 07 4F", &ids, &unpack);
    let high = decode_periodic_line("6A0 00 00 80 01 00 0B A7 4F", &ids, &unpack);
    assert_eq!(rpm_of(&low), Some(705));
    assert_eq!(rpm_of(&high), Some(745));

    let afr1 = decode_periodic_line("6A1 01 7C C3 7F E0 16 45 00", &ids, &unpack);
    let afr2 = decode_periodic_line("6A1 01 83 86 7F E0 16 45 00", &ids, &unpack);
    let afr_word = |d: &[(String, Vec<u8>)]| {
        d.iter()
            .find(|(p, _)| p == "22F434")
            .map(|(_, b)| (b[0] as u32) << 8 | b[1] as u32)
    };
    assert_eq!(afr_word(&afr1), Some(0x7CC3));
    assert_eq!(afr_word(&afr2), Some(0x8386));

    let maf1 = decode_periodic_line("6A0 04 00 00 03 05 1D 50 83", &ids, &unpack);
    let maf2 = decode_periodic_line("6A0 04 00 00 03 05 1E 84 84", &ids, &unpack);
    let maf_word = |d: &[(String, Vec<u8>)]| {
        d.iter()
            .find(|(p, _)| p == "22F408")
            .map(|(_, b)| (b[0] as u32) << 8 | b[1] as u32)
    };
    assert_eq!(maf_word(&maf1), Some(0x1D50));
    assert_eq!(maf_word(&maf2), Some(0x1E84));
    assert_eq!(maf1.len(), 3, "counter byte is dropped, not a signal");

    let hz1 = decode_periodic_line("6A1 03 06 4E 02 0D 00 24 83", &ids, &unpack);
    let hz2 = decode_periodic_line("6A1 03 09 93 02 0D 00 24 84", &ids, &unpack);
    let hz_word = |d: &[(String, Vec<u8>)]| {
        d.iter()
            .find(|(p, _)| p == "22116B")
            .map(|(_, b)| (b[0] as u32) << 8 | b[1] as u32)
    };
    assert_eq!(hz_word(&hz1), Some(0x064E));
    assert_eq!(hz_word(&hz2), Some(0x0993));
}

#[test]
fn decode_ignores_non_periodic_lines() {
    let ids = s197_profile().response_ids;
    let unpack = capture_unpack();
    assert!(decode_periodic_line("201 0B 38 00 00", &ids, &unpack).is_empty());
    assert!(decode_periodic_line("7E8 06 41 0C 3F E3 0D 73", &ids, &unpack).is_empty());
    assert!(decode_periodic_line("STOPPED", &ids, &unpack).is_empty());
    assert!(decode_periodic_line("", &ids, &unpack).is_empty());
    assert!(decode_periodic_line("6A0 08 01 13 00 00 0F F0 00", &ids, &unpack).is_empty());
    let torn = decode_periodic_line("6A0 04 00 00 03 05 1D", &ids, &unpack);
    assert_eq!(torn.len(), 2, "speed+pedal decode, truncated MAF doesn't");
}


/// The payloads that a reply text holds: framed lines assembled per header,
/// lines without a header as they stand, adapter texts left out.
fn text_payloads(text: &str, bus: Bus) -> Vec<Payload> {
    let mut frames: Vec<RxFrame> = Vec::new();
    let mut bare: Vec<Payload> = Vec::new();
    for line in text.split(['\r', '\n']).map(str::trim) {
        if line.is_empty() || classify_line(line).is_some() {
            continue;
        }
        let tokens: Vec<&str> = line.split_whitespace().collect();
        let used = bus.read(&tokens).map_or(0, |(_, n)| n);
        let data: Option<Vec<u8>> = tokens[used..]
            .iter()
            .map(|t| u8::from_str_radix(t, 16).ok())
            .collect();
        let Some(data) = data else { continue };
        if used == 0 {
            bare.push(Payload {
                controller: String::new(),
                bytes: data,
            });
        } else {
            frames.push(RxFrame {
                id: u32::from_str_radix(&tokens[..used].concat(), 16).unwrap(),
                ts_us: None,
                data,
            });
        }
    }
    let mut out: Vec<Payload> = frame_payloads(&frames, bus)
        .into_iter()
        .filter(|a| a.done)
        .map(|a| a.payload)
        .collect();
    out.extend(bare);
    out
}

#[test]
fn probe_ack_parsing() {
    let opens = |text: &str, prefix: &[u8]| {
        text_payloads(text, Bus::new(Addressing::Can11))
            .iter()
            .any(|p| p.bytes.starts_with(prefix))
    };
    assert!(opens("50 03 00 32 01 F4", &[0x50, 0x03]));
    assert!(opens("7E8 06 50 03 00 32 01 F4", &[0x50, 0x03]));
    assert!(opens("6C 03", &[0x6C, 0x03]));
    assert!(opens("7E8 02 6C 03", &[0x6C, 0x03]));
    assert!(!opens("7F 10 11", &[0x50, 0x03]));
    assert!(!opens("7E8 03 7F 10 11", &[0x50, 0x03]));
    assert!(opens("7E8 03 7F 10 11", &[0x7F]));
    assert!(!opens("7F 2C 31", &[0x6C, 0x03]));
    assert!(!opens("NO DATA", &[0x50, 0x03]));
    assert!(!opens("", &[0x50, 0x03]));
}

#[test]
fn a_profile_is_read_from_its_parts() {
    let raw = |rate: Option<&str>, slots: Option<u64>| RawProfile {
        name: Some("x".into()),
        target: Some(" 7e0 ".into()),
        response_ids: Some(vec!["6a0".into(), "".into()]),
        slot_count: slots,
        periodic_rate: rate.map(String::from),
        keepalive_interval_ms: None,
        keepalive_settle_ms: None,
    };
    let p = StreamProfile::from_raw(raw(Some("slow"), Some(2))).unwrap();
    assert_eq!(p.rate_mode, 0x01);
    assert_eq!(p.slot_count, 2);
    assert!(StreamProfile::from_raw(raw(None, Some(0))).is_none());
    assert!(StreamProfile::from_raw(raw(None, Some(257))).is_none());
    assert!(StreamProfile::from_raw(raw(None, None)).is_none());
    assert!(StreamProfile::from_raw(raw(Some("ludicrous"), Some(2))).is_none());
    assert_eq!(SLOT_DATA_BYTES, 7);
}

#[test]
fn every_signal_is_packed_or_dropped() {
    let signals: Vec<(String, u8, Option<String>)> = (0..20)
        .map(|i| (format!("22AB{i:02X}"), (i % 9) as u8, None))
        .collect();
    let mut small = s197_profile();
    small.slot_count = 4;
    let set = build_defines(&signals, &small).unwrap();
    let packed: usize = set.unpack.values().map(|v| v.len()).sum();
    assert_eq!(packed + set.dropped.len(), 20);
    assert_eq!(packed, set.define_commands.len());
    for slot in set.unpack.values() {
        let mut at = 0;
        for s in slot {
            assert_eq!(s.offset, at);
            at += s.len;
        }
        assert!(at <= SLOT_DATA_BYTES);
    }
    let mut slots: Vec<u8> = set.unpack.keys().copied().collect();
    slots.sort();
    assert_eq!(slots, (0..set.slots_used as u8).collect::<Vec<u8>>());
}

#[test]
fn frames_decode_like_lines() {
    let ids = s197_profile().response_ids;
    let unpack = capture_unpack();
    let line = decode_periodic_line("6a0 00 00 80 01 00 0B 4A 4F", &ids, &unpack);
    let bytes = [0x00, 0x00, 0x80, 0x01, 0x00, 0x0B, 0x4A, 0x4F];
    assert_eq!(decode_periodic_frame("6A0", &bytes, &ids, &unpack), line);
    assert_eq!(line.len(), 3);
}

#[test]
fn slots_beyond_a_byte_wrap() {
    let mut profile = s197_profile();
    profile.slot_count = 300;
    let signals: Vec<(String, u8, Option<String>)> =
        (0..258).map(|n| (format!("22{:04X}", 0x1000 + n), 7, None)).collect();
    let d = build_defines(&signals, &profile).unwrap();
    assert_eq!(d.slots_used, 258);
    assert_eq!(d.define_commands[255], "2C01F2FF10FF0107");
    assert_eq!(d.define_commands[256], "2C01F210011000107");
    assert_eq!(d.record_pids[256], (0, "221100".to_string()));
    assert_eq!(d.unpack[&0].len(), 2);
}

#[test]
fn a_signed_byte_makes_a_line_noise() {
    let ids = s197_profile().response_ids;
    let unpack = capture_unpack();
    assert!(decode_periodic_line("6A0 00 00 80 01 00 0B +A 4F", &ids, &unpack).is_empty());
    assert!(!decode_periodic_line("6A0 00 00 80 01 00 0B 4A 4F", &ids, &unpack).is_empty());
}

#[test]
fn recorded_and_dropped_pids_are_the_signals() {
    let signals: Vec<(String, u8, Option<String>)> = (0..30)
        .map(|i| (format!("22ab{:02x}", i % 16), (i % 9) as u8, None))
        .collect();
    let mut small = s197_profile();
    small.slot_count = 4;
    let set = build_defines(&signals, &small).unwrap();
    let mut have: Vec<String> = set.record_pids.iter().map(|(_, p)| p.clone()).collect();
    have.extend(set.dropped.iter().cloned());
    have.sort();
    let mut want: Vec<String> = signals.iter().map(|(p, _, _)| p.to_uppercase()).collect();
    want.sort();
    assert_eq!(have, want);
    for (slot, members) in &set.unpack {
        let recorded: Vec<&String> =
            set.record_pids.iter().filter(|(s, _)| s == slot).map(|(_, p)| p).collect();
        let unpacked: Vec<&String> = members.iter().map(|m| &m.pid).collect();
        assert_eq!(unpacked, recorded);
    }
}

#[test]
fn defined_signals_are_read_back_from_a_frame() {
    let profile = s197_profile();
    let signals = vec![
        ("22AAAA".to_string(), 4u8, None),
        ("22bbbb".to_string(), 2u8, None),
        ("22CCCC".to_string(), 2u8, None),
        ("010C".to_string(), 2u8, None),
    ];
    let set = build_defines(&signals, &profile).unwrap();
    assert!(set.slots_used <= profile.slot_count);
    let id = &profile.response_ids[0];
    let slot0 = [0, 1, 2, 3, 4, 5, 6, 0xAA];
    assert_eq!(
        decode_periodic_frame(id, &slot0, &profile.response_ids, &set.unpack),
        vec![
            ("22AAAA".to_string(), vec![1, 2, 3, 4]),
            ("22BBBB".to_string(), vec![5, 6])
        ]
    );
    let slot1 = [1, 7, 8, 9, 10, 0xAA, 0xAA];
    assert_eq!(
        decode_periodic_frame(id, &slot1, &profile.response_ids, &set.unpack),
        vec![
            ("22CCCC".to_string(), vec![7, 8]),
            ("010C".to_string(), vec![9, 10])
        ]
    );
    assert!(decode_periodic_frame("123", &slot0, &profile.response_ids, &set.unpack).is_empty());
    assert!(decode_periodic_frame(id, &[2, 1], &profile.response_ids, &set.unpack).is_empty());
}

#[test]
fn a_profile_has_between_one_and_256_slots() {
    let json = |n: &str| {
        format!(
            "{{\"t\": {{\"name\": \"n\", \"target\": \"7E0\", \"responseIds\": [\"6A0\"], \"slotCount\": {n}}}}}"
        )
    };
    assert_eq!(parse_stream_profiles(&json("256"))[0].1.slot_count, 256);
    assert_eq!(parse_stream_profiles(&json("1"))[0].1.slot_count, 1);
    assert!(parse_stream_profiles(&json("0")).is_empty());
    assert!(parse_stream_profiles(&json("257")).is_empty());
}
