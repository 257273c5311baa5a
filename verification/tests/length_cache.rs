//! Lengths learned from replies.
use obd_session_rs::addressing::{Addressing, Bus};
use obd_session_rs::length_cache::{observed_len, LengthCache};
use obd_session_rs::link::dvi::codec::RxFrame;
use obd_session_rs::link::dvi::framing::frame_payloads;
use obd_session_rs::link::{classify_line, Payload};

/// The payloads that a reply text holds: framed lines assembled per header,
/// lines without a header as they stand, adapter texts left out.
fn text_payloads(text: &str, bus: Bus) -> Vec<Payload> {
    let mut frames: Vec<RxFrame> = Vec::new();
    let mut bare: Vec<Payload> = Vec::new();
    for line in text.split(['\r', '\n']).map(str::trim) {
        if line.is_empty() || classify_line(line).is_some() {
            continue;
        }
        let tokens: Vec<&str> = line.split_whitespace().collect();
        let used = bus.read(&tokens).map_or(0, |(_, n)| n);
        let data: Option<Vec<u8>> = tokens[used..]
            .iter()
            .map(|t| u8::from_str_radix(t, 16).ok())
            .collect();
        let Some(data) = data else { continue };
        if used == 0 {
            bare.push(Payload {
                controller: String::new(),
                bytes: data,
            });
        } else {
            frames.push(RxFrame {
                id: u32::from_str_radix(&tokens[..used].concat(), 16).unwrap(),
                ts_us: None,
                data,
            });
        }
    }
    let mut out: Vec<Payload> = frame_payloads(&frames, bus)
        .into_iter()
        .filter(|a| a.done)
        .map(|a| a.payload)
        .collect();
    out.extend(bare);
    out
}

/// The length that a reply teaches, framed in the addressing of its first line.
fn observed_data_len(pid: &str, response: &str) -> Option<u8> {
    let sniffed = response
        .replace('\r', "\n")
        .lines()
        .map(str::trim)
        .find(|l| !l.is_empty())
        .and_then(|line| Addressing::sniff(&line.split_whitespace().collect::<Vec<_>>()))
        .unwrap_or(Addressing::Can11);
    observed_len(pid, &text_payloads(response, Bus::new(sniffed)))
}

#[test]
fn mode01_single_frame() {
    assert_eq!(observed_data_len("010C", "7E8 04 41 0C 3F F3"), Some(2));
    assert_eq!(observed_data_len("010D", "7E8 03 41 0D 73"), Some(1));
    assert_eq!(
        observed_data_len("0100", "7E8 06 41 00 BE 1B 30 13"),
        Some(4)
    );
}

#[test]
fn mode22_single_frame() {
    assert_eq!(
        observed_data_len("22F40C", "7E8 05 62 F4 0C 0B 62"),
        Some(2)
    );
    assert_eq!(
        observed_data_len("221E35", "7E8 05 62 1E 35 0F F0"),
        Some(2)
    );
    assert_eq!(observed_data_len("22F40F", "7E8 04 62 F4 0F 4A"), Some(1));
}

#[test]
fn first_controller_line_wins() {
    assert_eq!(
        observed_data_len("0105", "7E8 03 41 05 4A \r7E9 03 41 05 4A"),
        Some(1)
    );
}

#[test]
fn can29_header() {
    assert_eq!(
        observed_data_len("0100", "18 DA F1 10 06 41 00 BF FE B9 93"),
        Some(4)
    );
}

#[test]
fn multi_frame_length_from_assembled_payload() {
    assert_eq!(
        observed_data_len(
            "0178",
            "7E8 10 0B 41 78 0D 0A ED 09\r7E8 21 1A F8 00 00 00 00 00"
        ),
        Some(9)
    );
    assert_eq!(
        observed_data_len("22DE00", "7E8 10 83 62 DE 00 31 5A 56"),
        None
    );
}

#[test]
fn rejects_everything_unlearnable() {
    assert_eq!(observed_data_len("010C", "NO DATA"), None);
    assert_eq!(observed_data_len("22F452", "7E8 03 7F 22 31"), None);
    assert_eq!(observed_data_len("010C", "7E8 03 41 0D 73"), None);
    assert_eq!(
        observed_data_len("0902", "7E8 10 14 49 02 01 31 47 31"),
        None
    );
    assert_eq!(observed_data_len("010C 1", "7E8 04 41 0C 3F F3"), None);
    assert_eq!(observed_data_len("010C|010D", "x|y"), None);
}


#[test]
fn record_get_overwrite() {
    let mut cache = LengthCache::new();
    assert_eq!(cache.get("22F40C"), None);
    cache.record("22F40C", 2);
    assert_eq!(cache.get("22f40c"), Some(2));
    cache.record("22F40C", 3);
    assert_eq!(cache.get("22F40C"), Some(3));
}

#[test]
fn invalidate_drops_entry() {
    let mut cache = LengthCache::new();
    cache.record("010C", 2);
    cache.invalidate("010C");
    assert_eq!(cache.get("010C"), None);
}


#[test]
fn a_saved_cache_is_loaded_again() {
    let mut a = LengthCache::new();
    assert!(a.record("22f40c", 2));
    assert!(!a.record("22F40C", 2));
    assert!(a.seed("010D", 1));
    assert!(!a.seed("010D", 3), "a seed teaches only what is unknown");
    let text = a.save().unwrap();
    let mut b = LengthCache::new();
    b.load(Some(&text));
    assert_eq!(b.get("22F40C"), Some(2));
    assert_eq!(b.get("010D"), Some(1));
    assert!(b.invalidate("22f40c"));
    assert!(!b.invalidate("22f40c"));
    b.load(Some("not json"));
    assert_eq!(b.get("010D"), None);
    b.load(Some("{\"010C\":2}"));
    assert_eq!(b.get("010C"), Some(2));
    b.load(None);
    assert_eq!(b.get("010C"), None);
    assert_eq!(LengthCache::file_name("VIN_A"), "VIN_A.lengths");
}

#[test]
fn vehicles_have_lengths_of_their_own() {
    assert_eq!(LengthCache::file_name("1FA6P8CF0H5"), "1FA6P8CF0H5.lengths");
    assert_ne!(LengthCache::file_name("1FA6P8CF0H5"), LengthCache::file_name("1FA6P8CF0H6"));
}
