//! Replies of the pretend adapter.
use obd_session_rs::mock_responder::{CarRow, CarScanData, MockResponder};

#[test]
fn test_mock_responder_default_responses() {
    let mut responder = MockResponder::new();

    assert_eq!(responder.generate_response("ATZ"), "ELM327 v1.5");
    assert_eq!(responder.generate_response("ATE0"), "OK");

    let response = responder.generate_response("010C");
    assert!(!response.is_empty());
    assert!(response.contains("41") && response.contains("0C"));
}

#[test]
fn test_mock_responder_custom_response() {
    let mut responder = MockResponder::new();
    responder.set_mock_response("CUSTOM", "CUSTOM_RESPONSE");

    assert_eq!(responder.generate_response("CUSTOM"), "CUSTOM_RESPONSE");
}

#[test]
fn test_mock_responder_command_history() {
    let mut responder = MockResponder::new();

    responder.generate_response("ATZ");
    responder.generate_response("010C");

    let history = responder.get_command_history();
    assert_eq!(history.len(), 2);
    assert_eq!(history[0], "ATZ");
    assert_eq!(history[1], "010C");
}

#[test]
fn test_mock_responder_car_scan_data() {
    let mut responder = MockResponder::new();

    let response = responder.generate_response("0100");
    assert!(!response.is_empty());
}

#[test]
fn a_set_reply_comes_first() {
    let mut responder = MockResponder::new();
    responder.set_mock_response("ATZ", "SOMETHING");
    assert_eq!(responder.generate_response("ATZ"), "SOMETHING");
    assert_eq!(responder.generate_response("ATE0"), "OK");
    responder.clear_command_history();
    assert!(responder.get_command_history().is_empty());
    responder.record_command("X");
    assert_eq!(responder.get_command_history(), vec!["X"]);
}

#[test]
fn recorded_replies_are_given_back() {
    let mut responder = MockResponder::new();
    assert!(responder.load_car_scan_data(
        r#"{ "01": { "0C": ["7E8 04 41 0C 1A F8", "7E9 04 41 0C 1A F0"] } }"#
    ));
    assert_eq!(
        responder.generate_response("010C"),
        "7E8 04 41 0C 1A F8\r7E9 04 41 0C 1A F0"
    );
    assert!(!responder.load_car_scan_data("not json"));
}

#[test]
fn only_the_targeted_controller_answers() {
    let mut responder = MockResponder::new();
    responder.set_car_scan_data(CarScanData {
        rows: vec![CarRow {
            mode: "01".into(),
            pid: "0C".into(),
            lines: vec!["7E8 04 41 0C 1A F8".into(), "7E9 04 41 0C 1A F0".into()],
        }],
    });
    assert_eq!(responder.generate_response("ATSH7E1"), "OK");
    assert_eq!(responder.generate_response("010C"), "7E9 04 41 0C 1A F0");
}

#[test]
fn errors_and_delays_are_set() {
    let mut responder = MockResponder::with_delay(20);
    assert_eq!(responder.get_delay(), 20);
    responder.set_delay(0);
    assert_eq!(responder.get_delay(), 0);
    assert!(!responder.should_error("010C"));
    responder.set_mock_error("010C");
    assert!(responder.should_error("010C"));
}

#[test]
fn a_mode_is_two_whole_bytes() {
    let mut responder = MockResponder::new();
    assert!(responder.can_respond("0\u{e4}"), "nothing is recorded");
    assert!(responder.load_car_scan_data(
        r#"{ "01": { "0C": ["7E8 04 41 0C 1A F8"] } }"#
    ));
    assert!(responder.can_respond("010C"));
    assert!(responder.can_respond(" 0 "));
    assert!(responder.can_respond("\u{e4}0C"));
    assert!(!responder.can_respond("0\u{e4}"));
    assert!(!responder.can_respond("\u{20ac}"));
    assert!(responder.can_respond("010C\u{20ac}"), "what follows the mode is free");
    responder.set_mock_response("\u{20ac}", "OK");
    assert!(responder.can_respond("\u{20ac}"));
    assert_eq!(responder.generate_response("\u{20ac}"), "OK");
}
