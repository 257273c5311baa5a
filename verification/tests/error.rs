//! Error codes and messages.
use obd_session_rs::error::{
    adapter_errors, error_severity, map_adapter_response_to_error, SessionError, SubscriptionError,
};

#[test]
fn known_transient_code_is_transient() {
    assert_eq!(error_severity("TIMEOUT"), "transient");
    assert_eq!(error_severity("NO_DATA"), "transient");
}

#[test]
fn known_fatal_code_is_fatal() {
    assert_eq!(error_severity("DISCONNECTED"), "fatal");
    assert_eq!(error_severity("NOT_CONNECTED"), "fatal");
}

#[test]
fn unknown_code_is_not_transient() {
    let severity = error_severity("SOME_BRAND_NEW_ADAPTER_ERROR");
    assert_ne!(severity, "transient");
    assert_eq!(severity, "fatal");
}

#[test]
fn adapter_texts_map_to_known_codes() {
    let codes: Vec<&str> = adapter_errors().iter().map(|d| d.code).collect();
    for (text, code) in [
        ("NO DATA", "NO_DATA"),
        ("  can error \r", "CAN_ERROR"),
        ("<DATA ERROR", "DATA_ERROR"),
        ("<RX ERROR", "RX_ERROR"),
        ("BUS BUSY", "BUS_BUSY"),
        ("BUS ERROR", "BUS_ERROR"),
        ("BUFFER FULL", "BUFFER_FULL"),
        ("STOPPED", "STOPPED"),
        ("FC RX TIMEOUT", "FC_RX_TIMEOUT"),
        ("UNABLE TO CONNECT", "UNABLE_TO_CONNECT"),
        ("LV RESET", "LV_RESET"),
        ("ACT ALERT", "ACT_ALERT"),
        ("LP ALERT", "LP_ALERT"),
        ("UART RX OVERFLOW", "UART_RX_OVERFLOW"),
        ("OUT OF MEMORY", "OUT_OF_MEMORY"),
    ] {
        assert_eq!(map_adapter_response_to_error(text), Some(code));
        assert!(codes.contains(&code), "{code}");
    }
    assert_eq!(map_adapter_response_to_error("7E8 03 41 0D 00"), None);
}

#[test]
fn errors_have_messages() {
    assert_eq!(
        SubscriptionError::SubscriptionNotFound(0x1234).message(),
        "Subscription not found: 00000000-0000-0000-0000-000000001234"
    );
    assert_eq!(
        SubscriptionError::SubscriptionNotFound(0xFEDC_BA98_7654_3210_0123_4567_89AB_CDEF).message(),
        "Subscription not found: fedcba98-7654-3210-0123-456789abcdef"
    );
    assert_eq!(SubscriptionError::InvalidPID("01".into()).message(), "Invalid PID: 01");
    assert_eq!(
        SubscriptionError::ControllerNotAvailable("7E0".into()).message(),
        "Controller not available: 7E0"
    );
    assert_eq!(SubscriptionError::AlreadyExists.message(), "Subscription already exists");
    assert_eq!(
        SubscriptionError::NotActive.message(),
        "Operation not allowed on inactive subscription"
    );
    assert_eq!(
        SubscriptionError::PlatformError("x".into()).message(),
        "Subscription platform error: x"
    );
    assert_eq!(
        SessionError::PlatformInitError("x".into()).message(),
        "Platform initialization error: x"
    );
    assert_eq!(SessionError::ThreadSpawnError("x".into()).message(), "Thread spawn error: x");
    assert_eq!(SessionError::ShuttingDown.message(), "Session is shutting down");
    assert_eq!(SessionError::Timeout("x".into()).message(), "Operation timed out: x");
    assert_eq!(SessionError::InternalError("x".into()).message(), "Internal error: x");
}
