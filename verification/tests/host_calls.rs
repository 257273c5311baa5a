//! What a host hands over, and what it gets back.
use obd_session_rs::cache::{CacheEntry, VehicleCache};
use obd_session_rs::config::{CommandProcessorConfig, OBDSessionConfig, PIDRegistryConfig};
use obd_session_rs::ffi::{
    available_pids_arg, create_error, create_success, ffi_error_result, nonempty_arg,
    obd_create_subscription_with_run_once, obd_external_update_connection, obd_probe_pids_cached,
    obd_save_probe_results, obd_seed_pid_length, obd_set_subscription_tiers, panic_text, pids_arg,
    probe_answer, subscription_arg, HandleCheck, OBDResult, ProbeResult, SessionKind, TierChoice,
};
use obd_session_rs::ids::parse_uuid_arg;
use obd_session_rs::json_api::message_builder::{
    connection_status_message, obd_data_message, subscription_complete_message,
};
use obd_session_rs::json_api::{MessagePayload, PIDUpdate};
use obd_session_rs::platform::ConnectionStatus;
use obd_session_rs::rate_limit::RateLimitError;

fn cache() -> VehicleCache {
    let mut c = VehicleCache::new("V".into(), 0);
    for (pid, available) in [("010C", true), ("010D", false)] {
        c.entries.insert(
            pid.to_string(),
            CacheEntry {
                raw_response: "x".into(),
                available,
                cached_at: 0,
            },
        );
    }
    c
}

#[test]
fn errors_cross_the_boundary() {
    let e = create_error("bad".into());
    assert_eq!((e.code.code(), e.message.as_deref()), (1, Some("bad")));
    assert!(create_error("a\0b".into()).message.is_none());
    assert_eq!(create_success().code, OBDResult::Success);
    assert_eq!(create_success().code.code(), 0);
    assert!(ffi_error_result().message.is_none());
    assert_eq!(panic_text(Some("boom")), "panic in FFI call: boom");
    assert!(panic_text(None).starts_with("panic in FFI call: "));
}

#[test]
fn handles_are_told_apart() {
    let mock = SessionKind::Mock;
    let external = SessionKind::External;
    assert_ne!(mock.magic(), external.magic());
    assert_eq!(mock.check(Some(mock.magic())), HandleCheck::Valid);
    assert_eq!(mock.check(Some(external.magic())), HandleCheck::Mismatch);
    assert_eq!(external.check(Some(mock.magic())), HandleCheck::Mismatch);
    assert_eq!(mock.check(None), HandleCheck::Null);
    assert_ne!(mock.mismatch_text(), external.mismatch_text());
}

#[test]
fn statuses_are_read() {
    for (n, s) in [
        (0, ConnectionStatus::Connected),
        (1, ConnectionStatus::Disconnected),
        (2, ConnectionStatus::Connecting),
        (3, ConnectionStatus::ConnectionFailed),
        (4, ConnectionStatus::Reconnecting),
    ] {
        assert_eq!(obd_external_update_connection(n).unwrap(), s);
    }
    let e = obd_external_update_connection(9).unwrap_err();
    assert_eq!(e.message.as_deref(), Some("Invalid status code"));
    assert_eq!(ConnectionStatus::Connected.text(), "connected");
}

#[test]
fn identifiers_are_read() {
    let text = "12345678-9abc-def0-1234-56789abcdef0";
    let value = 0x1234_5678_9abc_def0_1234_5678_9abc_def0;
    assert_eq!(parse_uuid_arg(Some(text)), Some(value));
    assert_eq!(parse_uuid_arg(Some("nonsense")), None);
    assert_eq!(parse_uuid_arg(None), None);
    assert_eq!(subscription_arg(Some(text)).unwrap(), value);
    assert!(subscription_arg(Some("nonsense")).is_err());
    assert!(subscription_arg(None).is_err());
}

#[test]
fn lists_and_lengths_are_read() {
    assert_eq!(pids_arg(r#"["010C","010D"]"#).unwrap(), vec!["010C", "010D"]);
    assert!(pids_arg("[1]").is_err());
    assert_eq!(obd_seed_pid_length(0), None);
    assert_eq!(obd_seed_pid_length(64), Some(64));
    assert_eq!(obd_seed_pid_length(65), None);
    assert_eq!(nonempty_arg(Some("".into())), None);
    assert_eq!(nonempty_arg(Some("a".into())), Some("a".into()));
}

#[test]
fn pids_that_run_once() {
    let pids = vec!["010C".to_string(), "0902".to_string()];
    let t = obd_create_subscription_with_run_once(&pids, &vec!["0902".into(), "0904".into()]);
    let t = t.unwrap();
    assert_eq!(t.get("0902"), Some(&Some(1)));
    assert!(!t.has("010C") && !t.has("0904"));
    assert!(obd_create_subscription_with_run_once(&pids, &vec![]).is_none());
}

#[test]
fn tiers_are_read() {
    assert!(matches!(obd_set_subscription_tiers(None), Ok(TierChoice::Defaults)));
    assert!(matches!(obd_set_subscription_tiers(Some("{}")), Ok(TierChoice::Defaults)));
    match obd_set_subscription_tiers(Some(r#"{"010C":1,"0105":8}"#)) {
        Ok(TierChoice::Given(t)) => {
            assert_eq!(t.get("0105"), Some(&8));
            assert_eq!(t.get("010C"), Some(&1));
        }
        other => panic!("{other:?}"),
    }
    let e = obd_set_subscription_tiers(Some(r#"{"010C":300}"#)).unwrap_err();
    assert!(e.starts_with("Failed to parse tiers JSON: "));
}

#[test]
fn a_probe_sorts_its_pids() {
    let pids: Vec<String> = ["010C", "010D", "0105"].iter().map(|s| s.to_string()).collect();
    let a = probe_answer(&pids, Some(&cache()));
    assert_eq!(a.cached_available, vec!["010C"]);
    assert_eq!(a.cached_unavailable, vec!["010D"]);
    assert_eq!(a.uncached, vec!["0105"]);
    assert_eq!(probe_answer(&pids, None).uncached, pids);
    let a = obd_probe_pids_cached(r#"["0105"]"#, Some(&cache())).unwrap();
    assert_eq!(a.uncached, vec!["0105"]);
    let e = obd_probe_pids_cached("{", Some(&cache())).unwrap_err();
    assert!(e.contains("error"), "{e}");
}

#[test]
fn a_saved_probe_is_found() {
    let result = |pid: &str, available: bool| ProbeResult {
        pid: pid.into(),
        raw_response: "41 05 7B".into(),
        available,
    };
    let saved = obd_save_probe_results(
        Some(cache()),
        "other",
        vec![result("0105", true), result("010C", false)],
        vec!["0105".into()],
        9,
    );
    assert_eq!((saved.vin.as_str(), saved.updated_at), ("V", 9));
    assert_eq!(saved.available_pids, vec!["0105"]);
    let e = saved.entries.get("0105").unwrap();
    assert_eq!((e.raw_response.as_str(), e.cached_at), ("41 05 7B", 9));
    let a = probe_answer(&vec!["0105".into(), "010C".into(), "010D".into()], Some(&saved));
    assert_eq!(a.cached_available, vec!["0105"]);
    assert_eq!(a.cached_unavailable, vec!["010C", "010D"]);
    assert!(a.uncached.is_empty());
    assert_eq!(obd_save_probe_results(None, "W", vec![], vec![], 1).vin, "W");
    assert_eq!(available_pids_arg(r#"["010C"]"#).unwrap(), vec!["010C"]);
    let e = available_pids_arg("{}").unwrap_err();
    assert!(e.starts_with("Failed to parse available PIDs: "));
}

#[test]
fn messages_are_built() {
    let m = obd_data_message("010C".into(), "".into(), Some("TIMEOUT".into()), None, 7);
    assert_eq!(m.message_type, "obd_data");
    match &m.payload {
        MessagePayload::OBDData(p) => {
            assert_eq!(p.error_severity.as_deref(), Some("transient"));
            assert_eq!((p.command.as_str(), p.timestamp), ("010C", 7));
        }
        other => panic!("{other:?}"),
    }
    assert_eq!((m.id >> 76) & 0xF, 4, "a random identifier");
    let again = obd_data_message("010C".into(), "".into(), None, None, 7);
    assert_ne!(again.id, m.id);
    match &again.payload {
        MessagePayload::OBDData(p) => assert_eq!(p.error_severity, None),
        other => panic!("{other:?}"),
    }
    let m = connection_status_message(ConnectionStatus::Connected, Some("r".into()), 3);
    assert_eq!(m.message_type, "connection_status");
    match m.payload {
        MessagePayload::ConnectionStatus(p) => {
            assert!(p.connected);
            assert_eq!((p.status.as_str(), p.reason.as_deref(), p.timestamp), ("connected", Some("r"), 3));
        }
        other => panic!("{other:?}"),
    }
    let update = PIDUpdate {
        pid: "010C".into(),
        data: "x".into(),
        timestamp: 1,
        error: None,
        parsed: Some("{\"a\":1}".into()),
    };
    let m = subscription_complete_message(5, vec![update]);
    assert_eq!(m.message_type, "subscription_complete");
    match m.payload {
        MessagePayload::SubscriptionComplete(p) => {
            assert_eq!(p.subscription_id, 5);
            assert_eq!(p.updates.len(), 1);
        }
        other => panic!("{other:?}"),
    }
}

#[test]
fn settings_have_defaults() {
    let c = OBDSessionConfig::default();
    assert_eq!(c.init_commands, vec!["ATE0", "ATH1"]);
    assert_eq!((c.poll_interval_ms, c.max_subscriptions, c.pid_cache_ttl_ms), (100, 100, 5000));
    assert_eq!(CommandProcessorConfig::default().max_queue_size, 1000);
    assert_eq!(PIDRegistryConfig::default().default_cache_ttl_ms, 5000);
    let c = OBDSessionConfig::from_host(None, Some("n".into()), Some("c".into()), Some(r#"["ATZ"]"#));
    assert_eq!(c.init_commands, vec!["ATZ"]);
    assert_eq!(c.session_name, None);
    assert_eq!(c.cache_path.as_deref(), Some("c"));
    let c = OBDSessionConfig::from_host(Some("l".into()), Some("n".into()), None, Some("nonsense"));
    assert_eq!(c.init_commands, vec!["ATE0", "ATH1"]);
    assert_eq!(c.session_name.as_deref(), Some("n"));
}

#[test]
fn rate_limit_errors_have_messages() {
    assert_eq!(RateLimitError::RateLimited.message(), "Rate limited");
    assert_eq!(RateLimitError::AtCapacity.message(), "At capacity");
}
