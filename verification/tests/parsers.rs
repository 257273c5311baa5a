//! Readers of monitor tests, monitor status and support masks.
use obd_session_rs::mode06_parser::{parse_mode06, Mode06TestResult};
use obd_session_rs::monitor_status_parser::parse_monitor_status;
use obd_session_rs::pid_support_parser::parse_supported_pids;

#[test]
fn test_empty_data() {
    let result = parse_mode06(&[]);
    assert!(result.test_results.is_empty());
}

#[test]
fn test_incomplete_block() {
    let result = parse_mode06(&[0x01, 0x02, 0x03, 0x04]);
    assert!(result.test_results.is_empty());
}

#[test]
fn test_no_mil_no_dtcs() {
    let result = parse_monitor_status(&[0x00, 0x00, 0x00, 0x00]).unwrap();
    assert!(!result.mil_on);
    assert_eq!(result.dtc_count, 0);
}

#[test]
fn test_diesel_engine_type() {
    let result = parse_monitor_status(&[0x00, 0x08, 0x01, 0x00]).unwrap();
    assert_eq!(result.engine_type, "diesel");
    assert_eq!(result.non_continuous_availability.nmhc_catalyst, Some(true));
    assert_eq!(result.non_continuous_availability.catalyst, None);
}

#[test]
fn test_too_short() {
    assert!(parse_monitor_status(&[0x00, 0x00]).is_none());
    assert!(parse_monitor_status(&[]).is_none());
}

#[test]
fn test_all_zeros() {
    let result = parse_supported_pids(&[0x00, 0x00, 0x00, 0x00], "01", 0x00);
    assert!(result.supported_pids.is_empty());
}

#[test]
fn test_all_ones() {
    let result = parse_supported_pids(&[0xFF, 0xFF, 0xFF, 0xFF], "01", 0x00);
    assert_eq!(result.supported_pids.len(), 32);
    assert_eq!(result.supported_pids[0], "0101");
    assert_eq!(result.supported_pids[31], "0120");
}

#[test]
fn test_short_data() {
    let result = parse_supported_pids(&[0x80], "01", 0x00);
    assert_eq!(result.supported_pids, vec!["0101"]);
}

#[test]
fn test_mode06_0601_single_block() {
    let result = parse_mode06(&[0x01, 0x91, 0x2F, 0x51, 0x8A, 0x32, 0xC8, 0xFF, 0xFF]);
    assert_eq!(
        result.test_results,
        vec![Mode06TestResult {
            mid: 0x01,
            tid: 0x91,
            uasid: 0x2F,
            value: 0x518A,
            min_limit: 0x32C8,
            max_limit: 0xFFFF,
        }]
    );
}

#[test]
fn a_cut_block_is_left_out() {
    let mut data = vec![0x31, 0x93, 0x24, 0x00, 0x00, 0x00, 0x00, 0x00, 0x32];
    data.extend([0x31, 0x99, 0x0A, 0x00, 0x00, 0x00, 0x00, 0x03, 0xE8]);
    data.extend([0x31, 0x99]);
    let result = parse_mode06(&data);
    assert_eq!(result.test_results.len(), 2);
    assert_eq!(result.test_results[0].max_limit, 0x0032);
    assert_eq!(result.test_results[1].tid, 0x99);
    assert_eq!(result.test_results[1].max_limit, 0x03E8);
}

#[test]
fn test_monitor_status_from_mock_7e8() {
    let result = parse_monitor_status(&[0x86, 0x07, 0xEF, 0x80]).unwrap();
    assert!(result.mil_on);
    assert_eq!(result.dtc_count, 6);
    assert_eq!(result.engine_type, "gasoline");
    assert!(result.continuous_monitors.misfire);
    assert!(result.continuous_monitors.fuel_system);
    assert!(result.continuous_monitors.component_monitor);
    assert_eq!(result.non_continuous_availability.catalyst, Some(true));
    assert_eq!(result.non_continuous_availability.evap_system, Some(true));
    assert_eq!(result.non_continuous_availability.egr_system, Some(true));
}

#[test]
fn test_monitor_status_from_mock_7e9() {
    let result = parse_monitor_status(&[0x81, 0x00, 0x00, 0x00]).unwrap();
    assert!(result.mil_on);
    assert_eq!(result.dtc_count, 1);
    assert_eq!(result.engine_type, "gasoline");
    assert!(!result.continuous_monitors.misfire);
}

#[test]
fn test_pid_support_0120() {
    let result = parse_supported_pids(&[0x80, 0x02, 0x20, 0x01], "01", 0x20);
    assert_eq!(result.mode, "01");
    assert_eq!(result.base_offset, 0x20);
    assert_eq!(result.supported_pids, vec!["0121", "012F", "0133", "0140"]);
}

#[test]
fn test_pid_support_0140() {
    let result = parse_supported_pids(&[0x44, 0x00, 0x00, 0x00], "01", 0x40);
    assert_eq!(result.supported_pids, vec!["0142", "0146"]);
}

#[test]
fn test_pid_support_0620() {
    let result = parse_supported_pids(&[0xC0, 0x00, 0x8C, 0xD9], "06", 0x20);
    assert_eq!(result.mode, "06");
    assert!(result.supported_pids.contains(&"0621".to_string()));
    assert!(result.supported_pids.contains(&"0622".to_string()));
}

#[test]
fn a_clear_bit_stands_for_complete() {
    let r = parse_monitor_status(&[0x00, 0x00, 0x01, 0x01]).unwrap();
    assert_eq!(r.non_continuous_availability.catalyst, Some(true));
    assert_eq!(r.non_continuous_completeness.catalyst, Some(false));
    assert_eq!(r.non_continuous_availability.evap_system, Some(false));
    assert_eq!(r.non_continuous_completeness.evap_system, Some(true));
    assert_eq!(r.non_continuous_completeness.pm_filter, None);

    let r = parse_monitor_status(&[0x00, 0x08, 0xFF, 0x40]).unwrap();
    assert_eq!(r.non_continuous_availability.pm_filter, Some(true));
    assert_eq!(r.non_continuous_completeness.pm_filter, Some(false));
    assert_eq!(r.non_continuous_completeness.egr_vvt, Some(true));
    assert_eq!(r.non_continuous_completeness.catalyst, None);
}
