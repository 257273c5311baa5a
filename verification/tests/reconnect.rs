//! The link that a session would return to.
use obd_session_rs::reconnect::ReconnectState;

#[test]
fn test_clear_forgets_connector() {
    let mut rs: ReconnectState<u8> = ReconnectState::new();
    rs.last_connector_id = Some("AA:BB".to_string());
    assert_eq!(rs.last_connector_id.clone(), Some("AA:BB".to_string()));
    rs.clear_and_cancel();
    assert_eq!(rs.last_connector_id.clone(), None);
}

#[test]
fn the_last_link_is_remembered() {
    let mut rs: ReconnectState<u8> = ReconnectState::new();
    assert!(rs.platform().is_none());
    rs.remember("AA:BB", 1);
    rs.remember("CC:DD", 2);
    assert_eq!(rs.last_connector_id.as_deref(), Some("CC:DD"));
    assert_eq!(rs.platform(), Some(&2));
    rs.clear_and_cancel();
    assert_eq!(rs.platform(), Some(&2), "only the connector is forgotten");
}
