//! Phases of a connection.
use obd_session_rs::connection_msg::ConnectionMsg;

#[test]
fn test_phase_for_top_level() {
    assert_eq!(
        ConnectionMsg::phase_for(ConnectionMsg::DISCOVERING_CONNECTORS),
        ConnectionMsg::DISCOVERING_CONNECTORS
    );
    assert_eq!(
        ConnectionMsg::phase_for(ConnectionMsg::CONNECTING),
        ConnectionMsg::CONNECTING
    );
    assert_eq!(
        ConnectionMsg::phase_for(ConnectionMsg::CONNECTED),
        ConnectionMsg::CONNECTED
    );
    assert_eq!(
        ConnectionMsg::phase_for(ConnectionMsg::CONNECTION_FAILED),
        ConnectionMsg::CONNECTION_FAILED
    );
}

#[test]
fn test_phase_for_vehicle_identity() {
    assert_eq!(
        ConnectionMsg::phase_for(ConnectionMsg::QUERYING_VIN),
        ConnectionMsg::IDENTIFYING_VEHICLE
    );
    assert_eq!(
        ConnectionMsg::phase_for(ConnectionMsg::CHECKING_CACHE),
        ConnectionMsg::IDENTIFYING_VEHICLE
    );
    assert_eq!(
        ConnectionMsg::phase_for(ConnectionMsg::CACHE_HIT),
        ConnectionMsg::IDENTIFYING_VEHICLE
    );
    assert_eq!(
        ConnectionMsg::phase_for(ConnectionMsg::DISCOVERING_ECUS),
        ConnectionMsg::IDENTIFYING_VEHICLE
    );
    assert_eq!(
        ConnectionMsg::phase_for(ConnectionMsg::QUERYING_SUPPORT_PIDS),
        ConnectionMsg::IDENTIFYING_VEHICLE
    );
    assert_eq!(
        ConnectionMsg::phase_for(ConnectionMsg::SAVING_CACHE),
        ConnectionMsg::IDENTIFYING_VEHICLE
    );
}

#[test]
fn a_phase_stays_its_own_phase() {
    for m in [
        ConnectionMsg::SCAN_ROUND,
        ConnectionMsg::RECONNECTING,
        ConnectionMsg::IDENTIFYING_VEHICLE,
        ConnectionMsg::CACHE_HIT,
        ConnectionMsg::DISCONNECTED,
        "something else",
    ] {
        let phase = ConnectionMsg::phase_for(m);
        assert_eq!(ConnectionMsg::phase_for(phase), phase);
    }
    assert_eq!(ConnectionMsg::phase_for("something else"), "something else");
}
