//! A link whose transport is the host's. Times are microseconds.
use obd_session_rs::external_platform::{
    bytes_line, host_text, transport_note, write_failed, ByteRoute, ConnectPlan, DeliveryWorker,
    ExternalPlatform, RawRoute, SendRoute, WorkerAction, FALLBACK_TIMEOUT,
};
use obd_session_rs::mock_responder::MockResponder;
use obd_session_rs::platform::{ConnectResult, ConnectionStatus};

/// A link with its delivery worker.
struct Rig {
    p: ExternalPlatform,
    w: DeliveryWorker,
    now: u64,
}

impl Rig {
    fn new() -> Rig {
        Rig {
            p: ExternalPlatform::new(),
            w: DeliveryWorker::new(),
            now: 0,
        }
    }

    fn send(&mut self, command: &str) {
        let msg = self.p.send_command(command);
        let fallback = self.p.fallback;
        self.w.on_message(msg, &mut self.p.injected_error, self.now, fallback);
    }

    /// What the worker does with bytes of the transport.
    fn bytes(&mut self, data: &[u8]) -> Vec<WorkerAction> {
        let mut out = Vec::new();
        for msg in self.p.receive_bytes(data) {
            let fallback = self.p.fallback;
            out.push(self.w.on_message(msg, &mut self.p.injected_error, self.now, fallback));
        }
        out
    }
}

/// The one outcome among the worker's actions.
fn outcome(actions: Vec<WorkerAction>) -> (String, Result<String, String>) {
    let mut found = Vec::new();
    for a in actions {
        match a {
            WorkerAction::Answered { command, text } => found.push((command, Ok(text))),
            WorkerAction::Failed { command, code, .. } => found.push((command, Err(code))),
            _ => {}
        }
    }
    assert_eq!(found.len(), 1);
    found.remove(0)
}

fn lines(actions: Vec<WorkerAction>) -> Vec<String> {
    actions
        .into_iter()
        .filter_map(|a| match a {
            WorkerAction::Line(l) => Some(l),
            _ => None,
        })
        .collect()
}

#[test]
fn lh0_bytes_complete_the_pending_command_in_order() {
    let mut rig = Rig::new();
    rig.send("010C");
    assert!(rig.bytes(b"7E8 04 41").is_empty());
    let (cmd, res) = outcome(rig.bytes(b" 0C 1A F8\r\r>"));
    assert_eq!(cmd, "010C");
    assert_eq!(res, Ok("7E8 04 41 0C 1A F8".to_string()));
    rig.send("010D");
    let (cmd, res) = outcome(rig.bytes(b"7E8 03 41 0D 00\r>"));
    assert_eq!(cmd, "010D");
    assert_eq!(res, Ok("7E8 03 41 0D 00".to_string()));
}

#[test]
fn lh0_no_prompt_fails_with_timeout_and_clears_buffer() {
    let mut rig = Rig::new();
    rig.p.set_fallback_timeout(150_000);
    rig.send("0100");
    assert!(rig.bytes(b"SEARCHING...\r").is_empty());
    assert_eq!(rig.w.wait(0), Some(150_000));
    let fallback = rig.p.fallback;
    let (cmd, res) = outcome(vec![rig.w.on_timeout(&mut rig.p.acc, fallback)]);
    assert_eq!(cmd, "0100");
    assert_eq!(res, Err("TIMEOUT".to_string()));
    rig.send("ATE0");
    let (_, res) = outcome(rig.bytes(b"OK\r>"));
    assert_eq!(res, Ok("OK".to_string()));
}

#[test]
fn lh0_string_path_disarms_the_fallback() {
    let mut rig = Rig::new();
    rig.p.set_fallback_timeout(100_000);
    rig.send("010C");
    assert!(rig.w.wait(0).is_some());
    let mut injected = None;
    rig.w.on_message(
        obd_session_rs::external_platform::WorkerMsg::Disarm,
        &mut injected,
        0,
        100_000,
    );
    assert_eq!(rig.w.wait(400_000), None, "no TIMEOUT after completion");
    assert!(matches!(rig.w.on_timeout(&mut rig.p.acc, 100_000), WorkerAction::Nothing));
}

#[test]
fn lh0_injected_error_replaces_next_response() {
    let mut rig = Rig::new();
    rig.p.inject_error("UNABLE TO CONNECT");
    rig.send("010C");
    let (_, res) = outcome(rig.bytes(b"7E8 04 41 0C 1A F8\r>"));
    assert_eq!(res, Err("UNABLE TO CONNECT".to_string()));
    rig.send("010C");
    let (_, res) = outcome(rig.bytes(b"7E8 04 41 0C 1A F8\r>"));
    assert!(res.is_ok());
}

#[test]
fn lh0_monitor_mode_routes_lines_then_returns_to_prompt() {
    let mut rig = Rig::new();
    rig.p.enter_monitor_mode();
    let mut got = lines(rig.bytes(b"6A0 04 11 22 33 44\r>6A1 04 55 66"));
    got.extend(lines(rig.bytes(b" 77 88\rSTOPPED\r")));
    assert_eq!(got, vec!["6A0 04 11 22 33 44", ">6A1 04 55 66 77 88", "STOPPED"]);
    rig.p.exit_monitor_mode();
    rig.send("ATE0");
    let actions = rig.bytes(b"OK\r>");
    let (cmd, res) = outcome(actions);
    assert_eq!((cmd.as_str(), res), ("ATE0", Ok("OK".to_string())));
}

#[test]
fn test_external_platform_creation() {
    let platform = ExternalPlatform::new();
    assert!(!platform.is_connected());
    assert_eq!(platform.connection_status(), ConnectionStatus::Disconnected);
}

#[test]
fn test_connection_status_update() {
    let mut platform = ExternalPlatform::new();
    platform.update_connection_status(ConnectionStatus::Connected);
    assert!(platform.is_connected());
    platform.update_connection_status(ConnectionStatus::Disconnected);
    assert!(!platform.is_connected());
}

#[test]
fn test_send_command_calls_callback() {
    let mut platform = ExternalPlatform::new();
    platform.send_command("010C");
    assert!(matches!(platform.route_command("010C", None), SendRoute::Host));
}

/// Sends a command to the pretend adapter, whose reply comes back as bytes.
fn exchange(command: &str) -> (String, Result<String, String>) {
    let mut rig = Rig::new();
    let mut adapter = MockResponder::new();
    rig.send(command);
    assert!(matches!(rig.p.route_command(command, None), SendRoute::Host));
    let reply = adapter.generate_response(command);
    outcome(rig.bytes(format!("{reply}\r\r>").as_bytes()))
}

#[test]
fn test_mock_external_platform_integration() {
    let (cmd, result) = exchange("ATZ");
    assert_eq!(cmd, "ATZ");
    assert!(result.is_ok());
    assert_eq!(result.unwrap(), "ELM327 v1.5");
}

#[test]
fn test_mock_external_platform_pid_response() {
    let (cmd, result) = exchange("010C");
    assert_eq!(cmd, "010C");
    assert!(result.is_ok());
    let response = result.unwrap();
    assert!(response.contains("41") && response.contains("0C"));
}

#[test]
fn late_connect_under_a_stale_epoch_is_dropped() {
    let mut platform = ExternalPlatform::new();
    let stale = platform.connect_epoch;
    platform.abandon_pending_connect();
    let err = platform.transport_opened(stale).unwrap_err();
    assert_eq!(err, "connect abandoned");
    assert!(!platform.own_transport);
}

#[test]
fn abandoned_connect_closes_the_link_silently() {
    let mut platform = ExternalPlatform::new();
    let plan = platform.connect_to(true, true, false);
    let ConnectPlan::Open { epoch } = plan else {
        panic!("{plan:?}")
    };
    assert!(platform.transport_opened(epoch).is_ok());
    platform.update_connection_status(ConnectionStatus::Connected);
    assert!(platform.abandon_pending_connect(), "abandoned link is closed");
    assert!(platform.transport_dropped(epoch).is_none(), "abandon is silent");
    assert!(!platform.is_connected());
}

#[test]
fn test_enter_monitor_mode_stores_and_delivers_lines() {
    let mut platform = ExternalPlatform::new();
    assert!(!platform.sink_deliver());
    platform.enter_monitor_mode();
    assert!(platform.sink_deliver());
    platform.exit_monitor_mode();
    assert!(!platform.sink_deliver());
}

#[test]
fn a_lost_link_fails_its_command_once() {
    let mut platform = ExternalPlatform::new();
    platform.update_connection_status(ConnectionStatus::Connected);
    platform.send_command("010C");
    let change = platform.update_connection_status(ConnectionStatus::Disconnected);
    assert_eq!(change.failed.as_deref(), Some("010C"));
    assert!(change.disarm);
    let again = platform.update_connection_status(ConnectionStatus::Disconnected);
    assert!(again.failed.is_none());
}

#[test]
fn disconnecting_fences_the_old_link() {
    let mut platform = ExternalPlatform::new();
    let epoch = platform.connect_epoch;
    platform.transport_opened(epoch).unwrap();
    let (close, _) = platform.disconnect_from();
    assert!(close);
    assert!(platform.transport_dropped(epoch).is_none());
    assert_eq!(platform.connection_status(), ConnectionStatus::Disconnected);
    assert_eq!(ExternalPlatform::disconnect_reason(), "User disconnected");
    assert_eq!(FALLBACK_TIMEOUT, 5_000_000);
}

#[test]
fn connecting_needs_someone_to_connect() {
    let platform = ExternalPlatform::new();
    assert!(matches!(platform.connect_to(false, true, true), ConnectPlan::AskHost));
    assert!(matches!(platform.connect_to(false, true, false), ConnectPlan::Fail(_)));
    assert!(matches!(platform.connect_to(true, false, true), ConnectPlan::Fail(_)));
}

#[test]
fn commands_take_their_route() {
    let mut platform = ExternalPlatform::new();
    assert!(matches!(platform.route_command("X", Some(Ok(None))), SendRoute::Handled));
    let r = platform.route_command("X", Some(Ok(Some(vec![1, 2]))));
    assert!(matches!(r, SendRoute::Bytes(b) if b == vec![1, 2]));
    let r = platform.route_command("X", Some(Err("no".into())));
    assert!(matches!(r, SendRoute::Fail(e) if e == "no"));
    assert!(matches!(platform.write_raw("STMA", true, true), RawRoute::Hook));
    assert!(matches!(platform.write_raw("STMA", false, true), RawRoute::Host));
    assert!(matches!(platform.write_raw("STMA", false, false), RawRoute::Nowhere));
    assert!(matches!(platform.write_bytes(true), ByteRoute::Host));
    assert!(matches!(platform.write_bytes(false), ByteRoute::Fail(_)));
    platform.transport_opened(0).unwrap();
    let r = platform.route_command("ATZ", None);
    assert!(matches!(r, SendRoute::Line(b) if b == b"ATZ\r".to_vec()));
    let r = platform.write_raw("STMA", false, true);
    assert!(matches!(r, RawRoute::Line(b) if b == b"STMA\r".to_vec()));
    assert!(matches!(platform.write_bytes(true), ByteRoute::Own));
}

#[test]
fn a_host_says_how_a_connect_ended() {
    assert!(matches!(
        ExternalPlatform::receive_connect_result(1, None),
        ConnectResult::Connected
    ));
    let r = ExternalPlatform::receive_connect_result(0, Some("x".into()));
    assert!(matches!(r, ConnectResult::Failed { reason } if reason == "x"));
    assert!(matches!(
        ExternalPlatform::receive_connect_result(2, None),
        ConnectResult::Cancelled
    ));
}

#[test]
fn log_texts() {
    assert_eq!(bytes_line(&[0x01, 0xAB]), "01 AB");
    assert_eq!(host_text("a\0b"), "ab");
    assert_eq!(write_failed("x"), "WRITE_FAILED: x");
    assert_eq!(transport_note("ble", "rssi"), "ble: rssi");
}

#[test]
fn binary_frames_take_over() {
    let mut rig = Rig::new();
    rig.p.set_byte_mode(true);
    rig.p.set_frame_timestamps(false);
    let actions = rig.bytes(&[0x20, 0x01, 0x00, 0xDE]);
    assert!(matches!(actions.as_slice(), [WorkerAction::Frame(_)]));
    rig.p.set_byte_mode(false);
    rig.send("ATE0");
    assert_eq!(outcome(rig.bytes(b"OK\r>")).1, Ok("OK".to_string()));
}
