//! The command queue. Times are nanoseconds.
use obd_session_rs::command_processor::{
    CommandProcessor, CommandProcessorStats, CommandTiming, IdleStep, PendingCommand, WorkerStep,
    RATE_WINDOW,
};
use obd_session_rs::error::SessionError;
use obd_session_rs::mock_responder::MockResponder;

/// Takes the next command and puts it on the wire.
fn dispatch(p: &mut CommandProcessor, now: u64) -> PendingCommand {
    let step = p.next_step();
    let WorkerStep::Dispatch(c) = step else {
        panic!("{step:?}")
    };
    p.begin_command(&c, now);
    p.end_dispatch();
    c
}

#[test]
fn test_command_queueing() {
    let mut adapter = MockResponder::new();
    let mut processor = CommandProcessor::new(100, 0);
    processor.queue_command("ATZ".to_string(), 1000, 1).unwrap();
    processor.queue_command("ATE0".to_string(), 1000, 2).unwrap();
    assert_eq!(processor.queue_size(), 2);

    let mut answered = Vec::new();
    for now in [10, 20] {
        let c = dispatch(&mut processor, now);
        let response = adapter.generate_response(&c.command);
        assert!(!response.is_empty());
        assert!(processor.mark_command_completed(&c.command, now + 5).is_some());
        answered.push(c.command);
    }
    assert_eq!(answered[0], "ATZ");
    assert_eq!(answered[1], "ATE0");

    assert!(matches!(processor.next_step(), WorkerStep::WaitForCommand));
    processor.stop();
    assert!(!processor.is_running());
    assert!(matches!(processor.next_step(), WorkerStep::Exit));
}

#[test]
fn test_queue_size_limit() {
    let mut processor = CommandProcessor::new(2, 0);
    assert!(processor.queue_command("CMD1".to_string(), 1000, 0).is_ok());
    assert!(processor.queue_command("CMD2".to_string(), 1000, 0).is_ok());
    assert!(processor.queue_command("CMD3".to_string(), 1000, 0).is_err());
    assert_eq!(processor.queue_size(), 2);
}

#[test]
fn test_clear_queue() {
    let mut processor = CommandProcessor::new(10, 0);
    processor.queue_command("CMD1".to_string(), 1000, 0).unwrap();
    processor.queue_command("CMD2".to_string(), 1000, 0).unwrap();
    assert_eq!(processor.queue_size(), 2);
    processor.clear_queue();
    assert_eq!(processor.queue_size(), 0);
}

#[test]
fn a_full_queue_says_so() {
    let mut p = CommandProcessor::new(0, 0);
    let e = p.queue_command("X".to_string(), 1, 0).unwrap_err();
    assert!(matches!(&e, SessionError::InternalError(m) if m == "Command queue full"));
}

#[test]
fn a_completion_is_timed_and_counted() {
    let mut p = CommandProcessor::new(10, 0);
    p.queue_command("010C".to_string(), 1000, 100).unwrap();
    dispatch(&mut p, 150);
    assert_eq!(p.mark_command_completed("010D", 170), None);
    assert_eq!(
        p.mark_command_completed("010C", 180),
        Some(CommandTiming {
            queue_time: 50,
            response_time: 30,
            total_time: 80,
        })
    );
    assert_eq!(p.mark_command_completed("010C", 190), None);
    let s = p.get_stats();
    assert_eq!((s.total_commands, s.completed_commands, s.in_progress_commands), (1, 1, 0));
    assert_eq!(s.average_completion_time(), Some(30));
    assert_eq!(s.recent_exchanges(200), 1);
    assert_eq!(s.recent_exchanges(180 + RATE_WINDOW + 1), 0);
    p.record_signal_completions(6, 200);
    p.record_signal_completions(0, 201);
    assert_eq!(p.get_stats().recent_updates(210), 6);
    assert_eq!(p.get_stats().completed_signals, 6);
    p.reset_stats(300);
    assert_eq!(p.get_stats().total_commands, 0);
    assert_eq!(p.get_stats().average_completion_time(), None);
}

#[test]
fn the_rate_window_is_what_was_covered() {
    let s = CommandProcessorStats::new(5);
    assert_eq!(s.window_covered(5 + RATE_WINDOW / 2), RATE_WINDOW / 2);
    assert_eq!(s.window_covered(5 + 3 * RATE_WINDOW), RATE_WINDOW);
}

#[test]
fn nothing_is_idle_while_work_is_under_way() {
    let mut p = CommandProcessor::new(10, 0);
    assert_eq!(p.wait_scan(p.activity, 0, 100), IdleStep::Idle);
    let epoch = p.activity;
    p.queue_command("A".to_string(), 1, 0).unwrap();
    assert!(p.has_pending_work());
    assert_ne!(p.activity, epoch);
    assert_eq!(p.wait_scan(epoch, 0, 100), IdleStep::Sleep);
    assert_eq!(p.wait_outstanding(0, 100, false), IdleStep::Scan);
    dispatch(&mut p, 1);
    assert_eq!(
        p.wait_outstanding(10, 100, false),
        IdleStep::WaitForCompletion { remaining: 90 }
    );
    assert_eq!(p.wait_outstanding(10, 100, true), IdleStep::TimedOut);
    assert!(matches!(p.next_step(), WorkerStep::WaitForCompletion));
    let guard = p.begin_completion();
    p.mark_command_completed("A", 11);
    assert_eq!(p.wait_scan(p.activity, 12, 100), IdleStep::Sleep);
    p.end_completion(guard);
    assert_eq!(p.wait_scan(p.activity, 12, 100), IdleStep::Idle);
    p.queue_command("B".to_string(), 1, 0).unwrap();
    assert_eq!(p.wait_scan(p.activity, 100, 100), IdleStep::TimedOut);
}

#[test]
fn a_held_link_parks_and_an_abort_clears() {
    let mut p = CommandProcessor::new(10, 0);
    p.queue_command("A".to_string(), 1, 0).unwrap();
    p.set_hold_dispatch(true);
    assert!(matches!(p.next_step(), WorkerStep::Park));
    p.set_hold_dispatch(false);
    dispatch(&mut p, 1);
    p.queue_command("B".to_string(), 1, 0).unwrap();
    p.abort_outstanding_and_clear();
    assert!(!p.has_pending_work());
    assert_eq!(p.get_stats().in_progress_commands, 0);
    assert!(p.try_claim_chain());
    assert!(!p.try_claim_chain());
    p.set_chain_alive(false);
    assert!(p.try_claim_chain());
}

#[test]
fn the_outstanding_command_stays_counted() {
    let mut p = CommandProcessor::new(10, 0);
    p.queue_command("010C".to_string(), 100, 1).unwrap();
    dispatch(&mut p, 2);
    p.queue_command("010D".to_string(), 100, 3).unwrap();
    p.set_hold_dispatch(true);
    p.record_signal_completions(2, 4);
    p.clear_queue();
    p.stop();
    let o = p.outstanding_command.as_ref().unwrap();
    assert!(o.queued_at <= o.start_time);
    assert_eq!(p.get_stats().in_progress_commands, 1);
    p.abort_outstanding_and_clear();
    assert!(p.outstanding_command.is_none());
    assert_eq!(p.get_stats().in_progress_commands, 0);
}
