//! The command queue: one command on the wire at a time, in the order in which
//! they came. The state and every decision are here; threads, locks and the
//! clock are the caller's. Times are nanoseconds of one monotonic clock.
use crate::error::SessionError;
use crate::text;
use std::collections::VecDeque;
use vstd::prelude::*;

verus! {

/// Length of the window that the rates look back over.
pub const RATE_WINDOW: u64 = 10_000_000_000;

/// How long a worker parks while the link is held, in milliseconds.
pub const HOLD_PARK_MS: u64 = 50;

/// How long an idle wait sleeps between scans, in milliseconds.
pub const IDLE_SLEEP_MS: u64 = 10;

// ---- statistics ----

/// Counters of command processing.
#[derive(Debug, Clone)]
pub struct CommandProcessorStats {
    pub total_commands: u64,
    pub completed_commands: u64,
    pub failed_commands: u64,
    /// When counting began.
    pub start_time: u64,
    /// Sum of the completion times.
    pub completion_time_total: u128,
    /// How many completion times the sum holds.
    pub completion_time_count: u64,
    pub in_progress_commands: u32,
    /// Delivered signals: a joined exchange counts once per member with data.
    pub completed_signals: u64,
    /// Completions inside the window.
    pub recent_commands: VecDeque<u64>,
    /// Time and member count of each exchange inside the window.
    pub recent_signals: VecDeque<(u64, u64)>,
}

/// The oldest time inside the window; nothing where the clock is younger than
/// the window.
pub open spec fn cutoff_of(now: u64) -> Option<u64> {
    if now < RATE_WINDOW {
        None
    } else {
        Some((now - RATE_WINDOW) as u64)
    }
}

/// Whether a time is inside the window.
pub open spec fn in_window(t: u64, now: u64) -> bool {
    match cutoff_of(now) {
        Some(c) => t >= c,
        None => true,
    }
}

/// Times without the leading ones that are before the window.
pub open spec fn pruned(v: Seq<u64>, now: u64) -> Seq<u64>
    decreases v.len(),
{
    if v.len() > 0 && !in_window(v[0], now) {
        pruned(v.skip(1), now)
    } else {
        v
    }
}

/// Exchanges without the leading ones that are before the window.
pub open spec fn pruned_signals(v: Seq<(u64, u64)>, now: u64) -> Seq<(u64, u64)>
    decreases v.len(),
{
    if v.len() > 0 && !in_window(v[0].0, now) {
        pruned_signals(v.skip(1), now)
    } else {
        v
    }
}

fn window_cutoff(now: u64) -> (r: Option<u64>)
    ensures
        r == cutoff_of(now),
{
    if now < RATE_WINDOW {
        None
    } else {
        Some(now - RATE_WINDOW)
    }
}

fn prune_window(v: &mut VecDeque<u64>, now: u64)
    ensures
        final(v)@ == pruned(old(v)@, now),
{
    if let Some(cutoff) = window_cutoff(now) {
        let ghost start = v@;
        while v.len() > 0 && v[0] < cutoff
            invariant
                cutoff_of(now) == Some(cutoff),
                pruned(v@, now) == pruned(start, now),
            decreases v@.len(),
        {
            let ghost before = v@;
            let _ = v.pop_front();
            assert(v@ =~= before.skip(1));
        }
    }
}

fn prune_signals(v: &mut VecDeque<(u64, u64)>, now: u64)
    ensures
        final(v)@ == pruned_signals(old(v)@, now),
{
    if let Some(cutoff) = window_cutoff(now) {
        let ghost start = v@;
        while v.len() > 0 && v[0].0 < cutoff
            invariant
                cutoff_of(now) == Some(cutoff),
                pruned_signals(v@, now) == pruned_signals(start, now),
            decreases v@.len(),
        {
            let ghost before = v@;
            let _ = v.pop_front();
            assert(v@ =~= before.skip(1));
        }
    }
}

/// How many times are inside the window.
pub open spec fn count_in_window(v: Seq<u64>, now: u64) -> nat
    decreases v.len(),
{
    if v.len() == 0 {
        0
    } else if in_window(v.last(), now) {
        count_in_window(v.drop_last(), now) + 1
    } else {
        count_in_window(v.drop_last(), now)
    }
}

/// How many members the exchanges inside the window had.
pub open spec fn signals_in_window(v: Seq<(u64, u64)>, now: u64) -> nat
    decreases v.len(),
{
    if v.len() == 0 {
        0
    } else if in_window(v.last().0, now) {
        signals_in_window(v.drop_last(), now) + v.last().1 as nat
    } else {
        signals_in_window(v.drop_last(), now)
    }
}

/// The counters at the start.
pub open spec fn fresh_stats(s: CommandProcessorStats, now: u64) -> bool {
    &&& s.total_commands == 0
    &&& s.completed_commands == 0
    &&& s.failed_commands == 0
    &&& s.start_time == now
    &&& s.completion_time_total == 0
    &&& s.completion_time_count == 0
    &&& s.in_progress_commands == 0
    &&& s.completed_signals == 0
    &&& s.recent_commands@.len() == 0
    &&& s.recent_signals@.len() == 0
}

impl CommandProcessorStats {
    /// Counting begins at `now`.
    pub fn new(now: u64) -> (r: Self)
        ensures
            fresh_stats(r, now),
    {
        CommandProcessorStats {
            total_commands: 0,
            completed_commands: 0,
            failed_commands: 0,
            start_time: now,
            completion_time_total: 0,
            completion_time_count: 0,
            in_progress_commands: 0,
            completed_signals: 0,
            recent_commands: VecDeque::new(),
            recent_signals: VecDeque::new(),
        }
    }

    /// How much of the window has passed since counting began.
    pub fn window_covered(&self, now: u64) -> (r: u64)
        ensures
            r == (if now < self.start_time {
                0
            } else if now - self.start_time < RATE_WINDOW {
                now - self.start_time
            } else {
                RATE_WINDOW as int
            }),
    {
        if now < self.start_time {
            0
        } else if now - self.start_time < RATE_WINDOW {
            now - self.start_time
        } else {
            RATE_WINDOW
        }
    }

    /// Exchanges inside the window.
    pub fn recent_exchanges(&self, now: u64) -> (r: usize)
        ensures
            r == count_in_window(self.recent_commands@, now),
    {
        let cutoff = window_cutoff(now);
        let ghost all = self.recent_commands@;
        let mut n: usize = 0;
        let mut i: usize = 0;
        while i < self.recent_commands.len()
            invariant
                i <= self.recent_commands@.len(),
                all == self.recent_commands@,
                cutoff == cutoff_of(now),
                n <= i,
                n == count_in_window(all.take(i as int), now),
            decreases self.recent_commands@.len() - i,
        {
            assert(all.take(i + 1).drop_last() =~= all.take(i as int));
            let inside = match cutoff {
                Some(c) => self.recent_commands[i] >= c,
                None => true,
            };
            if inside {
                n += 1;
            }
            i += 1;
        }
        assert(all.take(i as int) =~= all);
        n
    }

    /// Delivered signals inside the window.
    pub fn recent_updates(&self, now: u64) -> (r: u128)
        ensures
            r == signals_in_window(self.recent_signals@, now),
    {
        let cutoff = window_cutoff(now);
        let ghost all = self.recent_signals@;
        let mut n: u128 = 0;
        let mut i: usize = 0;
        while i < self.recent_signals.len()
            invariant
                i <= self.recent_signals@.len(),
                all == self.recent_signals@,
                cutoff == cutoff_of(now),
                n <= i * 0xFFFF_FFFF_FFFF_FFFF,
                n == signals_in_window(all.take(i as int), now),
            decreases self.recent_signals@.len() - i,
        {
            assert(all.take(i + 1).drop_last() =~= all.take(i as int));
            let inside = match cutoff {
                Some(c) => self.recent_signals[i].0 >= c,
                None => true,
            };
            if inside {
                n += self.recent_signals[i].1 as u128;
            }
            i += 1;
        }
        assert(all.take(i as int) =~= all);
        n
    }

    /// The average completion time; nothing before the first completion. The
    /// count is capped where it outgrows 32 bits.
    pub fn average_completion_time(&self) -> (r: Option<u128>)
        ensures
            r == (if self.completion_time_count == 0 {
                None
            } else if self.completion_time_count > u32::MAX {
                Some((self.completion_time_total / u32::MAX as u128) as u128)
            } else {
                Some((self.completion_time_total / self.completion_time_count as u128) as u128)
            }),
    {
        if self.completion_time_count == 0 {
            None
        } else if self.completion_time_count > u32::MAX as u64 {
            Some(self.completion_time_total / (u32::MAX as u128))
        } else {
            Some(self.completion_time_total / (self.completion_time_count as u128))
        }
    }

    /// Counting begins again at `now`.
    pub fn reset(&mut self, now: u64)
        ensures
            fresh_stats(*final(self), now),
    {
        *self = CommandProcessorStats::new(now);
    }
}

// ---- the processor ----

/// A command in the queue.
#[derive(Debug, Clone)]
pub struct PendingCommand {
    pub command: String,
    pub timeout_ms: u32,
    pub queued_at: u64,
}

/// The command on the wire.
#[derive(Debug)]
pub struct OutstandingCommand {
    pub command: String,
    pub queued_at: u64,
    /// When it was sent.
    pub start_time: u64,
}

/// Times of a completed command.
#[derive(Debug, Clone, Copy, PartialEq, Eq, Structural)]
pub struct CommandTiming {
    /// From the queue to the wire.
    pub queue_time: u64,
    /// From the wire to the answer.
    pub response_time: u64,
    /// From the queue to the answer.
    pub total_time: u64,
}

/// Proof that a response is being handled: while one is held, the processor is
/// not idle. It is handed back to `end_completion`.
pub struct CompletionGuard {
    pub number: usize,
}

/// A pending command as a mathematical value.
#[verifier::ext_equal]
pub struct PendingView {
    pub command: Seq<char>,
    pub timeout_ms: u32,
    pub queued_at: u64,
}

impl View for PendingCommand {
    type V = PendingView;

    open spec fn view(&self) -> PendingView {
        PendingView {
            command: self.command@,
            timeout_ms: self.timeout_ms,
            queued_at: self.queued_at,
        }
    }
}

/// The command on the wire as a mathematical value.
#[verifier::ext_equal]
pub struct OutstandingView {
    pub command: Seq<char>,
    pub queued_at: u64,
    pub start_time: u64,
}

/// The processor as a mathematical value, its counters aside.
#[verifier::ext_equal]
pub struct ProcessorView {
    pub queue: Seq<PendingView>,
    pub running: bool,
    pub max_queue_size: nat,
    pub outstanding: Option<OutstandingView>,
    pub dispatching: bool,
    pub guards: nat,
    pub hold: bool,
    pub activity: u64,
    pub chain_alive: bool,
}

/// The command queue with its one outstanding command.
pub struct CommandProcessor {
    pub queue: VecDeque<PendingCommand>,
    pub running: bool,
    pub max_queue_size: usize,
    pub outstanding_command: Option<OutstandingCommand>,
    /// A command has left the queue and is not on the wire yet.
    pub dispatching: bool,
    /// Responses that are being handled.
    pub completion_guards: usize,
    /// The link is taken by a stream: nothing is sent.
    pub hold_dispatch: bool,
    /// Moves with every queued command.
    pub activity: u64,
    /// A polling chain is alive.
    pub chain_alive: bool,
    pub stats: CommandProcessorStats,
}

impl View for CommandProcessor {
    type V = ProcessorView;

    open spec fn view(&self) -> ProcessorView {
        ProcessorView {
            queue: Seq::new(self.queue@.len(), |i: int| self.queue@[i]@),
            running: self.running,
            max_queue_size: self.max_queue_size as nat,
            outstanding: match self.outstanding_command {
                Some(o) => Some(
                    OutstandingView {
                        command: o.command@,
                        queued_at: o.queued_at,
                        start_time: o.start_time,
                    },
                ),
                None => None,
            },
            dispatching: self.dispatching,
            guards: self.completion_guards as nat,
            hold: self.hold_dispatch,
            activity: self.activity,
            chain_alive: self.chain_alive,
        }
    }
}

/// What the worker does next.
#[derive(Debug)]
pub enum WorkerStep {
    /// The processor was stopped.
    Exit,
    /// The link is held: park and look again.
    Park,
    /// Send this command: `begin_command`, the write, `end_dispatch`.
    Dispatch(PendingCommand),
    /// Wait for the queue.
    WaitForCommand,
    /// Wait for the outstanding command.
    WaitForCompletion,
}

/// What a wait for idleness does next.
#[derive(Debug, Clone, Copy, PartialEq, Eq, Structural)]
pub enum IdleStep {
    Idle,
    TimedOut,
    /// Wait for a completion, at most so long.
    WaitForCompletion { remaining: u64 },
    /// Sleep briefly and look again.
    Sleep,
    /// The outstanding command is done: scan.
    Scan,
}

/// Whether some command is queued, on its way or on the wire.
pub open spec fn has_work(p: ProcessorView) -> bool {
    p.queue.len() > 0 || p.dispatching || p.outstanding is Some
}

/// Whether nothing is under way at all.
pub open spec fn is_idle(p: ProcessorView) -> bool {
    !has_work(p) && p.guards == 0
}

/// Something that happens to the processor.
pub enum ProcessorEvent {
    Queue { pending: PendingView },
    Step,
    Begin { pending: PendingView, now: u64 },
    EndDispatch,
    BeginCompletion,
    EndCompletion,
    Complete { command: Seq<char> },
}

/// The processor after an event.
pub open spec fn after(p: ProcessorView, e: ProcessorEvent) -> ProcessorView {
    match e {
        ProcessorEvent::Queue { pending } => if p.queue.len() >= p.max_queue_size {
            p
        } else {
            ProcessorView {
                queue: p.queue.push(pending),
                activity: if p.activity == u64::MAX {
                    0
                } else {
                    (p.activity + 1) as u64
                },
                ..p
            }
        },
        ProcessorEvent::Step => if p.running && !p.hold && p.outstanding is None && p.queue.len()
            > 0 {
            ProcessorView { queue: p.queue.skip(1), dispatching: true, ..p }
        } else {
            p
        },
        ProcessorEvent::Begin { pending, now } => ProcessorView {
            outstanding: Some(
                OutstandingView {
                    command: pending.command,
                    queued_at: pending.queued_at,
                    start_time: now,
                },
            ),
            ..p
        },
        ProcessorEvent::EndDispatch => ProcessorView { dispatching: false, ..p },
        ProcessorEvent::BeginCompletion => ProcessorView { guards: p.guards + 1, ..p },
        ProcessorEvent::EndCompletion => ProcessorView {
            guards: if p.guards == 0 {
                0
            } else {
                (p.guards - 1) as nat
            },
            ..p
        },
        ProcessorEvent::Complete { command } => if p.outstanding is Some
            && p.outstanding->0.command == command {
            ProcessorView { outstanding: None, ..p }
        } else {
            p
        },
    }
}

impl CommandProcessor {
    /// Whether the outstanding command, if any, is counted and was queued before
    /// it was sent. Every call keeps this but `reset_stats`, which counts anew
    /// whatever is on the wire.
    pub open spec fn counts_outstanding(&self) -> bool {
        self@.outstanding matches Some(o) ==> o.queued_at <= o.start_time
            && self.stats.in_progress_commands > 0
    }

    /// Whether the counters of one more command fit their types, and the
    /// outstanding command, if any, is counted.
    pub open spec fn wf(&self) -> bool {
        &&& self.stats.total_commands < u64::MAX
        &&& self.stats.completed_commands < u64::MAX
        &&& self.stats.completion_time_count < u64::MAX
        &&& self.stats.completion_time_total <= u128::MAX - u64::MAX
        &&& self.stats.in_progress_commands < u32::MAX
        &&& self.counts_outstanding()
    }

    /// An empty queue that holds at most `max_queue_size` commands.
    pub fn new(max_queue_size: usize, now: u64) -> (r: Self)
        ensures
            r@ == (ProcessorView {
                queue: Seq::empty(),
                running: true,
                max_queue_size: max_queue_size as nat,
                outstanding: None,
                dispatching: false,
                guards: 0,
                hold: false,
                activity: 0,
                chain_alive: false,
            }),
            fresh_stats(r.stats, now),
            r.wf(),
    {
        let r = CommandProcessor {
            queue: VecDeque::new(),
            running: true,
            max_queue_size,
            outstanding_command: None,
            dispatching: false,
            completion_guards: 0,
            hold_dispatch: false,
            activity: 0,
            chain_alive: false,
            stats: CommandProcessorStats::new(now),
        };
        assert(r@.queue =~= Seq::empty());
        r
    }

    /// Puts a command at the end of the queue; an error where it is full.
    pub fn queue_command(&mut self, command: String, timeout_ms: u32, now: u64) -> (r: Result<
        (),
        SessionError,
    >)
        ensures
            final(self).stats == old(self).stats,
            final(self)@ == after(
                old(self)@,
                ProcessorEvent::Queue {
                    pending: PendingView { command: command@, timeout_ms, queued_at: now },
                },
            ),
            old(self)@.queue.len() >= old(self)@.max_queue_size ==> (r matches Err(
                SessionError::InternalError(m),
            ) && m@ == "Command queue full"@),
            old(self)@.queue.len() < old(self)@.max_queue_size ==> r is Ok,
            old(self).counts_outstanding() ==> final(self).counts_outstanding(),
    {
        if self.queue.len() >= self.max_queue_size {
            return Err(SessionError::InternalError("Command queue full".to_owned()));
        }
        let ghost before = self@;
        let pending = PendingCommand { command, timeout_ms, queued_at: now };
        let ghost pv = pending@;
        self.queue.push_back(pending);
        self.activity = if self.activity == u64::MAX {
            0
        } else {
            self.activity + 1
        };
        assert(self@.queue =~= before.queue.push(pv));
        Ok(())
    }

    /// Stops the worker; a hold and a polling chain end with it.
    pub fn stop(&mut self)
        ensures
            final(self)@ == (ProcessorView {
                running: false,
                hold: false,
                chain_alive: false,
                ..old(self)@
            }),
            final(self).stats == old(self).stats,
            old(self).counts_outstanding() ==> final(self).counts_outstanding(),
    {
        self.hold_dispatch = false;
        self.chain_alive = false;
        self.running = false;
    }

    /// What the worker does next. A command that leaves the queue counts as
    /// dispatching from the same moment on.
    pub fn next_step(&mut self) -> (r: WorkerStep)
        ensures
            final(self).stats == old(self).stats,
            final(self)@ == after(old(self)@, ProcessorEvent::Step),
            ({
                let p = old(self)@;
                if !p.running {
                    r is Exit
                } else if p.hold {
                    r is Park
                } else if p.outstanding is Some {
                    r is WaitForCompletion
                } else if p.queue.len() == 0 {
                    r is WaitForCommand
                } else {
                    r matches WorkerStep::Dispatch(c) && c@ == p.queue[0]
                }
            }),
            old(self).counts_outstanding() ==> final(self).counts_outstanding(),
    {
        if !self.running {
            return WorkerStep::Exit;
        }
        if self.hold_dispatch {
            return WorkerStep::Park;
        }
        if self.outstanding_command.is_some() {
            return WorkerStep::WaitForCompletion;
        }
        let ghost before = self@;
        match self.queue.pop_front() {
            Some(c) => {
                self.dispatching = true;
                assert(self@.queue =~= before.queue.skip(1));
                WorkerStep::Dispatch(c)
            },
            None => WorkerStep::WaitForCommand,
        }
    }

    /// Puts a command on the wire: it is counted and outstanding before it is
    /// written, so that its answer always finds it.
    pub fn begin_command(&mut self, pending: &PendingCommand, now: u64)
        requires
            old(self).wf(),
            old(self).outstanding_command is None,
            pending.queued_at <= now,
        ensures
            final(self)@ == after(old(self)@, ProcessorEvent::Begin { pending: pending@, now }),
            final(self).stats == (CommandProcessorStats {
                total_commands: (old(self).stats.total_commands + 1) as u64,
                in_progress_commands: (old(self).stats.in_progress_commands + 1) as u32,
                ..old(self).stats
            }),
            final(self).counts_outstanding(),
    {
        self.stats.total_commands = self.stats.total_commands + 1;
        self.stats.in_progress_commands = self.stats.in_progress_commands + 1;
        self.outstanding_command = Some(
            OutstandingCommand {
                command: pending.command.clone(),
                queued_at: pending.queued_at,
                start_time: now,
            },
        );
    }

    /// The write of a dispatched command has returned.
    pub fn end_dispatch(&mut self)
        ensures
            final(self)@ == after(old(self)@, ProcessorEvent::EndDispatch),
            final(self).stats == old(self).stats,
            old(self).counts_outstanding() ==> final(self).counts_outstanding(),
    {
        self.dispatching = false;
    }

    /// Holds or releases the link for a stream.
    pub fn set_hold_dispatch(&mut self, hold: bool)
        ensures
            final(self)@ == (ProcessorView { hold, ..old(self)@ }),
            final(self).stats == old(self).stats,
            old(self).counts_outstanding() ==> final(self).counts_outstanding(),
    {
        self.hold_dispatch = hold;
    }

    /// Whether some command is queued, on its way or on the wire.
    pub fn has_pending_work(&self) -> (r: bool)
        ensures
            r == has_work(self@),
    {
        self.queue.len() > 0 || self.dispatching || self.outstanding_command.is_some()
    }

    /// Records whether the polling chain is alive.
    pub fn set_chain_alive(&mut self, alive: bool)
        ensures
            final(self)@ == (ProcessorView { chain_alive: alive, ..old(self)@ }),
            final(self).stats == old(self).stats,
            old(self).counts_outstanding() ==> final(self).counts_outstanding(),
    {
        self.chain_alive = alive;
    }

    /// Claims the right to start a polling chain: only where none is alive.
    pub fn try_claim_chain(&mut self) -> (r: bool)
        ensures
            r == !old(self)@.chain_alive,
            final(self)@ == (ProcessorView { chain_alive: true, ..old(self)@ }),
            final(self).stats == old(self).stats,
            old(self).counts_outstanding() ==> final(self).counts_outstanding(),
    {
        let free = !self.chain_alive;
        self.chain_alive = true;
        free
    }

    /// A response begins to be handled.
    pub fn begin_completion(&mut self) -> (r: CompletionGuard)
        requires
            old(self).completion_guards < usize::MAX,
        ensures
            final(self)@ == after(old(self)@, ProcessorEvent::BeginCompletion),
            final(self).stats == old(self).stats,
            r.number == final(self)@.guards,
            old(self).counts_outstanding() ==> final(self).counts_outstanding(),
    {
        self.completion_guards = self.completion_guards + 1;
        CompletionGuard { number: self.completion_guards }
    }

    /// A response has been handled.
    pub fn end_completion(&mut self, guard: CompletionGuard)
        requires
            old(self).completion_guards > 0,
        ensures
            final(self)@ == after(old(self)@, ProcessorEvent::EndCompletion),
            final(self).stats == old(self).stats,
            old(self).counts_outstanding() ==> final(self).counts_outstanding(),
    {
        self.completion_guards = self.completion_guards - 1;
    }

    /// A response for `command` arrived: where that is the outstanding command,
    /// it is completed and its times come back; else nothing happens.
    pub fn mark_command_completed(&mut self, command: &str, now: u64) -> (r: Option<CommandTiming>)
        requires
            old(self).wf(),
        ensures
            final(self)@ == after(old(self)@, ProcessorEvent::Complete { command: command@ }),
            ({
                let p = old(self)@;
                let s = old(self).stats;
                if p.outstanding is Some && p.outstanding->0.command == command@ {
                    let o = p.outstanding->0;
                    let response = elapsed(o.start_time, now);
                    let total = elapsed(o.queued_at, now);
                    &&& r == Some(
                        CommandTiming {
                            queue_time: (total - response) as u64,
                            response_time: response,
                            total_time: total,
                        },
                    )
                    &&& response <= total
                    &&& final(self).stats.recent_commands@ == pruned(
                        s.recent_commands@.push(now),
                        now,
                    )
                    &&& final(self).stats == (CommandProcessorStats {
                        completed_commands: (s.completed_commands + 1) as u64,
                        in_progress_commands: (s.in_progress_commands - 1) as u32,
                        completion_time_total: (s.completion_time_total + response) as u128,
                        completion_time_count: (s.completion_time_count + 1) as u64,
                        recent_commands: final(self).stats.recent_commands,
                        ..s
                    })
                } else {
                    &&& r is None
                    &&& final(self).stats == s
                }
            }),
            final(self).counts_outstanding(),
    {
        let (queued_at, start_time) = match &self.outstanding_command {
            Some(o) => if text::same(o.command.as_str(), command) {
                (o.queued_at, o.start_time)
            } else {
                return None;
            },
            None => {
                return None;
            },
        };
        let response: u64 = time_since(start_time, now);
        let total: u64 = time_since(queued_at, now);
        self.stats.completed_commands = self.stats.completed_commands + 1;
        self.stats.in_progress_commands = self.stats.in_progress_commands - 1;
        self.stats.completion_time_total = self.stats.completion_time_total + response as u128;
        self.stats.completion_time_count = self.stats.completion_time_count + 1;
        self.stats.recent_commands.push_back(now);
        prune_window(&mut self.stats.recent_commands, now);
        self.outstanding_command = None;
        Some(
            CommandTiming {
                queue_time: total - response,
                response_time: response,
                total_time: total,
            },
        )
    }

    /// How many commands wait.
    pub fn queue_size(&self) -> (r: usize)
        ensures
            r == self@.queue.len(),
    {
        self.queue.len()
    }

    /// Whether the worker may run.
    pub fn is_running(&self) -> (r: bool)
        ensures
            r == self@.running,
    {
        self.running
    }

    /// Empties the queue.
    pub fn clear_queue(&mut self)
        ensures
            final(self)@ == (ProcessorView { queue: Seq::empty(), ..old(self)@ }),
            final(self).stats == old(self).stats,
            old(self).counts_outstanding() ==> final(self).counts_outstanding(),
    {
        self.queue.clear();
        assert(self@.queue =~= Seq::empty());
    }

    /// Gives up the outstanding command and empties the queue, on a disconnect:
    /// its answer never comes, and the next connect must find the way free. A
    /// hold and a polling chain end with it.
    pub fn abort_outstanding_and_clear(&mut self)
        ensures
            final(self)@ == (ProcessorView {
                queue: Seq::empty(),
                outstanding: None,
                hold: false,
                chain_alive: false,
                ..old(self)@
            }),
            final(self).stats == (CommandProcessorStats {
                in_progress_commands: if old(self)@.outstanding is Some
                    && old(self).stats.in_progress_commands > 0 {
                    (old(self).stats.in_progress_commands - 1) as u32
                } else {
                    old(self).stats.in_progress_commands
                },
                ..old(self).stats
            }),
            final(self).counts_outstanding(),
    {
        self.hold_dispatch = false;
        self.chain_alive = false;
        self.queue.clear();
        if self.outstanding_command.is_some() {
            self.outstanding_command = None;
            if self.stats.in_progress_commands > 0 {
                self.stats.in_progress_commands = self.stats.in_progress_commands - 1;
            }
        }
        assert(self@.queue =~= Seq::empty());
    }

    /// Counts delivered signals; none leaves everything as it is.
    pub fn record_signal_completions(&mut self, n: u64, now: u64)
        requires
            old(self).stats.completed_signals + n <= u64::MAX,
        ensures
            final(self)@ == old(self)@,
            n == 0 ==> final(self).stats == old(self).stats,
            n > 0 ==> final(self).stats.recent_signals@ == pruned_signals(
                old(self).stats.recent_signals@.push((now, n)),
                now,
            ) && final(self).stats == (CommandProcessorStats {
                completed_signals: (old(self).stats.completed_signals + n) as u64,
                recent_signals: final(self).stats.recent_signals,
                ..old(self).stats
            }),
            old(self).counts_outstanding() ==> final(self).counts_outstanding(),
    {
        if n > 0 {
            self.stats.completed_signals = self.stats.completed_signals + n;
            self.stats.recent_signals.push_back((now, n));
            prune_signals(&mut self.stats.recent_signals, now);
        }
    }

    /// The counters.
    pub fn get_stats(&self) -> (r: &CommandProcessorStats)
        ensures
            *r == self.stats,
    {
        &self.stats
    }

    /// Counting begins again at `now`.
    pub fn reset_stats(&mut self, now: u64)
        ensures
            final(self)@ == old(self)@,
            fresh_stats(final(self).stats, now),
            final(self).counts_outstanding() <==> old(self)@.outstanding is None,
    {
        self.stats.reset(now);
    }

    /// The first part of a wait for idleness: the outstanding command is waited
    /// for until the deadline. `timed_out` says that the last wait ran out.
    pub fn wait_outstanding(&self, now: u64, deadline: u64, timed_out: bool) -> (r: IdleStep)
        ensures
            r == (if self@.outstanding is None {
                IdleStep::Scan
            } else if now >= deadline || timed_out {
                IdleStep::TimedOut
            } else {
                IdleStep::WaitForCompletion { remaining: (deadline - now) as u64 }
            }),
    {
        if self.outstanding_command.is_none() {
            IdleStep::Scan
        } else if now >= deadline || timed_out {
            IdleStep::TimedOut
        } else {
            IdleStep::WaitForCompletion { remaining: deadline - now }
        }
    }

    /// The second part of a wait for idleness, one scan. `epoch` is the activity
    /// that was read before the scan: a command that was queued since makes the
    /// scan void.
    pub fn wait_scan(&self, epoch: u64, now: u64, deadline: u64) -> (r: IdleStep)
        ensures
            r == (if is_idle(self@) && self@.activity == epoch {
                IdleStep::Idle
            } else if now >= deadline {
                IdleStep::TimedOut
            } else if self@.outstanding is Some {
                IdleStep::WaitForCompletion { remaining: (deadline - now) as u64 }
            } else {
                IdleStep::Sleep
            }),
    {
        if !self.has_pending_work() && self.completion_guards == 0 && self.activity == epoch {
            IdleStep::Idle
        } else if now >= deadline {
            IdleStep::TimedOut
        } else if self.outstanding_command.is_some() {
            IdleStep::WaitForCompletion { remaining: deadline - now }
        } else {
            IdleStep::Sleep
        }
    }
}

/// Time that has passed; none where the clock reads earlier.
pub open spec fn elapsed(from: u64, now: u64) -> u64 {
    if now < from {
        0
    } else {
        (now - from) as u64
    }
}

fn time_since(from: u64, now: u64) -> (r: u64)
    ensures
        r == elapsed(from, now),
{
    if now < from {
        0
    } else {
        now - from
    }
}

// ---- laws ----

/// A command in transit is never missed: a processor with work stays one with
/// work, until the write of a command returns that is already answered, or the
/// last command is answered.
pub proof fn work_is_never_lost(p: ProcessorView, e: ProcessorEvent)
    requires
        has_work(p),
        e is EndDispatch ==> p.outstanding is Some || p.queue.len() > 0,
        e is Complete ==> p.dispatching || p.queue.len() > 0,
    ensures
        has_work(after(p, e)),
{
}

/// The queue never outgrows its limit.
pub proof fn queue_stays_bounded(p: ProcessorView, e: ProcessorEvent)
    requires
        p.queue.len() <= p.max_queue_size,
    ensures
        after(p, e).queue.len() <= after(p, e).max_queue_size,
{
}

/// A response that is being handled keeps the processor busy from before its
/// command is completed until after its successor is queued, so a live polling
/// chain never looks idle.
pub proof fn a_live_chain_is_never_idle(p: ProcessorView, command: Seq<char>, next: PendingView)
    requires
        p.max_queue_size > 0,
        p.queue.len() < p.max_queue_size,
    ensures
        ({
            let p1 = after(p, ProcessorEvent::BeginCompletion);
            let p2 = after(p1, ProcessorEvent::Complete { command });
            let p3 = after(p2, ProcessorEvent::Queue { pending: next });
            let p4 = after(p3, ProcessorEvent::EndCompletion);
            !is_idle(p1) && !is_idle(p2) && !is_idle(p3) && !is_idle(p4)
        }),
{
}

/// Commands leave the queue in the order in which they entered it: after a
/// queued command, the queue gives out what it gave out before, then that one.
pub proof fn the_queue_is_fifo(p: ProcessorView, c: PendingView)
    requires
        p.queue.len() < p.max_queue_size,
    ensures
        p.queue.len() > 0 ==> after(p, ProcessorEvent::Queue { pending: c }).queue[0] == p.queue[0],
        p.queue.len() == 0 ==> after(p, ProcessorEvent::Queue { pending: c }).queue[0] == c,
        after(p, ProcessorEvent::Queue { pending: c }).queue.last() == c,
{
}

/// What stays after pruning is inside the window, where times were recorded in
/// order.
pub proof fn pruned_times_are_recent(v: Seq<u64>, now: u64)
    requires
        forall|i: int, j: int| 0 <= i <= j < v.len() ==> #[trigger] v[i] <= #[trigger] v[j],
    ensures
        forall|i: int|
            0 <= i < pruned(v, now).len() ==> in_window(#[trigger] pruned(v, now)[i], now),
        pruned(v, now).len() == count_in_window(v, now),
    decreases v.len(),
{
    if v.len() > 0 && !in_window(v[0], now) {
        let rest = v.skip(1);
        assert forall|i: int, j: int| 0 <= i <= j < rest.len() implies #[trigger] rest[i]
            <= #[trigger] rest[j] by {
            assert(rest[i] == v[i + 1] && rest[j] == v[j + 1]);
        }
        pruned_times_are_recent(rest, now);
        lemma_count_front(v, now);
    } else {
        assert forall|i: int| 0 <= i < v.len() implies in_window(#[trigger] v[i], now) by {
            assert(v[0] <= v[i]);
        }
        lemma_count_all(v, now);
    }
}

proof fn lemma_count_front(v: Seq<u64>, now: u64)
    requires
        v.len() > 0,
    ensures
        count_in_window(v, now) == count_in_window(v.skip(1), now) + (if in_window(v[0], now) {
            1nat
        } else {
            0nat
        }),
    decreases v.len(),
{
    if v.len() > 1 {
        lemma_count_front(v.drop_last(), now);
        assert(v.drop_last().skip(1) =~= v.skip(1).drop_last());
    } else {
        assert(v.drop_last() =~= Seq::<u64>::empty());
        assert(v.skip(1) =~= Seq::<u64>::empty());
    }
}

proof fn lemma_count_all(v: Seq<u64>, now: u64)
    requires
        forall|i: int| 0 <= i < v.len() ==> in_window(#[trigger] v[i], now),
    ensures
        count_in_window(v, now) == v.len(),
    decreases v.len(),
{
    if v.len() > 0 {
        let head = v.drop_last();
        assert forall|i: int| 0 <= i < head.len() implies in_window(#[trigger] head[i], now) by {
            assert(head[i] == v[i]);
        }
        lemma_count_all(head, now);
        assert(in_window(v[v.len() - 1], now));
    }
}

/// The window reaches ten seconds back, its first moment counted in.
pub proof fn the_window_is_ten_seconds(t: u64, now: u64)
    ensures
        in_window(t, now) <==> t + 10_000_000_000 >= now,
{
}

/// One more time counts where it is at most ten seconds old, and exchanges
/// count by their members.
pub proof fn recent_times_are_counted(
    v: Seq<u64>,
    t: u64,
    w: Seq<(u64, u64)>,
    members: u64,
    now: u64,
)
    ensures
        count_in_window(v.push(t), now) == count_in_window(v, now) + (if t + 10_000_000_000 >= now {
            1nat
        } else {
            0nat
        }),
        signals_in_window(w.push((t, members)), now) == signals_in_window(w, now) + (if t
            + 10_000_000_000 >= now {
            members as nat
        } else {
            0nat
        }),
        count_in_window(Seq::empty(), now) == 0,
        signals_in_window(Seq::empty(), now) == 0,
{
    assert(v.push(t).drop_last() =~= v);
    assert(w.push((t, members)).drop_last() =~= w);
}

/// Pruning takes off the front only what is older than ten seconds: the rest
/// stays in order, its first entry is recent, and what was recorded just now
/// always stays.
pub proof fn pruning_takes_old_times_only(v: Seq<u64>, now: u64)
    ensures
        pruned(v, now).len() <= v.len(),
        pruned(v, now) == v.skip(v.len() - pruned(v, now).len()),
        forall|i: int|
            0 <= i < v.len() - pruned(v, now).len() ==> #[trigger] v[i] + 10_000_000_000 < now,
        pruned(v, now).len() > 0 ==> pruned(v, now)[0] + 10_000_000_000 >= now,
        v.len() > 0 && v.last() == now ==> pruned(v, now).len() > 0 && pruned(v, now).last() == now,
    decreases v.len(),
{
    if v.len() > 0 && !in_window(v[0], now) {
        let rest = v.skip(1);
        pruning_takes_old_times_only(rest, now);
        let p = pruned(v, now);
        assert(p =~= v.skip(v.len() - p.len()));
        assert forall|i: int| 0 <= i < v.len() - p.len() implies #[trigger] v[i] + 10_000_000_000
            < now by {
            if i > 0 {
                assert(rest[i - 1] == v[i]);
            }
        }
        if v.last() == now {
            assert(rest.len() > 0 && rest.last() == now);
        }
    } else {
        assert(v.skip(0) =~= v);
    }
}

/// Exchanges are pruned as times are: by their own time, whatever they
/// delivered.
pub proof fn pruning_takes_old_exchanges_only(v: Seq<(u64, u64)>, now: u64)
    ensures
        pruned_signals(v, now).len() <= v.len(),
        pruned_signals(v, now) == v.skip(v.len() - pruned_signals(v, now).len()),
        forall|i: int|
            0 <= i < v.len() - pruned_signals(v, now).len() ==> (#[trigger] v[i]).0 + 10_000_000_000
                < now,
        pruned_signals(v, now).len() > 0 ==> pruned_signals(v, now)[0].0 + 10_000_000_000 >= now,
        v.len() > 0 && v.last().0 == now ==> pruned_signals(v, now).len() > 0 && pruned_signals(
            v,
            now,
        ).last() == v.last(),
    decreases v.len(),
{
    if v.len() > 0 && !in_window(v[0].0, now) {
        let rest = v.skip(1);
        pruning_takes_old_exchanges_only(rest, now);
        let p = pruned_signals(v, now);
        assert(p =~= v.skip(v.len() - p.len()));
        assert forall|i: int| 0 <= i < v.len() - p.len() implies (#[trigger] v[i]).0
            + 10_000_000_000 < now by {
            if i > 0 {
                assert(rest[i - 1] == v[i]);
            }
        }
        if v.last().0 == now {
            assert(rest.len() > 0 && rest.last() == v.last());
        }
    } else {
        assert(v.skip(0) =~= v);
    }
}

/// The time since a moment leads from that moment to now; a clock that reads
/// earlier has not moved.
pub proof fn elapsed_time_adds_up(from: u64, now: u64)
    ensures
        from <= now ==> from + elapsed(from, now) == now,
        now <= from ==> elapsed(from, now) == 0,
{
}

/// A command goes the whole way: queued behind the others, taken from the
/// front, put on the wire with the times of its queueing and its sending, and
/// off the wire when its own answer comes, not before.
pub proof fn a_command_goes_its_way(
    p: ProcessorView,
    first: PendingView,
    now: u64,
    answer: Seq<char>,
)
    requires
        p.running,
        !p.hold,
        p.outstanding is None,
        p.queue.len() > 0,
        p.queue[0] == first,
    ensures
        ({
            let taken = after(p, ProcessorEvent::Step);
            let sent = after(taken, ProcessorEvent::Begin { pending: first, now });
            let written = after(sent, ProcessorEvent::EndDispatch);
            let answered = after(written, ProcessorEvent::Complete { command: answer });
            &&& seq![first] + taken.queue == p.queue
            &&& taken.dispatching && taken.outstanding is None
            &&& sent.outstanding is Some && sent.outstanding->0.command == first.command
                && sent.outstanding->0.queued_at == first.queued_at && sent.outstanding->0.start_time
                == now
            &&& sent.dispatching && !written.dispatching
            &&& written.outstanding == sent.outstanding
            &&& answer == first.command ==> answered.outstanding is None
            &&& answer != first.command ==> answered == written
            &&& answered.queue == taken.queue && answered.guards == p.guards
        }),
{
    let taken = after(p, ProcessorEvent::Step);
    assert(seq![first] + taken.queue =~= p.queue);
}

/// Nothing leaves the queue while the link is held, while a command is on the
/// wire, and once the processor was stopped.
pub proof fn when_nothing_is_taken(p: ProcessorView)
    requires
        !p.running || p.hold || p.outstanding is Some || p.queue.len() == 0,
    ensures
        after(p, ProcessorEvent::Step) == p,
{
}

/// A full queue takes nothing; else the activity moves with each command that
/// is queued, so that a scan that began before notices it.
pub proof fn queueing_is_noticed(p: ProcessorView, c: PendingView)
    ensures
        ({
            let q = after(p, ProcessorEvent::Queue { pending: c });
            &&& p.queue.len() >= p.max_queue_size ==> q == p
            &&& p.queue.len() < p.max_queue_size ==> q.activity != p.activity && q.queue == p.queue
                + seq![c] && q.outstanding == p.outstanding && q.guards == p.guards && q.hold
                == p.hold
        }),
{
    let q = after(p, ProcessorEvent::Queue { pending: c });
    if p.queue.len() < p.max_queue_size {
        assert(q.queue =~= p.queue + seq![c]);
    }
}

/// The processor is idle where nothing is queued, under way, on the wire or
/// being handled; handling ends as often as it began.
pub proof fn what_idle_means(p: ProcessorView)
    ensures
        is_idle(p) <==> p.queue.len() == 0 && !p.dispatching && p.outstanding is None && p.guards
            == 0,
        after(after(p, ProcessorEvent::BeginCompletion), ProcessorEvent::EndCompletion) == p,
        !is_idle(after(p, ProcessorEvent::BeginCompletion)),
{
}

/// The window begins ten seconds ago, once the clock has run that long.
pub proof fn where_the_window_begins(now: u64)
    ensures
        cutoff_of(now) is Some <==> now >= 10_000_000_000,
        cutoff_of(now) is Some ==> cutoff_of(now)->0 + 10_000_000_000 == now,
{
}

} // verus!
