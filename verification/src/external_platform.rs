//! A link whose transport belongs to the host: what bytes in and commands out
//! do to the link's state, and what the delivery worker makes of them. Calling
//! back, locking and writing are the caller's.
use crate::accumulator;
use crate::accumulator::{AccEvent, AccView, EventView, Mode, ResponseAccumulator};
use crate::link::dvi::codec;
use crate::platform;
use crate::platform::{ConnectResult, ConnectionStatus};
use crate::reconnect::USER_DISCONNECT_REASON;
use crate::text;
use vstd::prelude::*;
use vstd::string::{StrSliceExecFns, StringSliceAdditionalSpecFns};

verus! {

/// How long a command waits for the prompt, in microseconds. It is one value
/// for all commands, not their own timeout.
pub const FALLBACK_TIMEOUT: u64 = 5_000_000;

/// How much of a text a log line shows.
pub const LOG_HEAD: usize = 40;

/// The first characters of a text.
pub open spec fn head_of(s: Seq<char>) -> Seq<char> {
    if s.len() <= LOG_HEAD {
        s
    } else {
        s.take(LOG_HEAD as int)
    }
}

fn head40(s: &str) -> (r: String)
    ensures
        r@ == head_of(s@),
{
    let v = text::chars_of(s);
    if v.len() <= LOG_HEAD {
        assert(s@.len() == v@.len());
        s.to_owned()
    } else {
        let r = text::substring(v.as_slice(), 0, LOG_HEAD);
        assert(r@ =~= s@.take(LOG_HEAD as int));
        r
    }
}

// ---- the delivery worker ----

/// A message for the delivery worker.
#[derive(Debug)]
pub enum WorkerMsg {
    Event(AccEvent),
    /// A command went out: its fallback clock starts.
    Armed(String),
    /// The command was completed in another way.
    Disarm,
    Shutdown,
}

/// What the delivery worker does with a message.
#[derive(Debug)]
pub enum WorkerAction {
    Nothing,
    Exit,
    /// Note what was dropped.
    Dropped(String),
    /// Hand a binary frame to its sink.
    Frame(codec::DviFrame),
    /// Hand a monitor line to its sink.
    Line(String),
    /// Note the text and complete the command with it.
    Answered { command: String, text: String },
    /// Note what was dropped and fail the command.
    Failed { command: String, dropped: String, code: String },
}

/// A message as a mathematical value.
#[verifier::ext_equal]
pub enum MsgView {
    Event(EventView),
    Armed(Seq<char>),
    Disarm,
    Shutdown,
}

/// An action as a mathematical value.
#[verifier::ext_equal]
pub enum ActionView {
    Nothing,
    Exit,
    Dropped(Seq<char>),
    Frame(codec::FrameView),
    Line(Seq<char>),
    Answered { command: Seq<char>, text: Seq<char> },
    Failed { command: Seq<char>, dropped: Seq<char>, code: Seq<char> },
}

impl View for WorkerMsg {
    type V = MsgView;

    open spec fn view(&self) -> MsgView {
        match *self {
            WorkerMsg::Event(e) => MsgView::Event(e@),
            WorkerMsg::Armed(c) => MsgView::Armed(c@),
            WorkerMsg::Disarm => MsgView::Disarm,
            WorkerMsg::Shutdown => MsgView::Shutdown,
        }
    }
}

impl View for WorkerAction {
    type V = ActionView;

    open spec fn view(&self) -> ActionView {
        match *self {
            WorkerAction::Nothing => ActionView::Nothing,
            WorkerAction::Exit => ActionView::Exit,
            WorkerAction::Dropped(t) => ActionView::Dropped(t@),
            WorkerAction::Frame(f) => ActionView::Frame(f@),
            WorkerAction::Line(l) => ActionView::Line(l@),
            WorkerAction::Answered { command, text } => ActionView::Answered {
                command: command@,
                text: text@,
            },
            WorkerAction::Failed { command, dropped, code } => ActionView::Failed {
                command: command@,
                dropped: dropped@,
                code: code@,
            },
        }
    }
}

/// The views of messages.
pub open spec fn msg_views(v: Seq<WorkerMsg>) -> Seq<MsgView> {
    Seq::new(v.len(), |i: int| v[i]@)
}

/// The delivery worker: at most one command waits for its answer.
pub struct DeliveryWorker {
    /// The waiting command and when its fallback clock runs out.
    pub outstanding: Option<(String, u64)>,
}

/// The waiting command as a mathematical value.
pub open spec fn waiting(w: Option<(String, u64)>) -> Option<(Seq<char>, u64)> {
    match w {
        Some((c, d)) => Some((c@, d)),
        None => None,
    }
}

/// What a message makes of the waiting command and an injected error, and what
/// the worker does.
pub open spec fn handled(
    w: Option<(Seq<char>, u64)>,
    injected: Option<Seq<char>>,
    msg: MsgView,
    now: u64,
    fallback: u64,
) -> (Option<(Seq<char>, u64)>, Option<Seq<char>>, ActionView) {
    match msg {
        MsgView::Shutdown => (w, injected, ActionView::Exit),
        MsgView::Armed(c) => (Some((c, (now + fallback) as u64)), injected, ActionView::Nothing),
        MsgView::Disarm => (None, injected, ActionView::Nothing),
        MsgView::Event(EventView::Dropped(t)) => (w, injected, ActionView::Dropped(t)),
        MsgView::Event(EventView::Dvi(f)) => (w, injected, ActionView::Frame(f)),
        MsgView::Event(EventView::Line(l)) => (w, injected, ActionView::Line(l)),
        MsgView::Event(EventView::Response(t)) => match w {
            None => (None, None, ActionView::Dropped("no command waiting: "@ + head_of(t))),
            Some((c, _)) => match injected {
                Some(code) => (
                    None,
                    None,
                    ActionView::Failed {
                        command: c,
                        dropped: "SIMULATED "@ + code + ": "@ + head_of(t),
                        code,
                    },
                ),
                None => (None, None, ActionView::Answered { command: c, text: t }),
            },
        },
    }
}

impl DeliveryWorker {
    /// No command waits.
    pub fn new() -> (r: Self)
        ensures
            r.outstanding is None,
    {
        DeliveryWorker { outstanding: None }
    }

    /// How long the worker waits for a message; without end where no command
    /// waits.
    pub fn wait(&self, now: u64) -> (r: Option<u64>)
        ensures
            r == (match waiting(self.outstanding) {
                Some((_, d)) => Some(
                    if d <= now {
                        0
                    } else {
                        (d - now) as u64
                    },
                ),
                None => None,
            }),
    {
        match &self.outstanding {
            Some((_, d)) => Some(
                if *d <= now {
                    0
                } else {
                    *d - now
                },
            ),
            None => None,
        }
    }

    /// Handles a message. An injected error replaces the next response.
    pub fn on_message(
        &mut self,
        msg: WorkerMsg,
        injected: &mut Option<String>,
        now: u64,
        fallback: u64,
    ) -> (r: WorkerAction)
        requires
            now + fallback <= u64::MAX,
        ensures
            (waiting(final(self).outstanding), text::opt(*final(injected)), r@) == handled(
                waiting(old(self).outstanding),
                text::opt(*old(injected)),
                msg@,
                now,
                fallback,
            ),
    {
        match msg {
            WorkerMsg::Shutdown => WorkerAction::Exit,
            WorkerMsg::Armed(c) => {
                self.outstanding = Some((c, now + fallback));
                WorkerAction::Nothing
            },
            WorkerMsg::Disarm => {
                self.outstanding = None;
                WorkerAction::Nothing
            },
            WorkerMsg::Event(AccEvent::Dropped(t)) => WorkerAction::Dropped(t),
            WorkerMsg::Event(AccEvent::Dvi(f)) => WorkerAction::Frame(f),
            WorkerMsg::Event(AccEvent::Line(l)) => WorkerAction::Line(l),
            WorkerMsg::Event(AccEvent::Response(t)) => {
                let simulated = injected.take();
                match self.outstanding.take() {
                    None => {
                        let head = head40(t.as_str());
                        WorkerAction::Dropped(text::concat("no command waiting: ", head.as_str()))
                    },
                    Some((command, _)) => match simulated {
                        Some(code) => {
                            let head = head40(t.as_str());
                            let mut dropped = text::concat("SIMULATED ", code.as_str());
                            dropped.append(": ");
                            dropped.append(head.as_str());
                            WorkerAction::Failed { command, dropped, code }
                        },
                        None => WorkerAction::Answered { command, text: t },
                    },
                }
            },
        }
    }

    /// The fallback clock ran out: the half-formed buffer is cleared and the
    /// waiting command fails.
    pub fn on_timeout(&mut self, acc: &mut ResponseAccumulator, fallback: u64) -> (r: WorkerAction)
        ensures
            final(self).outstanding is None,
            old(self).outstanding is None ==> r@ == ActionView::Nothing && final(acc)@ == old(acc)@,
            old(self).outstanding matches Some(o) ==> final(acc)@ == accumulator::cleared(
                old(acc)@,
                old(acc)@.mode,
            ) && r@ == (ActionView::Failed {
                command: o.0@,
                dropped: "FALLBACK ("@ + text::decimal((fallback / 1000) as nat)
                    + "ms) (no > prompt): "@ + head_of(
                    text::trim(accumulator::ascii_text(old(acc)@.buffered)),
                ),
                code: "TIMEOUT"@,
            }),
    {
        match self.outstanding.take() {
            None => WorkerAction::Nothing,
            Some((command, _)) => {
                let ghost buffered = acc@.buffered;
                let partial = match acc.flush() {
                    Some(p) => p,
                    None => {
                        assert(accumulator::ascii_text(buffered) =~= Seq::<char>::empty());
                        assert(text::trim(accumulator::ascii_text(buffered))
                            =~= Seq::<char>::empty());
                        String::new()
                    },
                };
                assert(partial@ =~= text::trim(accumulator::ascii_text(buffered)));
                acc.reset();
                let mut dropped = text::concat(
                    "FALLBACK (",
                    text::decimal_text(fallback / 1000).as_str(),
                );
                dropped.append("ms) (no > prompt): ");
                dropped.append(head40(partial.as_str()).as_str());
                WorkerAction::Failed { command, dropped, code: "TIMEOUT".to_owned() }
            },
        }
    }
}

// ---- the platform ----

/// The state of a link whose transport belongs to the host, or to a transport
/// of this library that takes the host's place.
pub struct ExternalPlatform {
    pub connection_status: ConnectionStatus,
    pub pending_command: Option<String>,
    /// The error that replaces the next response.
    pub injected_error: Option<String>,
    /// Monitor lines have a consumer.
    pub monitoring: bool,
    /// A transport of this library writes, not the host.
    pub own_transport: bool,
    /// Moves on with every disconnect and abandoned attempt.
    pub connect_epoch: u64,
    pub acc: ResponseAccumulator,
    pub fallback: u64,
}

/// The link as a mathematical value.
#[verifier::ext_equal]
pub struct PlatformView {
    pub status: ConnectionStatus,
    pub pending: Option<Seq<char>>,
    pub injected: Option<Seq<char>>,
    pub monitoring: bool,
    pub own_transport: bool,
    pub epoch: u64,
    pub acc: AccView,
    pub fallback: u64,
}

impl View for ExternalPlatform {
    type V = PlatformView;

    open spec fn view(&self) -> PlatformView {
        PlatformView {
            status: self.connection_status,
            pending: text::opt(self.pending_command),
            injected: text::opt(self.injected_error),
            monitoring: self.monitoring,
            own_transport: self.own_transport,
            epoch: self.connect_epoch,
            acc: self.acc@,
            fallback: self.fallback,
        }
    }
}

/// What a status change asks for.
#[derive(Debug)]
pub struct StatusChange {
    /// The delivery worker stops waiting.
    pub disarm: bool,
    /// The pending command fails with `DISCONNECTED`.
    pub failed: Option<String>,
}

/// Whether a status change fails the pending command: a link is lost that was
/// up or coming up.
pub open spec fn link_lost(old_status: ConnectionStatus, status: ConnectionStatus) -> bool {
    status == ConnectionStatus::Disconnected && (old_status == ConnectionStatus::Connected
        || old_status == ConnectionStatus::Connecting)
}

/// The link after a status change.
pub open spec fn with_status(p: PlatformView, status: ConnectionStatus) -> PlatformView {
    PlatformView {
        status,
        pending: if link_lost(p.status, status) {
            None
        } else {
            p.pending
        },
        acc: if status == ConnectionStatus::Disconnected {
            accumulator::cleared(p.acc, p.acc.mode)
        } else {
            p.acc
        },
        ..p
    }
}

/// Whether `c` is what a status change asks for.
pub open spec fn change_of(p: PlatformView, status: ConnectionStatus, c: StatusChange) -> bool {
    &&& c.disarm == (status == ConnectionStatus::Disconnected)
    &&& text::opt(c.failed) == (if link_lost(p.status, status) {
        p.pending
    } else {
        None
    })
}

/// The next epoch.
pub open spec fn next_epoch(e: u64) -> u64 {
    if e == u64::MAX {
        0
    } else {
        (e + 1) as u64
    }
}

/// The link without a transport of its own, under the next epoch.
pub open spec fn fenced(p: PlatformView) -> PlatformView {
    PlatformView { own_transport: false, epoch: next_epoch(p.epoch), ..p }
}

/// How a command reaches the wire.
#[derive(Debug)]
pub enum SendRoute {
    /// The dialect answers it by itself.
    Handled,
    /// Write these bytes.
    Bytes(Vec<u8>),
    /// Fail it with this code.
    Fail(String),
    /// Write this line to the library's own transport.
    Line(Vec<u8>),
    /// Ask the host.
    Host,
}

/// What a dialect makes of a command: nothing where no dialect encodes.
pub type Encoded = Option<Result<Option<Vec<u8>>, String>>;

/// Whether `r` is how a command reaches the wire.
pub open spec fn is_route(own_transport: bool, command: &str, e: Encoded, r: SendRoute) -> bool {
    match e {
        Some(Ok(None)) => r is Handled,
        Some(Ok(Some(b))) => r matches SendRoute::Bytes(x) && x@ == b@,
        Some(Err(m)) => r matches SendRoute::Fail(x) && x@ == m@,
        None => if own_transport {
            r matches SendRoute::Line(x) && x@ == command.spec_bytes().push(13)
        } else if command@.contains('\0') {
            r matches SendRoute::Fail(x) && x@ == "ENCODING_ERROR"@
        } else {
            r is Host
        },
    }
}

fn line_bytes(s: &str) -> (r: Vec<u8>)
    ensures
        r@ == s.spec_bytes().push(13),
{
    let mut b = s.as_bytes_vec();
    b.push(13);
    b
}

/// Where a raw line goes.
#[derive(Debug)]
pub enum RawRoute {
    /// To a writer that was installed for raw lines.
    Hook,
    /// To the library's own transport.
    Line(Vec<u8>),
    /// To the host.
    Host,
    Nowhere,
}

/// Where bytes go.
#[derive(Debug)]
pub enum ByteRoute {
    /// To the library's own transport.
    Own,
    /// To the host.
    Host,
    Fail(String),
}

/// How a connect attempt begins.
#[derive(Debug)]
pub enum ConnectPlan {
    /// Open a transport of the library's own under this epoch.
    Open { epoch: u64 },
    /// Ask the host.
    AskHost,
    Fail(String),
}

impl ExternalPlatform {
    /// A link that is not connected.
    pub fn new() -> (r: Self)
        ensures
            r@ == (PlatformView {
                status: ConnectionStatus::Disconnected,
                pending: None,
                injected: None,
                monitoring: false,
                own_transport: false,
                epoch: 0,
                acc: AccView {
                    buffered: Seq::empty(),
                    mode: Mode::Prompt,
                    dvi_pending: Seq::empty(),
                    dvi_timestamps: false,
                },
                fallback: FALLBACK_TIMEOUT,
            }),
    {
        ExternalPlatform {
            connection_status: ConnectionStatus::Disconnected,
            pending_command: None,
            injected_error: None,
            monitoring: false,
            own_transport: false,
            connect_epoch: 0,
            acc: ResponseAccumulator::new(),
            fallback: FALLBACK_TIMEOUT,
        }
    }

    /// Takes bytes of the transport in; the messages are for the delivery
    /// worker, in order.
    pub fn receive_bytes(&mut self, data: &[u8]) -> (r: Vec<WorkerMsg>)
        ensures
            ({
                let (events, acc) = accumulator::fed(old(self)@.acc, data@);
                &&& msg_views(r@) == events.map_values(|e| MsgView::Event(e))
                &&& final(self)@ == (PlatformView { acc, ..old(self)@ })
            }),
    {
        let events = self.acc.feed_bytes(data);
        let ghost all = accumulator::event_views(events@);
        let mut out: Vec<WorkerMsg> = Vec::new();
        for e in it: events
            invariant
                it.seq() == events@,
                all == accumulator::event_views(events@),
                out@.len() == it.index(),
                forall|i: int| 0 <= i < out@.len() ==> (#[trigger] out@[i])@ == MsgView::Event(all[i]),
        {
            out.push(WorkerMsg::Event(e));
        }
        assert(msg_views(out@) =~= all.map_values(|e| MsgView::Event(e)));
        out
    }

    /// The next completed response is dropped and `code` delivered instead.
    pub fn inject_error(&mut self, code: &str)
        ensures
            final(self)@ == (PlatformView { injected: Some(code@), ..old(self)@ }),
    {
        self.injected_error = Some(code.to_owned());
    }

    /// Changes the fallback time, in microseconds.
    pub fn set_fallback_timeout(&mut self, timeout: u64)
        ensures
            final(self)@ == (PlatformView { fallback: timeout, ..old(self)@ }),
    {
        self.fallback = timeout;
    }

    /// How the host says a connect attempt ended: 1 is connected, 0 failed,
    /// anything else cancelled.
    pub fn receive_connect_result(success: i32, error_message: Option<String>) -> (r: ConnectResult)
        ensures
            r@ == (if success == 1 {
                platform::ResultView::Connected
            } else if success == 0 {
                platform::ResultView::Failed {
                    reason: match error_message {
                        Some(m) => m@,
                        None => "Unknown error"@,
                    },
                }
            } else {
                platform::ResultView::Cancelled
            }),
    {
        if success == 1 {
            ConnectResult::Connected
        } else if success == 0 {
            ConnectResult::Failed {
                reason: match error_message {
                    Some(m) => m,
                    None => "Unknown error".to_owned(),
                },
            }
        } else {
            ConnectResult::Cancelled
        }
    }

    /// The link's status changes. A lost link clears the half-formed buffer and
    /// fails the pending command, also where it was still coming up.
    pub fn update_connection_status(&mut self, status: ConnectionStatus) -> (r: StatusChange)
        ensures
            final(self)@ == with_status(old(self)@, status),
            change_of(old(self)@, status, r),
    {
        let lost = status == ConnectionStatus::Disconnected;
        if lost {
            self.acc.reset();
        }
        let before = self.connection_status;
        self.connection_status = status;
        let failed = if lost && (before == ConnectionStatus::Connected || before
            == ConnectionStatus::Connecting) {
            self.pending_command.take()
        } else {
            None
        };
        StatusChange { disarm: lost, failed }
    }

    /// A command goes out: it is pending, and the message starts its fallback
    /// clock before anything is written.
    pub fn send_command(&mut self, command: &str) -> (r: WorkerMsg)
        ensures
            final(self)@ == (PlatformView { pending: Some(command@), ..old(self)@ }),
            r@ == MsgView::Armed(command@),
    {
        self.pending_command = Some(command.to_owned());
        WorkerMsg::Armed(command.to_owned())
    }

    /// How a command reaches the wire; a dialect that encodes comes first.
    pub fn route_command(&self, command: &str, encoded: Encoded) -> (r: SendRoute)
        ensures
            is_route(self@.own_transport, command, encoded, r),
    {
        match encoded {
            Some(Ok(None)) => SendRoute::Handled,
            Some(Ok(Some(b))) => SendRoute::Bytes(b),
            Some(Err(m)) => SendRoute::Fail(m),
            None => if self.own_transport {
                SendRoute::Line(line_bytes(command))
            } else if text::has_nul(command) {
                SendRoute::Fail("ENCODING_ERROR".to_owned())
            } else {
                SendRoute::Host
            },
        }
    }

    /// Whether the link is connected.
    pub fn is_connected(&self) -> (r: bool)
        ensures
            r == (self@.status == ConnectionStatus::Connected),
    {
        self.connection_status == ConnectionStatus::Connected
    }

    /// The link's status.
    pub fn connection_status(&self) -> (r: ConnectionStatus)
        ensures
            r == self@.status,
    {
        self.connection_status
    }

    /// How a connect attempt begins: the library's own transports never involve
    /// the host. `has_handle` says that the transport can report back.
    pub fn connect_to(&self, own_route: bool, has_handle: bool, has_host: bool) -> (r: ConnectPlan)
        ensures
            if own_route {
                if has_handle {
                    r matches ConnectPlan::Open { epoch } && epoch == self@.epoch
                } else {
                    r matches ConnectPlan::Fail(m) && m@
                        == "platform has no self handle (attach_self not called)"@
                }
            } else if has_host {
                r is AskHost
            } else {
                r matches ConnectPlan::Fail(m) && m@ == "No connect callback configured"@
            },
    {
        if own_route {
            if has_handle {
                ConnectPlan::Open { epoch: self.connect_epoch }
            } else {
                ConnectPlan::Fail(
                    "platform has no self handle (attach_self not called)".to_owned(),
                )
            }
        } else if has_host {
            ConnectPlan::AskHost
        } else {
            ConnectPlan::Fail("No connect callback configured".to_owned())
        }
    }

    /// A transport of the library's own came up for an attempt of `epoch`. Where
    /// that attempt was abandoned, the transport is to be closed.
    pub fn transport_opened(&mut self, epoch: u64) -> (r: Result<(), String>)
        ensures
            old(self)@.epoch == epoch ==> r is Ok && final(self)@ == (PlatformView {
                own_transport: true,
                acc: accumulator::cleared(old(self)@.acc, old(self)@.acc.mode),
                ..old(self)@
            }),
            old(self)@.epoch != epoch ==> (r matches Err(m) && m@ == "connect abandoned"@
                && final(self)@ == old(self)@),
    {
        if self.connect_epoch != epoch {
            return Err("connect abandoned".to_owned());
        }
        self.acc.reset();
        self.own_transport = true;
        Ok(())
    }

    /// A transport of an attempt of `epoch` reports that its link dropped. The
    /// echo of a link that was closed here is ignored.
    pub fn transport_dropped(&mut self, epoch: u64) -> (r: Option<StatusChange>)
        ensures
            old(self)@.epoch != epoch ==> r is None && final(self)@ == old(self)@,
            old(self)@.epoch == epoch ==> (r matches Some(c) && change_of(
                old(self)@,
                ConnectionStatus::Disconnected,
                c,
            ) && final(self)@ == with_status(
                PlatformView { own_transport: false, ..old(self)@ },
                ConnectionStatus::Disconnected,
            )),
    {
        if self.connect_epoch != epoch {
            return None;
        }
        self.own_transport = false;
        Some(self.update_connection_status(ConnectionStatus::Disconnected))
    }

    fn fence(&mut self) -> (r: bool)
        ensures
            final(self)@ == fenced(old(self)@),
            r == old(self)@.own_transport,
    {
        self.connect_epoch = if self.connect_epoch == u64::MAX {
            0
        } else {
            self.connect_epoch + 1
        };
        let was = self.own_transport;
        self.own_transport = false;
        was
    }

    /// The session gave up on a connect attempt. Where a transport had just come
    /// up, it is to be closed; the status follows, and nobody is told.
    pub fn abandon_pending_connect(&mut self) -> (r: bool)
        ensures
            r == old(self)@.own_transport,
            final(self)@ == (PlatformView {
                status: if old(self)@.own_transport {
                    ConnectionStatus::Disconnected
                } else {
                    old(self)@.status
                },
                ..fenced(old(self)@)
            }),
    {
        let close = self.fence();
        if close {
            self.connection_status = ConnectionStatus::Disconnected;
        }
        close
    }

    /// The user disconnects. The first part of the result says that the
    /// library's own transport is to be closed; else the host is asked to.
    pub fn disconnect_from(&mut self) -> (r: (bool, StatusChange))
        ensures
            r.0 == old(self)@.own_transport,
            change_of(old(self)@, ConnectionStatus::Disconnected, r.1),
            final(self)@ == with_status(fenced(old(self)@), ConnectionStatus::Disconnected),
    {
        let close = self.fence();
        let change = self.update_connection_status(ConnectionStatus::Disconnected);
        (close, change)
    }

    /// The reason that is given for a disconnect by the user.
    pub fn disconnect_reason() -> (r: &'static str)
        ensures
            r@ == USER_DISCONNECT_REASON@,
    {
        USER_DISCONNECT_REASON
    }

    /// Monitor lines have a consumer now: bytes are cut into lines.
    pub fn enter_monitor_mode(&mut self)
        ensures
            final(self)@ == (PlatformView {
                monitoring: true,
                acc: accumulator::cleared(old(self)@.acc, Mode::Line),
                ..old(self)@
            }),
    {
        self.monitoring = true;
        self.acc.set_mode(Mode::Line);
    }

    /// Back to request and response.
    pub fn exit_monitor_mode(&mut self)
        ensures
            final(self)@ == (PlatformView {
                monitoring: false,
                acc: accumulator::cleared(old(self)@.acc, Mode::Prompt),
                ..old(self)@
            }),
    {
        self.monitoring = false;
        self.acc.set_mode(Mode::Prompt);
    }

    /// Whether a captured line has a consumer; it is dropped otherwise.
    pub fn sink_deliver(&self) -> (r: bool)
        ensures
            r == self@.monitoring,
    {
        self.monitoring
    }

    /// Switches between binary frames and text.
    pub fn set_byte_mode(&mut self, on: bool)
        ensures
            final(self)@ == (PlatformView {
                acc: accumulator::cleared(
                    old(self)@.acc,
                    if on {
                        Mode::Dvi
                    } else {
                        Mode::Prompt
                    },
                ),
                ..old(self)@
            }),
    {
        self.acc.set_mode(
            if on {
                Mode::Dvi
            } else {
                Mode::Prompt
            },
        );
    }

    /// Whether binary receive frames carry a timestamp.
    pub fn set_frame_timestamps(&mut self, on: bool)
        ensures
            final(self)@ == (PlatformView {
                acc: AccView { dvi_timestamps: on, ..old(self)@.acc },
                ..old(self)@
            }),
    {
        self.acc.set_dvi_timestamps(on);
    }

    /// Where bytes go.
    pub fn write_bytes(&self, has_host_writer: bool) -> (r: ByteRoute)
        ensures
            if self@.own_transport {
                r is Own
            } else if has_host_writer {
                r is Host
            } else {
                r matches ByteRoute::Fail(m) && m@ == "no byte writer registered"@
            },
    {
        if self.own_transport {
            ByteRoute::Own
        } else if has_host_writer {
            ByteRoute::Host
        } else {
            ByteRoute::Fail("no byte writer registered".to_owned())
        }
    }

    /// Where a raw line goes, past the command queue.
    pub fn write_raw(&self, line: &str, has_hook: bool, has_host_writer: bool) -> (r: RawRoute)
        ensures
            if has_hook {
                r is Hook
            } else if self@.own_transport {
                r matches RawRoute::Line(b) && b@ == line.spec_bytes().push(13)
            } else if has_host_writer && !line@.contains('\0') {
                r is Host
            } else {
                r is Nowhere
            },
    {
        if has_hook {
            RawRoute::Hook
        } else if self.own_transport {
            RawRoute::Line(line_bytes(line))
        } else if has_host_writer && !text::has_nul(line) {
            RawRoute::Host
        } else {
            RawRoute::Nowhere
        }
    }
}

/// Bytes in hexadecimal, two digits each, with spaces between.
pub open spec fn hex_line(b: Seq<u8>) -> Seq<char>
    decreases b.len(),
{
    if b.len() == 0 {
        Seq::empty()
    } else if b.len() == 1 {
        text::hex_padded(b[0] as nat, 2)
    } else {
        hex_line(b.drop_last()) + " "@ + text::hex_padded(b.last() as nat, 2)
    }
}

/// Bytes for the wire log.
pub fn bytes_line(b: &[u8]) -> (r: String)
    ensures
        r@ == hex_line(b@),
{
    let mut out = String::new();
    let mut i: usize = 0;
    assert(out@ =~= hex_line(b@.take(0)));
    while i < b.len()
        invariant
            i <= b@.len(),
            out@ == hex_line(b@.take(i as int)),
        decreases b@.len() - i,
    {
        assert(b@.take(i + 1).drop_last() =~= b@.take(i as int));
        if i > 0 {
            out.append(" ");
        }
        text::push_hex(&mut out, b[i] as u32, 2);
        assert(out@ =~= hex_line(b@.take(i + 1)));
        i += 1;
    }
    assert(b@.take(i as int) =~= b@);
    out
}

/// A text without NUL characters.
pub open spec fn without_nul(s: Seq<char>) -> Seq<char>
    decreases s.len(),
{
    if s.len() == 0 {
        s
    } else if s.last() == '\0' {
        without_nul(s.drop_last())
    } else {
        without_nul(s.drop_last()).push(s.last())
    }
}

/// A text for a host that ends texts at NUL.
pub fn host_text(s: &str) -> (r: String)
    ensures
        r@ == without_nul(s@),
{
    let v = text::chars_of(s);
    let mut out = String::new();
    let mut i: usize = 0;
    assert(out@ =~= without_nul(v@.take(0)));
    while i < v.len()
        invariant
            i <= v@.len(),
            out@ == without_nul(v@.take(i as int)),
        decreases v@.len() - i,
    {
        assert(v@.take(i + 1).drop_last() =~= v@.take(i as int));
        if v[i] != '\0' {
            out.push(v[i]);
        }
        i += 1;
    }
    assert(v@.take(i as int) =~= v@);
    out
}

/// The failure code of a write that did not succeed.
pub fn write_failed(error: &str) -> (r: String)
    ensures
        r@ == "WRITE_FAILED: "@ + error@,
{
    text::concat("WRITE_FAILED: ", error)
}

/// The log line of a host's note.
pub fn transport_note(kind: &str, note: &str) -> (r: String)
    ensures
        r@ == kind@ + ": "@ + note@,
{
    let mut s = text::concat(kind, ": ");
    s.append(note);
    s
}

// ---- laws ----

/// Every armed command has one outcome: once it is answered or failed, a
/// further response is dropped.
pub proof fn one_outcome_per_command(
    w: Option<(Seq<char>, u64)>,
    injected: Option<Seq<char>>,
    first: Seq<char>,
    second: Seq<char>,
    now: u64,
    fallback: u64,
)
    ensures
        ({
            let a = handled(w, injected, MsgView::Event(EventView::Response(first)), now, fallback);
            let b = handled(a.0, a.1, MsgView::Event(EventView::Response(second)), now, fallback);
            b.2 is Dropped
        }),
{
}

/// A command that was completed in another way is neither answered nor failed
/// by what comes after.
pub proof fn disarmed_commands_are_over(
    w: Option<(Seq<char>, u64)>,
    injected: Option<Seq<char>>,
    msg: MsgView,
    now: u64,
    fallback: u64,
)
    requires
        !(msg is Armed),
    ensures
        ({
            let a = handled(w, injected, MsgView::Disarm, now, fallback);
            let b = handled(a.0, a.1, msg, now, fallback);
            b.0 is None && !(b.2 is Answered) && !(b.2 is Failed)
        }),
{
}

/// An injected error replaces one response only.
pub proof fn an_injected_error_strikes_once(
    command: Seq<char>,
    code: Seq<char>,
    reply: Seq<char>,
    now: u64,
    fallback: u64,
)
    ensures
        ({
            let a = handled(None, Some(code), MsgView::Armed(command), now, fallback);
            let b = handled(a.0, a.1, MsgView::Event(EventView::Response(reply)), now, fallback);
            let c = handled(b.0, b.1, MsgView::Armed(command), now, fallback);
            let d = handled(c.0, c.1, MsgView::Event(EventView::Response(reply)), now, fallback);
            &&& b.2 is Failed && b.2->code == code
            &&& d.2 == (ActionView::Answered { command, text: reply })
        }),
{
}

/// An attempt that was abandoned, or cut short by a disconnect, never gets the
/// link: its epoch is over.
pub proof fn abandoned_attempts_stay_out(p: PlatformView)
    ensures
        fenced(p).epoch != p.epoch,
        with_status(fenced(p), ConnectionStatus::Disconnected).epoch != p.epoch,
{
}

/// A lost link fails its pending command once: a second report fails nothing.
pub proof fn a_lost_link_fails_once(p: PlatformView)
    ensures
        ({
            let q = with_status(p, ConnectionStatus::Disconnected);
            !link_lost(q.status, ConnectionStatus::Disconnected)
        }),
{
}

/// A log line shows a text from its beginning, forty characters at most, and
/// all of a shorter one.
pub proof fn a_head_is_the_beginning(s: Seq<char>)
    ensures
        head_of(s).len() <= 40,
        text::starts_with(s, head_of(s)),
        s.len() <= 40 ==> head_of(s) == s,
        s.len() >= 40 ==> head_of(s).len() == 40,
{
    if s.len() <= 40 {
        assert(s.take(s.len() as int) =~= s);
    } else {
        assert(s.take(head_of(s).len() as int) =~= head_of(s));
    }
}

/// A response answers the command that waits, with its own text; the clock of a
/// command runs out so long after it went out; and nothing but a response, a new
/// command or a disarming ends the waiting.
pub proof fn a_response_answers_the_waiting_command(
    command: Seq<char>,
    reply: Seq<char>,
    deadline: u64,
    w: Option<(Seq<char>, u64)>,
    injected: Option<Seq<char>>,
    msg: MsgView,
    now: u64,
    fallback: u64,
)
    requires
        now + fallback <= u64::MAX,
    ensures
        ({
            let answered = handled(
                Some((command, deadline)),
                None,
                MsgView::Event(EventView::Response(reply)),
                now,
                fallback,
            );
            &&& answered.0 is None
            &&& answered.2 is Answered && answered.2->Answered_command == command
                && answered.2->text == reply
        }),
        ({
            let armed = handled(w, injected, MsgView::Armed(command), now, fallback);
            &&& armed.0 is Some && (armed.0->0).0 == command && (armed.0->0).1 == now + fallback
            &&& armed.1 == injected && armed.2 is Nothing
        }),
        ({
            let other = handled(w, injected, msg, now, fallback);
            &&& msg is Shutdown <==> other.2 is Exit
            &&& other.2 is Answered ==> w is Some && injected is None
            &&& other.2 is Failed ==> w is Some && injected is Some
            &&& msg is Shutdown || (msg is Event && !(msg->Event_0 is Response)) ==> other.0 == w
                && other.1 == injected
            &&& msg is Event && msg->Event_0 is Line ==> other.2 == ActionView::Line(
                msg->Event_0->Line_0,
            )
            &&& msg is Event && msg->Event_0 is Dvi ==> other.2 == ActionView::Frame(
                msg->Event_0->Dvi_0,
            )
        }),
{
}

/// A link is lost where it was up or coming up and is down: then the pending
/// command fails, and not otherwise. Any report of a link that is down empties
/// the buffers; the mode, the epoch and the transport stay.
pub proof fn what_a_status_does(p: PlatformView, status: ConnectionStatus, c: StatusChange)
    requires
        change_of(p, status, c),
    ensures
        ({
            let q = with_status(p, status);
            let down = status == ConnectionStatus::Disconnected;
            &&& q.status == status
            &&& c.disarm <==> down
            &&& down && (p.status == ConnectionStatus::Connected || p.status
                == ConnectionStatus::Connecting) ==> q.pending is None && text::opt(c.failed)
                == p.pending
            &&& !down || p.status == ConnectionStatus::Disconnected || p.status
                == ConnectionStatus::ConnectionFailed || p.status == ConnectionStatus::Reconnecting
                ==> q.pending == p.pending && c.failed is None
            &&& down ==> q.acc.buffered.len() == 0 && q.acc.dvi_pending.len() == 0
            &&& !down ==> q.acc == p.acc
            &&& q.acc.mode == p.acc.mode && q.epoch == p.epoch && q.own_transport
                == p.own_transport && q.monitoring == p.monitoring && q.fallback == p.fallback
        }),
{
}

/// A fenced link has no transport of its own, and is otherwise as it was.
pub proof fn fencing_takes_the_transport(p: PlatformView)
    ensures
        !fenced(p).own_transport,
        fenced(p).status == p.status,
        fenced(p).pending == p.pending,
        fenced(p).acc == p.acc,
        fenced(p).epoch != p.epoch,
        p.epoch < u64::MAX ==> fenced(p).epoch == p.epoch + 1,
{
}

/// A line of the wire log is the bytes in two digits each, as words.
pub proof fn a_log_line_is_its_bytes(b: Seq<u8>)
    ensures
        text::words(hex_line(b)) == Seq::new(b.len(), |i: int| text::hex_padded(b[i] as nat, 2)),
{
    let w = Seq::new(b.len(), |i: int| text::hex_padded(b[i] as nat, 2));
    assert forall|i: int| 0 <= i < w.len() implies text::is_word(#[trigger] w[i]) by {
        text::lemma_hex_is_a_word(b[i] as nat, 2);
    }
    text::spaced_words_are_read_back(w);
    lemma_log_line(b);
}

proof fn lemma_log_line(b: Seq<u8>)
    ensures
        hex_line(b) == text::join(
            Seq::new(b.len(), |i: int| text::hex_padded(b[i] as nat, 2)),
            " "@,
        ),
    decreases b.len(),
{
    let w = Seq::new(b.len(), |i: int| text::hex_padded(b[i] as nat, 2));
    if b.len() > 1 {
        let head = b.drop_last();
        lemma_log_line(head);
        assert(w.drop_last() =~= Seq::new(head.len(), |i: int| text::hex_padded(head[i] as nat, 2)));
    } else if b.len() == 1 {
        assert(w[0] == text::hex_padded(b[0] as nat, 2));
    }
    assert(hex_line(b) =~= text::join(w, " "@));
}

/// A text for the host keeps every character but NUL, in order.
pub proof fn only_nul_is_taken_out(s: Seq<char>, c: char)
    ensures
        !without_nul(s).contains('\0'),
        c != '\0' ==> without_nul(s.push(c)) == without_nul(s).push(c),
        without_nul(s.push('\0')) == without_nul(s),
        !s.contains('\0') ==> without_nul(s) == s,
    decreases s.len(),
{
    assert(s.push(c).drop_last() =~= s);
    assert(s.push('\0').drop_last() =~= s);
    if s.len() > 0 {
        let head = s.drop_last();
        only_nul_is_taken_out(head, c);
        assert(s.contains(s.last())) by {
            assert(s[s.len() - 1] == s.last());
        }
        if s.last() != '\0' {
            let r = without_nul(head).push(s.last());
            assert(!r.contains('\0')) by {
                if r.contains('\0') {
                    let i = choose|i: int| 0 <= i < r.len() && r[i] == '\0';
                    assert(without_nul(head)[i] == '\0');
                    assert(without_nul(head).contains('\0'));
                }
            }
        }
        if !s.contains('\0') {
            assert(!head.contains('\0')) by {
                if head.contains('\0') {
                    let i = choose|i: int| 0 <= i < head.len() && head[i] == '\0';
                    assert(s[i] == '\0');
                }
            }
            assert(without_nul(head).push(s.last()) =~= s);
        }
    }
}

/// What a dialect encoded goes out as it is; without a dialect a line goes to
/// the library's own transport with a carriage return behind it, or to the host,
/// who cannot take a NUL.
pub proof fn how_a_command_goes_out(own: bool, command: &str, e: Encoded, r: SendRoute)
    requires
        is_route(own, command, e, r),
    ensures
        e is None && own ==> (r matches SendRoute::Line(x) && x@.len() == command.spec_bytes().len()
            + 1 && x@.last() == 13 && x@.drop_last() == command.spec_bytes()),
        e is None && !own ==> (r is Host <==> !command@.contains('\0')),
        e is None && !own ==> r is Host || r is Fail,
        e is Some && e->0 is Err ==> (r matches SendRoute::Fail(x) && x@ == e->0->Err_0@),
        e is Some && e->0 is Ok && e->0->Ok_0 is Some ==> (r matches SendRoute::Bytes(x) && x@
            == e->0->Ok_0->0@),
        r is Handled <==> e is Some && e->0 is Ok && e->0->Ok_0 is None,
{
    if e is None && own {
        let b = command.spec_bytes();
        assert(b.push(13u8).drop_last() =~= b);
    }
}

/// Epochs are counted up by one, and begin again at zero behind the last.
pub proof fn epochs_follow_each_other(e: u64)
    ensures
        e < u64::MAX ==> next_epoch(e) == e + 1,
        e == u64::MAX ==> next_epoch(e) == 0,
{
}

} // verus!
