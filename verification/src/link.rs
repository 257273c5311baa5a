//! The seam between the wire's protocol and the engine.
//!
//! Everything above speaks in pids, segments and payloads; everything below
//! speaks the adapter's dialect. This module holds the values that cross the
//! seam and the one classification of adapter status text.
use crate::addressing::{Addressing, Controller};
use crate::error;
use crate::table::Table;
use crate::text;
use vstd::prelude::*;

pub mod dvi;
pub mod elm;
pub mod stn_periodic_engine;

verus! {

/// One controller's reply within a segment: reply byte, echo and data, framing
/// taken off and multi-frame replies assembled.
#[derive(Debug, Clone, PartialEq, Eq)]
pub struct Payload {
    /// `Controller::key` of the responder.
    pub controller: String,
    pub bytes: Vec<u8>,
}

/// A payload as a mathematical value.
#[verifier::ext_equal]
pub struct PayloadView {
    pub controller: Seq<char>,
    pub bytes: Seq<u8>,
}

impl View for Payload {
    type V = PayloadView;

    open spec fn view(&self) -> PayloadView {
        PayloadView { controller: self.controller@, bytes: self.bytes@ }
    }
}

/// The views of a sequence of payloads.
pub open spec fn payload_views(v: Seq<Payload>) -> Seq<PayloadView> {
    Seq::new(v.len(), |i: int| v[i]@)
}

/// One wire exchange's reply: the whole reply's display text and one
/// [`LinkReply`] per pipe segment, by position. `P` is the parse of a reply.
#[derive(Debug, Clone)]
pub struct WireReply<P> {
    pub raw: String,
    pub segments: Vec<LinkReply<P>>,
}

/// The outcome of one queued command: the dialect's reply, or a failure code.
pub type LinkOutcome<P> = Result<WireReply<P>, String>;

/// One exchange as the engine sees it: the classified status and, for data
/// replies, the parse that was derived from the payloads.
#[derive(Debug, Clone)]
pub struct LinkReply<P> {
    /// Verdict of the first line that is not noise.
    pub status: LinkStatus,
    pub parsed: Option<P>,
    /// Some line carries an error token, which vetoes the whole reply.
    pub faulted: bool,
    /// One payload per responding controller (empty for acknowledgements,
    /// status tokens and no data).
    pub payloads: Vec<Payload>,
    /// The dialect's display text; nothing above the seam parses it.
    pub raw: String,
}

impl<P> LinkReply<P> {
    /// A reply made of its parts; `parsed` is the parse of `payloads` for the
    /// command that was sent.
    pub fn from_payloads(
        status: LinkStatus,
        faulted: bool,
        payloads: Vec<Payload>,
        parsed: Option<P>,
        raw: String,
    ) -> (r: Self)
        ensures
            r.status == status,
            r.faulted == faulted,
            r.payloads == payloads,
            r.parsed == parsed,
            r.raw == raw,
    {
        LinkReply { status, parsed, faulted, payloads, raw }
    }

    /// No reply within the deadline.
    pub fn timeout() -> (r: Self)
        ensures
            r.status is Timeout,
            r.parsed is None,
            !r.faulted,
            r.payloads@.len() == 0,
            r.raw@ == Seq::<char>::empty(),
    {
        LinkReply {
            status: LinkStatus::Timeout,
            parsed: None,
            faulted: false,
            payloads: Vec::new(),
            raw: String::new(),
        }
    }

    /// An adapter acknowledgement (`OK`) with nothing to parse.
    pub fn ack() -> (r: Self)
        ensures
            r.status is Chatter,
            r.parsed is None,
            !r.faulted,
            r.payloads@.len() == 0,
            r.raw@ == "OK"@,
    {
        LinkReply {
            status: LinkStatus::Chatter,
            parsed: None,
            faulted: false,
            payloads: Vec::new(),
            raw: "OK".to_owned(),
        }
    }

    /// The parse for a member pid, which is not the command that the reply was
    /// built for where several were joined.
    pub fn parsed_for<F: Fn(&str, &Vec<Payload>) -> Option<P>>(&self, command: &str, parse: &F) -> (r:
        Option<P>)
        requires
            call_requires(*parse, (command, &self.payloads)),
        ensures
            call_ensures(*parse, (command, &self.payloads), r),
    {
        parse(command, &self.payloads)
    }

    /// The command got some reply from the adapter.
    pub fn answered(&self) -> (r: bool)
        ensures
            r == !(self.status is Timeout),
    {
        !matches!(self.status, LinkStatus::Timeout)
    }

    /// A data reply on the first line.
    pub fn is_data(&self) -> (r: bool)
        ensures
            r == (self.status is Data),
    {
        matches!(self.status, LinkStatus::Data)
    }

    /// Some reply, and no error token on any line.
    pub fn is_clean(&self) -> (r: bool)
        ensures
            r == (!(self.status is Timeout) && !self.faulted),
    {
        self.answered() && !self.faulted
    }

    /// The parse, unless the reply is vetoed.
    pub fn clean_parsed(&self) -> (r: Option<&P>)
        ensures
            self.faulted ==> r is None,
            !self.faulted ==> (r is Some <==> self.parsed is Some),
            r matches Some(p) ==> self.parsed == Some(*p),
    {
        if self.faulted {
            None
        } else {
            self.parsed.as_ref()
        }
    }
}

/// The reply to a single request: the first segment of the exchange, or a
/// timeout where nothing came.
pub fn request<P>(exchange: Option<WireReply<P>>) -> (r: LinkReply<P>)
    ensures
        match exchange {
            Some(w) if w.segments@.len() > 0 => r == w.segments@[0],
            _ => r.status is Timeout && r.parsed is None && !r.faulted && r.payloads@.len() == 0
                && r.raw@ == Seq::<char>::empty(),
        },
{
    match exchange {
        None => LinkReply::timeout(),
        Some(w) => {
            let mut segments = w.segments;
            if segments.len() > 0 {
                segments.swap_remove(0)
            } else {
                LinkReply::timeout()
            }
        },
    }
}

/// The display text of an exchange.
pub fn request_raw<P>(exchange: Option<WireReply<P>>) -> (r: Option<String>)
    ensures
        r == (match exchange {
            Some(w) => Some(w.raw),
            None => None,
        }),
{
    match exchange {
        Some(w) => Some(w.raw),
        None => None,
    }
}

/// Per-command reply slots, keyed by the command in upper case. Each armed
/// slot is named by a ticket; the host keeps what waits behind it. Its type
/// invariant: every armed ticket was issued, and no two commands share one.
pub struct ReplyWaiters {
    slots: Table<u64>,
    issued: u64,
}

/// The slots once a ticket waits for a command.
pub open spec fn waiting(
    armed: Map<Seq<char>, u64>,
    command: Seq<char>,
    ticket: u64,
) -> Map<Seq<char>, u64> {
    armed.insert(text::upper(command), ticket)
}

/// The ticket that waits for a command, and the slots without it.
pub open spec fn taken(armed: Map<Seq<char>, u64>, command: Seq<char>) -> (
    Option<u64>,
    Map<Seq<char>, u64>,
) {
    let key = text::upper(command);
    (
        if armed.contains_key(key) {
            Some(armed[key])
        } else {
            None
        },
        armed.remove(key),
    )
}

/// Whether every armed ticket was issued, and stands for one command only.
pub open spec fn tickets_ok(armed: Map<Seq<char>, u64>, issued: u64) -> bool {
    &&& forall|k: Seq<char>| #[trigger]
        armed.contains_key(k) ==> armed[k] < issued
    &&& forall|k: Seq<char>, l: Seq<char>|
        #![trigger armed.contains_key(k), armed.contains_key(l)]
        armed.contains_key(k) && armed.contains_key(l) && armed[k] == armed[l] ==> k == l
}

impl ReplyWaiters {
    /// Armed tickets are issued ones, each for one command.
    #[verifier::type_invariant]
    pub open spec fn keeps_tickets(self) -> bool {
        tickets_ok(self.armed(), self.tickets())
    }

    /// The ticket that waits for each command.
    pub closed spec fn armed(&self) -> Map<Seq<char>, u64> {
        self.slots@
    }

    /// How many tickets were issued.
    pub closed spec fn tickets(&self) -> u64 {
        self.issued
    }

    /// No slots.
    pub fn new() -> (r: Self)
        ensures
            r.armed() == Map::<Seq<char>, u64>::empty(),
            r.tickets() == 0,
    {
        ReplyWaiters { slots: Table::new(), issued: 0 }
    }

    /// Arms a slot for a command before it is queued. A slot that was armed
    /// for the same command is forgotten.
    pub fn arm(&mut self, command: &str) -> (r: u64)
        requires
            old(self).tickets() < u64::MAX,
        ensures
            r == old(self).tickets(),
            final(self).tickets() == old(self).tickets() + 1,
            final(self).armed() == waiting(old(self).armed(), command@, r),
            tickets_ok(old(self).armed(), r),
    {
        proof {
            use_type_invariant(&*self);
        }
        let ticket: u64 = self.issued;
        self.issued = self.issued + 1;
        let mut slots: Table<u64> = Table::new();
        std::mem::swap(&mut slots, &mut self.slots);
        slots.insert(text::to_upper(command), ticket);
        self.slots = slots;
        ticket
    }

    /// Takes the slot of a command whose outcome has landed: the ticket to
    /// fill, or nothing where no one waits.
    pub fn fill(&mut self, command: &str) -> (r: Option<u64>)
        ensures
            final(self).tickets() == old(self).tickets(),
            (r, final(self).armed()) == taken(old(self).armed(), command@),
            r is Some ==> r->0 < final(self).tickets(),
            r is Some ==> !final(self).armed().contains_value(r->0),
    {
        proof {
            use_type_invariant(&*self);
        }
        let key = text::to_upper(command);
        let mut slots: Table<u64> = Table::new();
        std::mem::swap(&mut slots, &mut self.slots);
        let r = slots.remove(key.as_str());
        self.slots = slots;
        r
    }

    /// Drops the slot of a command that was never queued.
    pub fn disarm(&mut self, command: &str)
        ensures
            final(self).tickets() == old(self).tickets(),
            final(self).armed() == old(self).armed().remove(text::upper(command@)),
    {
        proof {
            use_type_invariant(&*self);
        }
        let key = text::to_upper(command);
        let mut slots: Table<u64> = Table::new();
        std::mem::swap(&mut slots, &mut self.slots);
        let _ = slots.remove(key.as_str());
        self.slots = slots;
    }
}

/// Which dialect drives the link.
#[derive(Debug, Clone, Copy, PartialEq, Eq, Structural)]
pub enum LinkKind {
    /// ELM327-compatible text.
    Elm,
    /// DVI binary.
    Dvi,
}

/// One CAN frame as received while monitoring.
#[derive(Debug, Clone, PartialEq, Eq)]
pub struct Frame {
    /// Upper-case CAN id, `7E8` (11-bit) or `18DAF110` (29-bit).
    pub id: String,
    /// 29-bit source.
    pub extended: bool,
    /// Microseconds, stamped at arrival or by the adapter.
    pub ts_us: u64,
    /// Payload after the header.
    pub data: Vec<u8>,
    /// The line as the link delivered it, prompt taken off.
    pub raw: String,
}

/// What the wire said while monitoring.
#[derive(Debug, Clone, PartialEq, Eq)]
pub enum LinkEvent {
    Frame(Frame),
    /// The adapter left monitor mode.
    Stopped,
    /// Anything else.
    Text(String),
}

/// A frame as a mathematical value.
#[verifier::ext_equal]
pub struct FrameValue {
    pub id: Seq<char>,
    pub extended: bool,
    pub ts_us: u64,
    pub data: Seq<u8>,
    pub raw: Seq<char>,
}

/// A monitor event as a mathematical value.
#[verifier::ext_equal]
pub enum LinkEventView {
    Frame(FrameValue),
    Stopped,
    Text(Seq<char>),
}

impl View for Frame {
    type V = FrameValue;

    open spec fn view(&self) -> FrameValue {
        FrameValue {
            id: self.id@,
            extended: self.extended,
            ts_us: self.ts_us,
            data: self.data@,
            raw: self.raw@,
        }
    }
}

impl View for LinkEvent {
    type V = LinkEventView;

    open spec fn view(&self) -> LinkEventView {
        match *self {
            LinkEvent::Frame(f) => LinkEventView::Frame(f@),
            LinkEvent::Stopped => LinkEventView::Stopped,
            LinkEvent::Text(t) => LinkEventView::Text(t@),
        }
    }
}

/// What the wire said, classified once.
#[derive(Debug, Clone, PartialEq, Eq)]
pub enum LinkStatus {
    /// Data lines.
    Data,
    /// Adapter acknowledgement only.
    Chatter,
    /// Nothing came back from the bus.
    NoData,
    /// Monitor or stream interrupted.
    Stopped,
    /// No reply within the deadline.
    Timeout,
    /// Any other adapter error token, as its standardised code, or `ERROR`
    /// for one that has none: every line that ends so lands here.
    AdapterError(String),
}

/// A status as a mathematical value.
#[verifier::ext_equal]
pub enum StatusView {
    Data,
    Chatter,
    NoData,
    Stopped,
    Timeout,
    AdapterError(Seq<char>),
}

impl View for LinkStatus {
    type V = StatusView;

    open spec fn view(&self) -> StatusView {
        match *self {
            LinkStatus::Data => StatusView::Data,
            LinkStatus::Chatter => StatusView::Chatter,
            LinkStatus::NoData => StatusView::NoData,
            LinkStatus::Stopped => StatusView::Stopped,
            LinkStatus::Timeout => StatusView::Timeout,
            LinkStatus::AdapterError(c) => StatusView::AdapterError(c@),
        }
    }
}

impl StatusView {
    /// The bus did not answer.
    pub open spec fn no_response(self) -> bool {
        !(self is Data || self is Chatter)
    }
}

impl LinkStatus {
    /// The bus did not answer: the retryable class, as against a real reply
    /// that is wrong.
    pub fn is_no_response(&self) -> (r: bool)
        ensures
            r == self@.no_response(),
    {
        !matches!(self, LinkStatus::Data | LinkStatus::Chatter)
    }
}

/// Periods of the polling tiers in milliseconds.
#[derive(Debug, Clone, Copy, PartialEq, Eq, Structural)]
pub struct TierPeriods {
    pub fast_ms: u32,
    pub medium_ms: u32,
    pub slow_ms: u32,
}

/// Facts the host feeds about the connected adapter.
#[derive(Debug, Clone, Copy, PartialEq, Eq, Structural)]
pub struct HostFacts {
    /// Which dialect drives the link.
    pub kind: LinkKind,
    /// The adapter runs periodic messages by itself.
    pub periodic_capable: bool,
    /// Chunk cap of the adapter (at most one switches the vehicle probe off).
    pub max_chunk: usize,
    pub tier_periods: TierPeriods,
}

impl HostFacts {
    /// The facts before the host has said anything.
    pub fn initial(tier_periods: TierPeriods) -> (r: Self)
        ensures
            r.kind == LinkKind::Elm,
            !r.periodic_capable,
            r.max_chunk == 6,
            r.tier_periods == tier_periods,
    {
        HostFacts { kind: LinkKind::Elm, periodic_capable: false, max_chunk: 6, tier_periods }
    }
}

/// Adapter facts: those of the handshake and a snapshot of the host's.
#[derive(Debug, Clone, Copy, PartialEq, Eq, Structural)]
pub struct AdapterFacts {
    pub kind: LinkKind,
    /// Batched commands accepted.
    pub pipe_capable: bool,
    /// Negotiated addressing (11-bit until it was detected).
    pub addressing: Addressing,
    /// First responder: the engine controller.
    pub primary_ecu: Option<Controller>,
    pub periodic_capable: bool,
    pub max_chunk: usize,
    pub tier_periods: TierPeriods,
    /// Request and response go on while an adapter-side stream is live.
    pub concurrent_rx: bool,
}

impl AdapterFacts {
    /// What is known before the handshake.
    pub fn unknown(kind: LinkKind, tier_periods: TierPeriods) -> (r: Self)
        ensures
            r == (AdapterFacts {
                kind,
                pipe_capable: false,
                addressing: Addressing::Can11,
                primary_ecu: None,
                periodic_capable: false,
                max_chunk: 6,
                tier_periods,
                concurrent_rx: false,
            }),
    {
        AdapterFacts {
            kind,
            pipe_capable: false,
            addressing: Addressing::Can11,
            primary_ecu: None,
            periodic_capable: false,
            max_chunk: 6,
            tier_periods,
            concurrent_rx: false,
        }
    }

    /// The facts with the host's current ones filled in.
    pub fn with_host(self, host: HostFacts) -> (r: Self)
        ensures
            r == (AdapterFacts {
                periodic_capable: host.periodic_capable,
                max_chunk: host.max_chunk,
                tier_periods: host.tier_periods,
                ..self
            }),
    {
        AdapterFacts {
            kind: self.kind,
            pipe_capable: self.pipe_capable,
            addressing: self.addressing,
            primary_ecu: self.primary_ecu,
            periodic_capable: host.periodic_capable,
            max_chunk: host.max_chunk,
            tier_periods: host.tier_periods,
            concurrent_rx: self.concurrent_rx,
        }
    }
}

/// A message that an adapter sends by itself.
#[derive(Debug, Clone)]
pub struct PeriodicMessage {
    /// Request header.
    pub header: String,
    /// Request bytes in hexadecimal.
    pub data: String,
    pub period_ms: u32,
    /// The pids the message serves.
    pub pids: Vec<String>,
}

/// A periodic message as a mathematical value.
#[verifier::ext_equal]
pub struct MessageView {
    pub header: Seq<char>,
    pub data: Seq<char>,
    pub period_ms: u32,
    pub pids: Seq<Seq<char>>,
}

impl View for PeriodicMessage {
    type V = MessageView;

    open spec fn view(&self) -> MessageView {
        MessageView {
            header: self.header@,
            data: self.data@,
            period_ms: self.period_ms,
            pids: text::views(self.pids@),
        }
    }
}

/// The views of periodic messages.
pub open spec fn message_views(v: Seq<PeriodicMessage>) -> Seq<MessageView> {
    Seq::new(v.len(), |i: int| v[i]@)
}

/// What the session asks the adapter to run periodically.
pub struct PeriodicPlan {
    pub messages: Vec<PeriodicMessage>,
    /// Learned response length of each pid.
    pub lengths: Table<u8>,
}

/// What was installed.
#[derive(Debug, Clone)]
pub struct PeriodicInstall {
    /// Messages the adapter accepted.
    pub accepted: usize,
    pub response_ids: Vec<String>,
    pub fast_period_ms: u32,
    /// The pids that the accepted messages serve.
    pub served_pids: Vec<String>,
}

#[derive(Debug, Clone, Copy)]
pub struct PeriodicStats {
    /// Signals in the live decode map.
    pub members: usize,
    pub fast_period_ms: u32,
}

/// Whether `r` is what the first decoder that `ours` picks and that can split a
/// reply makes of it: decoders that cannot are passed over, and nothing is left
/// where none can.
pub open spec fn is_first_split<K, S, F: Fn(&Vec<(String, u8)>) -> Option<S>>(
    decoders: Seq<(K, Vec<(String, u8)>)>,
    ours: spec_fn(K) -> bool,
    split: F,
    r: Option<S>,
) -> bool {
    match r {
        Some(_) => exists|k: int|
            0 <= k < decoders.len() && ours((#[trigger] decoders[k]).0) && call_ensures(
                split,
                (&decoders[k].1,),
                r,
            ) && passed_over(decoders.take(k), ours, split),
        None => passed_over(decoders, ours, split),
    }
}

/// Whether no decoder that `ours` picks could split the reply.
pub open spec fn passed_over<K, S, F: Fn(&Vec<(String, u8)>) -> Option<S>>(
    decoders: Seq<(K, Vec<(String, u8)>)>,
    ours: spec_fn(K) -> bool,
    split: F,
) -> bool {
    forall|j: int|
        0 <= j < decoders.len() && ours((#[trigger] decoders[j]).0) ==> call_ensures(
            split,
            (&decoders[j].1,),
            None::<S>,
        )
}

/// Why periodic acquisition failed.
#[derive(Debug, Clone)]
pub enum PeriodicError {
    /// Not one message was accepted.
    NoneAccepted,
    /// The link refused monitor mode.
    MonitorFailed(String),
    /// The monitor would not hold.
    ArmAborted { attempts: u32 },
    /// The engine was not started.
    NotStarted,
}

impl PeriodicError {
    /// The error for people.
    pub open spec fn spec_message(self) -> Seq<char> {
        match self {
            PeriodicError::NoneAccepted => "no STPPMA accepted — staying on poll"@,
            PeriodicError::MonitorFailed(e) => "monitor mode failed: "@ + e@,
            PeriodicError::ArmAborted { attempts } => "STM would not hold (aborted "@
                + text::decimal(attempts as nat) + "×)"@,
            PeriodicError::NotStarted => "periodic engine not started"@,
        }
    }

    /// The error for people.
    pub fn message(&self) -> (r: String)
        ensures
            r@ == self.spec_message(),
    {
        match self {
            PeriodicError::NoneAccepted => "no STPPMA accepted — staying on poll".to_owned(),
            PeriodicError::MonitorFailed(e) => text::concat("monitor mode failed: ", e.as_str()),
            PeriodicError::ArmAborted { attempts } => {
                let mut s = "STM would not hold (aborted ".to_owned();
                text::push_decimal(&mut s, *attempts as u64);
                s.append("×)");
                s
            },
            PeriodicError::NotStarted => "periodic engine not started".to_owned(),
        }
    }
}

/// Why the adapter handshake failed.
#[derive(Debug, Clone, PartialEq, Eq)]
pub enum ConnectFail {
    /// The command queue refused an init command.
    QueueRefused(String),
    /// Init commands did not all complete in time.
    InitTimeout,
}

/// Why bus negotiation failed.
#[derive(Debug, Clone, Copy, PartialEq, Eq, Structural)]
pub enum AddressingFail {
    /// The bus did not answer: retryable.
    NoResponse,
    /// A real response that is not CAN.
    NonCan,
}

/// One capture id filter (`7E8`, `7E8/7FF`, `18DAF110`).
#[derive(Debug, Clone, Copy, PartialEq, Eq, Structural)]
pub struct CaptureFilter {
    pub id: u32,
    pub mask: u32,
    pub extended: bool,
}

/// The verdict on one line of adapter output; nothing where it looks like data.
pub open spec fn line_status(line: Seq<char>) -> Option<StatusView> {
    let t = text::trim(line);
    if t.len() == 0 || text::starts_with(t, "SEARCHING"@) {
        Some(StatusView::NoData)
    } else if t == "OK"@ || t == "?"@ || text::starts_with(t, "ELM327"@) || text::starts_with(
        t,
        "STN"@,
    ) {
        Some(StatusView::Chatter)
    } else if t == "NO DATA"@ {
        Some(StatusView::NoData)
    } else if t == "STOPPED"@ {
        Some(StatusView::Stopped)
    } else if error::adapter_error_of(t) is Some {
        Some(StatusView::AdapterError(error::adapter_error_of(t)->0))
    } else if text::ends_with(t, "ERROR"@) {
        Some(StatusView::AdapterError("ERROR"@))
    } else {
        None
    }
}

/// Classifies one line of adapter output; nothing means that it looks like data.
pub fn classify_line(line: &str) -> (r: Option<LinkStatus>)
    ensures
        r is Some <==> line_status(line@) is Some,
        r matches Some(s) ==> line_status(line@) == Some(s@),
{
    let t = text::trim_text(line, text::Blank::White);
    let t = t.as_str();
    if t.is_empty() {
        return Some(LinkStatus::NoData);
    }
    if text::begins_with(t, "SEARCHING") {
        return Some(LinkStatus::NoData);
    }
    if text::same(t, "OK") || text::same(t, "?") || text::begins_with(t, "ELM327")
        || text::begins_with(t, "STN") {
        return Some(LinkStatus::Chatter);
    }
    if text::same(t, "NO DATA") {
        return Some(LinkStatus::NoData);
    }
    if text::same(t, "STOPPED") {
        return Some(LinkStatus::Stopped);
    }
    if let Some(code) = error::map_adapter_response_to_error(t) {
        return Some(LinkStatus::AdapterError(code.to_owned()));
    }
    if text::closes_with(t, "ERROR") {
        return Some(LinkStatus::AdapterError("ERROR".to_owned()));
    }
    None
}

/// The first of `lines` that is neither blank nor a search notice, trimmed.
pub open spec fn first_telling(lines: Seq<Seq<char>>) -> Option<Seq<char>>
    decreases lines.len(),
{
    if lines.len() == 0 {
        None
    } else {
        let t = text::trim(lines[0]);
        if t.len() > 0 && !text::starts_with(t, "SEARCHING"@) {
            Some(t)
        } else {
            first_telling(lines.skip(1))
        }
    }
}

/// The first line of `raw` that is neither blank nor a search notice, trimmed.
pub open spec fn telling_line(raw: Seq<char>) -> Option<Seq<char>> {
    first_telling(text::pieces(raw, text::Blank::LineEnd))
}

/// The first line of `raw` that is neither blank nor a search notice, trimmed.
pub fn telling_text(raw: &str) -> (r: Option<String>)
    ensures
        r is Some <==> telling_line(raw@) is Some,
        r matches Some(t) ==> telling_line(raw@) == Some(t@),
{
    let lines = text::split_text(raw, text::Blank::LineEnd);
    let ghost all = text::views(lines@);
    let mut i: usize = 0;
    assert(all.skip(0) =~= all);
    while i < lines.len()
        invariant
            i <= lines@.len(),
            all == text::views(lines@),
            first_telling(all) == first_telling(all.skip(i as int)),
            telling_line(raw@) == first_telling(all),
        decreases lines@.len() - i,
    {
        let t = text::trim_text(lines[i].as_str(), text::Blank::White);
        assert(all.skip(i as int)[0] == lines@[i as int]@);
        assert(all.skip(i as int).skip(1) =~= all.skip(i + 1));
        if !t.as_str().is_empty() && !text::begins_with(t.as_str(), "SEARCHING") {
            return Some(t);
        }
        i += 1;
    }
    None
}

/// The verdict on a whole reply.
pub open spec fn text_status(raw: Option<Seq<char>>) -> StatusView {
    match raw {
        None => StatusView::Timeout,
        Some(s) => match telling_line(s) {
            None => StatusView::NoData,
            Some(t) => match line_status(t) {
                Some(status) => status,
                None => StatusView::Data,
            },
        },
    }
}

/// Classifies a whole reply: the first line that is not noise decides.
pub fn classify_text(raw: Option<&str>) -> (r: LinkStatus)
    ensures
        r@ == text_status(
            match raw {
                Some(s) => Some(s@),
                None => None,
            },
        ),
{
    let raw = match raw {
        Some(s) => s,
        None => {
            return LinkStatus::Timeout;
        },
    };
    match telling_text(raw) {
        None => LinkStatus::NoData,
        Some(t) => match classify_line(t.as_str()) {
            Some(s) => s,
            None => LinkStatus::Data,
        },
    }
}

// ---- laws ----

/// An outcome reaches the ticket that was armed last for its command, once; the
/// tickets of other commands stay.
pub proof fn an_outcome_reaches_its_waiter_once(
    armed: Map<Seq<char>, u64>,
    command: Seq<char>,
    ticket: u64,
    other: Seq<char>,
)
    ensures
        ({
            let first = taken(waiting(armed, command, ticket), command);
            &&& first.0 == Some(ticket)
            &&& taken(first.1, command).0 is None
            &&& text::upper(other) != text::upper(command) ==> taken(first.1, other).0 == taken(
                armed,
                other,
            ).0
        }),
{
}

/// Arming a slot for a command: it is named by a fresh ticket, the next outcome
/// of that command reaches it, and a slot that was armed earlier for the command
/// is reached by no outcome from then on. The slots of other commands are
/// untouched.
pub proof fn a_reply_never_reaches_an_earlier_slot(
    armed: Map<Seq<char>, u64>,
    issued: u64,
    command: Seq<char>,
    earlier: u64,
    other: Seq<char>,
)
    requires
        tickets_ok(armed, issued),
        issued < u64::MAX,
    ensures
        ({
            let now = waiting(armed, command, issued);
            &&& tickets_ok(now, (issued + 1) as u64)
            &&& taken(now, command).0 == Some(issued)
            &&& taken(armed, command).0 == Some(earlier) ==> earlier < issued && taken(
                now,
                other,
            ).0 != Some(earlier) && !now.contains_value(earlier)
            &&& text::upper(other) != text::upper(command) ==> taken(now, other).0 == taken(
                armed,
                other,
            ).0 && taken(now, other).0 != Some(issued)
        }),
{
}

/// A slot stays unfilled until an outcome of its own command lands: arming,
/// filling and dropping the slots of other commands leaves it as it is.
pub proof fn a_slot_waits_for_its_own_command(
    armed: Map<Seq<char>, u64>,
    command: Seq<char>,
    other: Seq<char>,
    ticket: u64,
)
    requires
        text::upper(other) != text::upper(command),
    ensures
        taken(waiting(armed, other, ticket), command).0 == taken(armed, command).0,
        taken(taken(armed, other).1, command).0 == taken(armed, command).0,
        taken(armed.remove(text::upper(other)), command).0 == taken(armed, command).0,
{
}

/// Once a ticket has its outcome, or its slot was dropped, it is armed for no
/// command, and what is armed later carries another ticket.
pub proof fn a_filled_ticket_is_gone(
    armed: Map<Seq<char>, u64>,
    issued: u64,
    command: Seq<char>,
    later: Seq<char>,
)
    requires
        tickets_ok(armed, issued),
        issued < u64::MAX,
        taken(armed, command).0 is Some,
    ensures
        ({
            let ticket = taken(armed, command).0->0;
            let left = taken(armed, command).1;
            &&& tickets_ok(left, issued)
            &&& !left.contains_value(ticket)
            &&& !waiting(left, later, issued).contains_value(ticket)
        }),
{
}

/// The table of status tokens and the table of adapter errors agree: text that
/// maps to an error code, or that ends in `ERROR`, never looks like data.
pub proof fn errors_are_never_data(line: Seq<char>)
    requires
        error::adapter_error_of(text::trim(line)) is Some || text::ends_with(
            text::trim(line),
            "ERROR"@,
        ),
    ensures
        line_status(line) is Some,
{
}

/// Whether `c` stands in a line of data: a hexadecimal digit or a blank.
pub open spec fn is_data_char(c: char) -> bool {
    text::is_hex_digit(c) || c == ' ' || c == '\t' || c == '\r' || c == '\n'
}

/// Whether a text is written in hexadecimal digits and blanks only.
pub open spec fn is_data_text(s: Seq<char>) -> bool {
    forall|i: int| 0 <= i < s.len() ==> is_data_char(#[trigger] s[i])
}

/// The words of an adapter error hold a letter that is no digit.
proof fn lemma_digits_are_no_error(t: Seq<char>)
    requires
        is_data_text(t),
        text::trim(t) == t,
    ensures
        error::adapter_error_of(t) is None,
{
    let u = text::upper(t);
    assert(text::all_ascii(t));
    assert forall|i: int| 0 <= i < u.len() implies is_data_char(#[trigger] u[i]) by {
        assert(is_data_char(t[i]));
    }
    error::which_responses_are_errors(t);
    reveal_strlit("NO DATA");
    assert(u != "NO DATA"@) by {
        assert("NO DATA"@[0] == 'N');
        assert(!is_data_char('N'));
    }
    reveal_strlit("CAN ERROR");
    assert(u != "CAN ERROR"@) by {
        assert("CAN ERROR"@[2] == 'N');
        assert(!is_data_char('N'));
    }
    reveal_strlit("DATA ERROR");
    assert(u != "DATA ERROR"@) by {
        assert("DATA ERROR"@[2] == 'T');
        assert(!is_data_char('T'));
    }
    reveal_strlit("<DATA ERROR");
    assert(u != "<DATA ERROR"@) by {
        assert("<DATA ERROR"@[0] == '<');
        assert(!is_data_char('<'));
    }
    reveal_strlit("<RX ERROR");
    assert(u != "<RX ERROR"@) by {
        assert("<RX ERROR"@[0] == '<');
        assert(!is_data_char('<'));
    }
    reveal_strlit("BUS BUSY");
    assert(u != "BUS BUSY"@) by {
        assert("BUS BUSY"@[1] == 'U');
        assert(!is_data_char('U'));
    }
    reveal_strlit("BUS ERROR");
    assert(u != "BUS ERROR"@) by {
        assert("BUS ERROR"@[1] == 'U');
        assert(!is_data_char('U'));
    }
    reveal_strlit("BUFFER FULL");
    assert(u != "BUFFER FULL"@) by {
        assert("BUFFER FULL"@[1] == 'U');
        assert(!is_data_char('U'));
    }
    reveal_strlit("STOPPED");
    assert(u != "STOPPED"@) by {
        assert("STOPPED"@[0] == 'S');
        assert(!is_data_char('S'));
    }
    reveal_strlit("FC RX TIMEOUT");
    assert(u != "FC RX TIMEOUT"@) by {
        assert("FC RX TIMEOUT"@[3] == 'R');
        assert(!is_data_char('R'));
    }
    reveal_strlit("UNABLE TO CONNECT");
    assert(u != "UNABLE TO CONNECT"@) by {
        assert("UNABLE TO CONNECT"@[0] == 'U');
        assert(!is_data_char('U'));
    }
    reveal_strlit("LV RESET");
    assert(u != "LV RESET"@) by {
        assert("LV RESET"@[0] == 'L');
        assert(!is_data_char('L'));
    }
    reveal_strlit("ACT ALERT");
    assert(u != "ACT ALERT"@) by {
        assert("ACT ALERT"@[2] == 'T');
        assert(!is_data_char('T'));
    }
    reveal_strlit("LP ALERT");
    assert(u != "LP ALERT"@) by {
        assert("LP ALERT"@[0] == 'L');
        assert(!is_data_char('L'));
    }
    reveal_strlit("UART RX OVERFLOW");
    assert(u != "UART RX OVERFLOW"@) by {
        assert("UART RX OVERFLOW"@[0] == 'U');
        assert(!is_data_char('U'));
    }
    reveal_strlit("OUT OF MEMORY");
    assert(u != "OUT OF MEMORY"@) by {
        assert("OUT OF MEMORY"@[0] == 'O');
        assert(!is_data_char('O'));
    }
}

/// A line of hexadecimal digits is data: no token that the adapter says about
/// itself or the bus can be mistaken for it.
pub proof fn digits_are_data(line: Seq<char>, at: int)
    requires
        is_data_text(line),
        0 <= at < line.len(),
        text::is_hex_digit(line[at]),
    ensures
        line_status(line) is None,
        text_status(Some(line)) is Data,
{
    lemma_digits_line(line, at);
    lemma_digits_reply(line, at);
}

proof fn lemma_trimmed_digits(line: Seq<char>, at: int)
    requires
        is_data_text(line),
        0 <= at < line.len(),
        text::is_hex_digit(line[at]),
    ensures
        is_data_text(text::trim(line)),
        text::trim(line).len() > 0,
        text::is_hex_digit(text::trim(line)[0]),
        text::is_hex_digit(text::trim(line).last()),
        text::trim(text::trim(line)) == text::trim(line),
{
    let t = text::trim(line);
    text::trimming_takes_blanks_only(line, text::Blank::White);
    assert(t.contains(line[at]));
    assert forall|i: int| 0 <= i < t.len() implies is_data_char(#[trigger] t[i]) by {
        text::trimming_settles(line, text::Blank::White, t[i]);
        assert(t.contains(t[i]));
        let j = choose|j: int| 0 <= j < line.len() && line[j] == t[i];
        assert(is_data_char(line[j]));
    }
    text::trimming_settles(line, text::Blank::White, ' ');
    assert(is_data_char(t[0]));
    assert(is_data_char(t[t.len() - 1]));
}

proof fn lemma_digits_line(line: Seq<char>, at: int)
    requires
        is_data_text(line),
        0 <= at < line.len(),
        text::is_hex_digit(line[at]),
    ensures
        line_status(line) is None,
{
    let t = text::trim(line);
    lemma_trimmed_digits(line, at);
    lemma_digits_are_no_error(t);
    reveal_strlit("SEARCHING");
    reveal_strlit("OK");
    reveal_strlit("?");
    reveal_strlit("ELM327");
    reveal_strlit("STN");
    reveal_strlit("NO DATA");
    reveal_strlit("STOPPED");
    reveal_strlit("ERROR");
    if text::starts_with(t, "SEARCHING"@) {
        assert(t.take(9)[0] == t[0]);
        assert("SEARCHING"@[0] == 'S');
    }
    if text::starts_with(t, "STN"@) {
        assert(t.take(3)[0] == t[0]);
        assert("STN"@[0] == 'S');
    }
    if text::starts_with(t, "ELM327"@) {
        assert(t.take(6)[1] == t[1]);
        assert("ELM327"@[1] == 'L');
        assert(is_data_char(t[1]));
    }
    if text::ends_with(t, "ERROR"@) {
        assert(t.skip(t.len() - 5)[4] == t[t.len() - 1]);
        assert("ERROR"@[4] == 'R');
    }
    assert("OK"@[0] == 'O' && "?"@[0] == '?' && "NO DATA"@[0] == 'N' && "STOPPED"@[0] == 'S');
}

/// The digits of a reply stand in one of its lines, and the lines before it
/// are blank.
proof fn lemma_digits_reply(raw: Seq<char>, at: int)
    requires
        is_data_text(raw),
        0 <= at < raw.len(),
        text::is_hex_digit(raw[at]),
    ensures
        text_status(Some(raw)) is Data,
{
    let p = text::pieces(raw, text::Blank::LineEnd);
    lemma_piece_of(raw, at);
    assert forall|i: int| 0 <= i < p.len() implies is_data_text(#[trigger] p[i]) by {
        lemma_pieces_of_data(raw);
    }
    let k = choose|k: int| 0 <= k < p.len() && (#[trigger] p[k]).contains(raw[at]);
    lemma_first_digits(p, k, raw[at]);
}

proof fn lemma_pieces_of_data(raw: Seq<char>)
    requires
        is_data_text(raw),
    ensures
        forall|i: int|
            0 <= i < text::pieces(raw, text::Blank::LineEnd).len() ==> is_data_text(
                #[trigger] text::pieces(raw, text::Blank::LineEnd)[i],
            ),
    decreases raw.len(),
{
    let k = text::Blank::LineEnd;
    let p = text::pieces(raw, k);
    text::lemma_pieces_len(raw, k);
    if raw.len() > 0 {
        let head = raw.drop_last();
        let h = text::pieces(head, k);
        text::lemma_pieces_len(head, k);
        lemma_pieces_of_data(head);
        assert forall|i: int| 0 <= i < p.len() implies is_data_text(#[trigger] p[i]) by {
            if k.spec_has(raw.last()) {
                if i < h.len() {
                    assert(p[i] == h[i]);
                }
            } else {
                if i < h.len() - 1 {
                    assert(p[i] == h[i]);
                } else {
                    assert(p[i] == h[h.len() - 1].push(raw.last()));
                    assert(is_data_char(raw[raw.len() - 1]));
                }
            }
        }
    }
}

proof fn lemma_piece_of(raw: Seq<char>, at: int)
    requires
        0 <= at < raw.len(),
        !text::Blank::LineEnd.spec_has(raw[at]),
    ensures
        exists|k: int|
            0 <= k < text::pieces(raw, text::Blank::LineEnd).len() && (#[trigger] text::pieces(
                raw,
                text::Blank::LineEnd,
            )[k]).contains(raw[at]),
    decreases raw.len(),
{
    let b = text::Blank::LineEnd;
    let p = text::pieces(raw, b);
    let head = raw.drop_last();
    let h = text::pieces(head, b);
    text::lemma_pieces_len(head, b);
    if at == raw.len() - 1 {
        let l = p[p.len() - 1];
        assert(l == h.last().push(raw.last()));
        assert(l[l.len() - 1] == raw[at]);
        assert(p[p.len() - 1].contains(raw[at]));
    } else {
        lemma_piece_of(head, at);
        let k = choose|k: int| 0 <= k < h.len() && (#[trigger] h[k]).contains(head[at]);
        let j = choose|j: int| 0 <= j < h[k].len() && h[k][j] == raw[at];
        assert(p[k][j] == raw[at]);
        assert(p[k].contains(raw[at]));
    }
}

proof fn lemma_first_digits(lines: Seq<Seq<char>>, k: int, c: char)
    requires
        0 <= k < lines.len(),
        lines[k].contains(c),
        text::is_hex_digit(c),
        forall|i: int| 0 <= i < lines.len() ==> is_data_text(#[trigger] lines[i]),
    ensures
        first_telling(lines) is Some,
        line_status(first_telling(lines)->0) is None,
    decreases lines.len(),
{
    let t = text::trim(lines[0]);
    assert(is_data_text(lines[0]));
    if t.len() > 0 {
        text::trimming_settles(lines[0], text::Blank::White, ' ');
        assert(t.contains(t[0]));
        text::trimming_settles(lines[0], text::Blank::White, t[0]);
        let at = choose|at: int| 0 <= at < lines[0].len() && lines[0][at] == t[0];
        assert(is_data_char(lines[0][at]));
        lemma_trimmed_digits(lines[0], at);
        lemma_digits_line(t, 0);
        lemma_digits_line(lines[0], at);
    } else {
        assert(k > 0) by {
            if k == 0 {
                let at = choose|at: int| 0 <= at < lines[0].len() && lines[0][at] == c;
                lemma_trimmed_digits(lines[0], at);
            }
        }
        let r = lines.skip(1);
        assert(r[k - 1] == lines[k]);
        assert forall|i: int| 0 <= i < r.len() implies is_data_text(#[trigger] r[i]) by {
            assert(r[i] == lines[i + 1]);
        }
        lemma_first_digits(r, k - 1, c);
    }
}

/// The first line that is neither blank nor a search notice decides on the
/// whole reply, whatever follows it.
pub proof fn the_first_telling_line_decides(lines: Seq<Seq<char>>, k: int)
    requires
        0 <= k < lines.len(),
        forall|j: int|
            0 <= j < k ==> line_status(#[trigger] lines[j]) == Some(StatusView::NoData) && (
            text::trim(lines[j]).len() == 0 || text::trim(lines[j])[0] == 'S'),
        text::trim(lines[k]).len() > 0,
        text::trim(lines[k])[0] != 'S',
    ensures
        first_telling(lines) == Some(text::trim(lines[k])),
    decreases k,
{
    reveal_strlit("SEARCHING");
    if k == 0 {
        let t = text::trim(lines[0]);
        if text::starts_with(t, "SEARCHING"@) {
            assert(t.take(9)[0] == t[0]);
            assert("SEARCHING"@[0] == 'S');
        }
    } else {
        let t = text::trim(lines[0]);
        assert(line_status(lines[0]) == Some(StatusView::NoData));
        reveal_strlit("NO DATA");
        assert("NO DATA"@[0] == 'N');
        let r = lines.skip(1);
        assert forall|j: int| 0 <= j < k - 1 implies line_status(#[trigger] r[j]) == Some(
            StatusView::NoData,
        ) && (text::trim(r[j]).len() == 0 || text::trim(r[j])[0] == 'S') by {
            assert(r[j] == lines[j + 1]);
        }
        assert(r[k - 1] == lines[k]);
        the_first_telling_line_decides(r, k - 1);
    }
}

/// What the adapter says about itself and the bus: acknowledgements and
/// banners are chatter, a silent bus is no data, an interrupted stream is
/// stopped, and only such lines are.
pub proof fn what_an_adapter_says(line: Seq<char>)
    ensures
        ({
            let t = text::trim(line);
            let s = line_status(line);
            &&& s == Some(StatusView::Chatter) <==> t.len() > 0 && (t == "OK"@ || t == "?"@
                || text::starts_with(t, "ELM327"@) || text::starts_with(t, "STN"@))
            &&& s == Some(StatusView::Stopped) <==> t == "STOPPED"@
            &&& s == Some(StatusView::NoData) <==> t.len() == 0 || t == "NO DATA"@
                || text::starts_with(t, "SEARCHING"@)
            &&& s != Some(StatusView::Timeout) && s != Some(StatusView::Data)
        }),
{
    let t = text::trim(line);
    reveal_strlit("SEARCHING");
    reveal_strlit("OK");
    reveal_strlit("?");
    reveal_strlit("ELM327");
    reveal_strlit("STN");
    reveal_strlit("NO DATA");
    reveal_strlit("STOPPED");
    assert("OK"@[0] == 'O' && "?"@[0] == '?' && "NO DATA"@[0] == 'N' && "STOPPED"@[0] == 'S'
        && "STOPPED"@[2] == 'O' && "STOPPED"@[1] == 'T');
    if text::starts_with(t, "SEARCHING"@) {
        assert(t.take(9)[0] == t[0] && t.take(9)[1] == t[1]);
        assert("SEARCHING"@[0] == 'S' && "SEARCHING"@[1] == 'E');
    }
    if text::starts_with(t, "STN"@) {
        assert(t.take(3)[0] == t[0] && t.take(3)[2] == t[2] && t.take(3)[1] == t[1]);
        assert("STN"@[0] == 'S' && "STN"@[2] == 'N' && "STN"@[1] == 'T');
    }
    if text::starts_with(t, "ELM327"@) {
        assert(t.take(6)[0] == t[0]);
        assert("ELM327"@[0] == 'E');
    }
    assert("STOPPED"@.len() == 7 && "OK"@.len() == 2 && "?"@.len() == 1 && "NO DATA"@.len() == 7);
}

/// The bus did not answer where there was no data, a stop, a deadline or an
/// error; data and an acknowledgement are answers.
pub proof fn what_is_no_answer(s: StatusView)
    ensures
        s is NoData || s is Stopped || s is Timeout || s is AdapterError ==> s.no_response(),
        s is Data || s is Chatter ==> !s.no_response(),
{
}

} // verus!
