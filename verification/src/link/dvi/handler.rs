//! The DVI session: how queued commands become transmit frames, how received
//! frames complete them, and what the tool's filters are set to. The state
//! machine decides; its caller writes the bytes and hands back what arrived.
//! Times are in microseconds of one steady clock.
use crate::addressing::{Addressing, Bus};
use crate::bytes;
use crate::link;
use crate::link::dvi::codec;
use crate::link::dvi::codec::{DviFrame, FilterType, FrameView, RxFrame, RxView};
use crate::link::dvi::framing;
use crate::link::dvi::framing::AssemblyView;
use crate::link::elm;
use crate::link::{
    Frame, FrameValue, LinkOutcome, LinkReply, LinkStatus, Payload, PayloadView, WireReply,
};
use crate::text;
use vstd::prelude::*;

verus! {

/// Functional request id, 11-bit.
pub const FUNCTIONAL_11: u32 = 0x7DF;

/// Functional request id, 29-bit.
pub const FUNCTIONAL_29: u32 = 0x18DB33F1;

/// Quiet time after the last frame of a functional reply.
pub const FUNCTIONAL_QUIET_US: u64 = 60_000;

/// Without any reply inside this time there is no data; the tool itself never
/// says that nobody answered.
pub const NO_DATA_TIMEOUT_US: u64 = 250_000;

/// How long a request waits after the target has said that its response is
/// pending.
pub const PENDING_WINDOW_US: u64 = 3_000_000;

/// The filter slot that follows a target outside the standard pairs.
pub const DYN_FLOW_SLOT: u8 = 26;

/// Time between two realignments of the tool's parser.
pub const RESYNC_INTERVAL_US: u64 = 2_000_000;

/// A request that waits for its reply.
pub struct Outstanding {
    pub command: String,
    /// A physical request has the one response id that completes it.
    pub expected: Option<u32>,
    pub frames: Vec<RxFrame>,
    /// The target said that its response is pending.
    pub pending: bool,
    /// Errors for bytes of ours while this request was out: the tool's parser
    /// has lost its alignment.
    pub stray_errors: u32,
    pub started_us: u64,
    pub last_frame_us: u64,
    pub generation: u64,
}

/// A periodic slot and what its replies hold.
pub struct SlotDecoder {
    pub slot: u8,
    /// The id that its replies arrive on.
    pub response_id: u32,
    /// The pids of the slot with their lengths.
    pub members: Vec<(String, u8)>,
    /// The same pids in upper case.
    pub pids: Vec<String>,
}

/// The live periodic slots.
pub struct PeriodicLive {
    pub decoders: Vec<SlotDecoder>,
    pub fast_period_ms: u32,
    /// Whether replies are being decoded.
    pub open: bool,
}

/// The state of a DVI session.
pub struct DviHandler {
    /// The physical target and whether it is 29-bit; none is functional.
    pub target: Option<(u32, bool)>,
    pub outstanding: Option<Outstanding>,
    pub generation: u64,
    /// The ids of the frames that answered the last completed command.
    pub last_reply_ids: Vec<u32>,
    pub last_resync_us: Option<u64>,
    pub periodic: Option<PeriodicLive>,
    /// Installed flow filters: response id and request id.
    pub flow_pairs: Vec<(u32, u32)>,
    /// The flow filter that follows the target.
    pub dyn_flow: Option<(u32, u32)>,
    /// Capture filters: slot and whether it is 29-bit.
    pub capture_slots: Vec<(u8, bool)>,
    pub listen_only: bool,
    /// The standing receive filter is parked for a capture.
    pub pass_all_disabled: bool,
}

/// A waiting request as a mathematical value.
#[verifier::ext_equal]
pub struct RequestView {
    pub command: Seq<char>,
    pub expected: Option<u32>,
    pub frames: Seq<RxView>,
    pub pending: bool,
    pub stray_errors: nat,
    pub started_us: u64,
    pub last_frame_us: u64,
    pub generation: u64,
}

/// A slot decoder as a mathematical value.
#[verifier::ext_equal]
pub struct SlotView {
    pub slot: u8,
    pub response_id: u32,
    pub members: Seq<(Seq<char>, u8)>,
    pub pids: Set<Seq<char>>,
}

/// The live slots as a mathematical value.
#[verifier::ext_equal]
pub struct LiveView {
    pub decoders: Seq<SlotView>,
    pub fast_period_ms: u32,
    pub open: bool,
}

/// The state of a session as a mathematical value.
#[verifier::ext_equal]
pub struct SessionView {
    pub target: Option<(u32, bool)>,
    pub outstanding: Option<RequestView>,
    pub generation: u64,
    pub last_reply_ids: Seq<u32>,
    pub last_resync_us: Option<u64>,
    pub periodic: Option<LiveView>,
    pub flow_pairs: Seq<(u32, u32)>,
    pub dyn_flow: Option<(u32, u32)>,
    pub capture_slots: Seq<(u8, bool)>,
    pub listen_only: bool,
    pub pass_all_disabled: bool,
}

impl View for Outstanding {
    type V = RequestView;

    open spec fn view(&self) -> RequestView {
        RequestView {
            command: self.command@,
            expected: self.expected,
            frames: codec::rx_views(self.frames@),
            pending: self.pending,
            stray_errors: self.stray_errors as nat,
            started_us: self.started_us,
            last_frame_us: self.last_frame_us,
            generation: self.generation,
        }
    }
}

/// The members of a slot by view.
pub open spec fn member_views(v: Seq<(String, u8)>) -> Seq<(Seq<char>, u8)> {
    Seq::new(v.len(), |i: int| (v[i].0@, v[i].1))
}

impl View for SlotDecoder {
    type V = SlotView;

    open spec fn view(&self) -> SlotView {
        SlotView {
            slot: self.slot,
            response_id: self.response_id,
            members: member_views(self.members@),
            pids: text::views(self.pids@).to_set(),
        }
    }
}

/// The views of slot decoders.
pub open spec fn slot_views(v: Seq<SlotDecoder>) -> Seq<SlotView> {
    Seq::new(v.len(), |i: int| v[i]@)
}

impl View for PeriodicLive {
    type V = LiveView;

    open spec fn view(&self) -> LiveView {
        LiveView {
            decoders: slot_views(self.decoders@),
            fast_period_ms: self.fast_period_ms,
            open: self.open,
        }
    }
}

/// The view of an optional request.
pub open spec fn request_view(o: Option<Outstanding>) -> Option<RequestView> {
    match o {
        Some(x) => Some(x@),
        None => None,
    }
}

/// The view of optional live slots.
pub open spec fn live_view(p: Option<PeriodicLive>) -> Option<LiveView> {
    match p {
        Some(x) => Some(x@),
        None => None,
    }
}

impl View for DviHandler {
    type V = SessionView;

    open spec fn view(&self) -> SessionView {
        SessionView {
            target: self.target,
            outstanding: request_view(self.outstanding),
            generation: self.generation,
            last_reply_ids: self.last_reply_ids@,
            last_resync_us: self.last_resync_us,
            periodic: live_view(self.periodic),
            flow_pairs: self.flow_pairs@,
            dyn_flow: self.dyn_flow,
            capture_slots: self.capture_slots@,
            listen_only: self.listen_only,
            pass_all_disabled: self.pass_all_disabled,
        }
    }
}

// ---- commands ----

/// What becomes of a queued command.
#[derive(Debug, PartialEq, Eq)]
pub enum Encoded {
    /// Nothing is sent; the command is acknowledged.
    Ack,
    /// The target has changed; a flow filter may have to be set first, then the
    /// command is acknowledged.
    Retarget { filter: Option<Vec<u8>> },
    /// The command cannot be sent.
    Refused(String),
    /// The bytes of the request, and the generation that its timer watches.
    Send { generation: u64, bytes: Vec<u8> },
}

/// What becomes of a command, as a mathematical value.
#[verifier::ext_equal]
pub enum EncodedView {
    Ack,
    Retarget(Option<Seq<u8>>),
    Refused(Seq<char>),
    Send(u64, Seq<u8>),
}

impl View for Encoded {
    type V = EncodedView;

    open spec fn view(&self) -> EncodedView {
        match *self {
            Encoded::Ack => EncodedView::Ack,
            Encoded::Retarget { filter: Some(f) } => EncodedView::Retarget(Some(f@)),
            Encoded::Retarget { filter: None } => EncodedView::Retarget(None),
            Encoded::Refused(t) => EncodedView::Refused(t@),
            Encoded::Send { generation, bytes } => EncodedView::Send(generation, bytes@),
        }
    }
}

/// `s` without white space.
pub open spec fn compacted(s: Seq<char>) -> Seq<char>
    decreases s.len(),
{
    if s.len() == 0 {
        s
    } else if text::is_white(s.last()) {
        compacted(s.drop_last())
    } else {
        compacted(s.drop_last()).push(s.last())
    }
}

/// Whether `s` is one or more bytes in hexadecimal.
pub open spec fn is_hex_bytes(s: Seq<char>) -> bool {
    s.len() > 0 && s.len() % 2 == 0 && text::all_hex(s)
}

/// The bytes that pairs of digits write.
pub open spec fn hex_bytes(s: Seq<char>) -> Seq<u8> {
    Seq::new(s.len() / 2, |i: int| text::hex_number(s.subrange(2 * i, 2 * i + 2)) as u8)
}

/// Whether a request id is functional.
pub open spec fn is_functional(id: u32) -> bool {
    id == FUNCTIONAL_11 || id == FUNCTIONAL_29
}

/// The functional request id of an addressing.
pub open spec fn functional_id(a: Addressing) -> u32 {
    match a {
        Addressing::Can11 => FUNCTIONAL_11,
        Addressing::Can29 { .. } => FUNCTIONAL_29,
    }
}

/// The mask that matches a whole id.
pub open spec fn id_mask(extended: bool) -> u32 {
    if extended {
        0x1FFF_FFFF
    } else {
        0x7FF
    }
}

/// Whether a flow filter already serves a request id.
pub open spec fn has_flow(s: SessionView, id: u32) -> bool {
    (exists|i: int| 0 <= i < s.flow_pairs.len() && (#[trigger] s.flow_pairs[i]).1 == id) || (
    s.dyn_flow matches Some(p) && p.1 == id)
}

/// The flow filter of a target: frames from its response id are answered with
/// flow control to the target.
pub open spec fn target_filter(id: u32, extended: bool) -> Seq<u8> {
    codec::frame_bytes(
        codec::cmd::CAN,
        codec::filter_data(
            DYN_FLOW_SLOT,
            extended,
            FilterType::Flow,
            true,
            framing::response_id_of(id, extended),
            id_mask(extended),
            id,
        ),
    )
}

/// The session and the result after a command was queued.
pub open spec fn encode_step(s: SessionView, a: Addressing, command: Seq<char>, now_us: u64) -> (
    SessionView,
    EncodedView,
) {
    let cmd = text::upper(text::trim(command));
    let compact = compacted(cmd);
    if text::starts_with(cmd, "ATSH"@) {
        let header = text::trim(cmd.skip(4));
        match text::hex_within(header, u32::MAX as nat) {
            None => (s, EncodedView::Refused("bad ATSH header "@ + header)),
            Some(n) => {
                let id = n as u32;
                let extended = header.len() > 3;
                if is_functional(id) {
                    (SessionView { target: None, ..s }, EncodedView::Retarget(None))
                } else {
                    (
                        SessionView { target: Some((id, extended)), ..s },
                        EncodedView::Retarget(
                            if has_flow(s, id) {
                                None
                            } else {
                                Some(target_filter(id, extended))
                            },
                        ),
                    )
                }
            },
        }
    } else if !is_hex_bytes(compact) || text::starts_with(cmd, "AT"@) || text::starts_with(
        cmd,
        "ST"@,
    ) || text::starts_with(cmd, "DX"@) {
        (s, EncodedView::Ack)
    } else {
        let generation = (s.generation + 1) as u64;
        let (id, expected) = match s.target {
            Some(t) => (t.0, Some(framing::response_id_of(t.0, t.1))),
            None => (functional_id(a), None),
        };
        (
            SessionView {
                generation,
                outstanding: Some(
                    RequestView {
                        command,
                        expected,
                        frames: Seq::empty(),
                        pending: false,
                        stray_errors: 0,
                        started_us: now_us,
                        last_frame_us: now_us,
                        generation,
                    },
                ),
                ..s
            },
            EncodedView::Send(generation, codec::tx_bytes(id, hex_bytes(compact))),
        )
    }
}

/// `s` without white space.
fn compact_text(s: &str) -> (r: String)
    ensures
        r@ == compacted(s@),
{
    let v = text::chars_of(s);
    let mut out = String::new();
    let mut i: usize = 0;
    while i < v.len()
        invariant
            i <= v@.len(),
            out@ == compacted(v@.take(i as int)),
        decreases v@.len() - i,
    {
        assert(v@.take(i + 1).drop_last() =~= v@.take(i as int));
        if !text::Blank::White.has(v[i]) {
            out.push(v[i]);
        }
        i += 1;
    }
    assert(v@.take(i as int) =~= v@);
    out
}

/// The bytes that pairs of digits write.
pub fn bytes_of_hex(s: &str) -> (r: Vec<u8>)
    requires
        text::all_hex(s@),
        s@.len() % 2 == 0,
    ensures
        r@ == hex_bytes(s@),
{
    let v = text::chars_of(s);
    let len: usize = v.len();
    let count: usize = len / 2;
    let mut out: Vec<u8> = Vec::new();
    let mut i: usize = 0;
    while i < count
        invariant
            i <= count,
            v@ == s@,
            text::all_hex(s@),
            2 * count == len,
            len == v@.len(),
            out@.len() == i,
            forall|j: int| 0 <= j < i ==> #[trigger] out@[j] == hex_bytes(s@)[j],
        decreases count - i,
    {
        assert(text::is_hex_digit(s@[2 * i as int]) && text::is_hex_digit(s@[2 * i as int + 1]));
        let ghost pair = s@.subrange(2 * i as int, 2 * i as int + 2);
        assert(pair =~= seq![s@[2 * i as int], s@[2 * i as int + 1]]);
        proof {
            lemma_pair(s@[2 * i as int], s@[2 * i as int + 1]);
        }
        let b: u32 = match (text::digit_of(v[2 * i]), text::digit_of(v[2 * i + 1])) {
            (Some(h), Some(l)) => h * 16 + l,
            _ => 0,
        };
        out.push(b as u8);
        i += 1;
    }
    assert(out@ =~= hex_bytes(s@));
    out
}

/// Two digits write sixteen times the first and the second.
pub proof fn lemma_pair(a: char, b: char)
    ensures
        text::hex_number(seq![a, b]) == text::digit_value(a) * 16 + text::digit_value(b),
{
    assert(seq![a, b].drop_last() =~= seq![a]);
    assert(seq![a].drop_last() =~= Seq::<char>::empty());
    assert(text::hex_number(seq![a]) == text::digit_value(a)) by {
        reveal_with_fuel(text::hex_number, 2);
    }
}

/// What the timer of a request does next.
#[derive(Debug, Clone, Copy, PartialEq, Eq, Structural)]
pub enum Collect {
    /// The request is no longer out.
    Gone,
    /// Wait at most this long, or until a frame comes.
    Wait { us: u64 },
    /// The request is over; first the tool's parser may have to be realigned.
    Expired { resync: bool },
}

/// The time that a request still has.
pub open spec fn time_left(o: RequestView, now_us: u64) -> int {
    let (window, since) = if o.frames.len() == 0 {
        (NO_DATA_TIMEOUT_US, o.started_us)
    } else if o.expected is None {
        (FUNCTIONAL_QUIET_US, o.last_frame_us)
    } else if o.pending {
        (PENDING_WINDOW_US, o.last_frame_us)
    } else {
        (NO_DATA_TIMEOUT_US, o.last_frame_us)
    };
    let elapsed: int = if now_us > since {
        now_us - since
    } else {
        0
    };
    if elapsed >= window {
        0
    } else {
        window - elapsed
    }
}

/// What the timer of a request does next.
pub open spec fn collect_step(s: SessionView, generation: u64, now_us: u64) -> Collect {
    match s.outstanding {
        Some(o) if o.generation == generation => {
            let left = time_left(o, now_us);
            if left == 0 {
                Collect::Expired { resync: o.stray_errors >= 3 }
            } else {
                Collect::Wait {
                    us: if left < 1000 {
                        1000
                    } else {
                        left as u64
                    },
                }
            }
        },
        _ => Collect::Gone,
    }
}

/// The payloads that are complete, in order.
pub open spec fn complete_payloads(v: Seq<AssemblyView>) -> Seq<PayloadView>
    decreases v.len(),
{
    if v.len() == 0 {
        Seq::empty()
    } else if v.last().done {
        complete_payloads(v.drop_last()).push(v.last().payload)
    } else {
        complete_payloads(v.drop_last())
    }
}

/// The display text of a reply: its frames, one per line.
pub open spec fn reply_text(frames: Seq<RxView>) -> Seq<char> {
    text::join(Seq::new(frames.len(), |i: int| framing::rendered(frames[i])), "\r"@)
}

/// Whether `parse`, called for this command and these payloads, may have given
/// this parse.
pub open spec fn parsed_by<P, F: Fn(&str, &Vec<Payload>) -> Option<P>>(
    parse: F,
    command: Seq<char>,
    r: LinkReply<P>,
) -> bool {
    exists|c: &str| c@ == command && #[trigger] call_ensures(parse, (c, &r.payloads), r.parsed)
}

/// Whether `w` is the reply of one segment that a data reply stands for.
pub open spec fn is_data_reply<P, F: Fn(&str, &Vec<Payload>) -> Option<P>>(
    parse: F,
    command: Seq<char>,
    payloads: Seq<PayloadView>,
    raw: Seq<char>,
    w: WireReply<P>,
) -> bool {
    &&& w.raw@ == raw
    &&& w.segments@.len() == 1
    &&& w.segments@[0].status is Data
    &&& !w.segments@[0].faulted
    &&& link::payload_views(w.segments@[0].payloads@) == payloads
    &&& w.segments@[0].raw@ == raw
    &&& parsed_by(parse, command, w.segments@[0])
}

/// Whether `outcome` is what a request ends with: the error, no data where no
/// frame came, else the complete payloads of its frames.
pub open spec fn is_outcome<P, F: Fn(&str, &Vec<Payload>) -> Option<P>>(
    parse: F,
    o: RequestView,
    err: Option<Seq<char>>,
    a: Addressing,
    outcome: LinkOutcome<P>,
) -> bool {
    match err {
        Some(e) => outcome matches Err(t) && t@ == e,
        None => outcome matches Ok(w) && (if o.frames.len() == 0 {
            &&& w.raw@ == "NO DATA"@
            &&& w.segments@.len() == 1
            &&& w.segments@[0].status is NoData
            &&& w.segments@[0].parsed is None
            &&& w.segments@[0].faulted
            &&& w.segments@[0].payloads@.len() == 0
            &&& w.segments@[0].raw@ == "NO DATA"@
        } else {
            is_data_reply(
                parse,
                o.command,
                complete_payloads(framing::assembled(o.frames, a)),
                reply_text(o.frames),
                w,
            )
        }),
    }
}

/// The ids of a sequence of frames.
pub open spec fn frame_ids(frames: Seq<RxView>) -> Seq<u32> {
    Seq::new(frames.len(), |i: int| frames[i].id)
}

/// The complete payloads of received frames.
fn whole_payloads(frames: &Vec<RxFrame>, bus: Bus) -> (r: Vec<Payload>)
    ensures
        link::payload_views(r@) == complete_payloads(
            framing::assembled(codec::rx_views(frames@), bus.addressing),
        ),
{
    let accs = framing::frame_payloads(frames.as_slice(), bus);
    let ghost all = framing::assembly_views(accs@);
    let ghost accs0 = accs@;
    let mut out: Vec<Payload> = Vec::new();
    assert(link::payload_views(out@) =~= complete_payloads(all.take(0)));
    for acc in it: accs
        invariant
            it.seq() == accs0,
            all == framing::assembly_views(accs0),
            link::payload_views(out@) == complete_payloads(all.take(it.index() as int)),
    {
        let ghost i = it.index() as int;
        assert(all.take(i + 1).drop_last() =~= all.take(i));
        assert(all.take(i + 1).last() == acc@);
        let ghost before = link::payload_views(out@);
        if acc.done {
            let ghost p = acc.payload@;
            out.push(acc.payload);
            assert(link::payload_views(out@) =~= before.push(p));
        }
    }
    assert(all.take(all.len() as int) =~= all);
    out
}

/// The display text of a reply.
fn render_reply(frames: &Vec<RxFrame>) -> (r: String)
    ensures
        r@ == reply_text(codec::rx_views(frames@)),
{
    let ghost all = codec::rx_views(frames@);
    let mut lines: Vec<String> = Vec::new();
    let mut i: usize = 0;
    while i < frames.len()
        invariant
            i <= frames@.len(),
            all == codec::rx_views(frames@),
            lines@.len() == i,
            forall|j: int| 0 <= j < i ==> #[trigger] lines@[j]@ == framing::rendered(all[j]),
        decreases frames@.len() - i,
    {
        lines.push(framing::render_frame(&frames[i]));
        i += 1;
    }
    assert(text::views(lines@) =~= Seq::new(all.len(), |i: int| framing::rendered(all[i])));
    text::join_text(&lines, "\r")
}

// ---- frames from the tool ----

/// Where a frame from the tool goes.
#[derive(Debug, PartialEq, Eq)]
pub enum Route {
    /// A network frame.
    Network(RxFrame),
    /// A transmit was acknowledged.
    TxAcked,
    /// The tool refused the transmit of this request.
    TxFailed { generation: u64, code: String },
    /// The tool refused a transmit and nothing is out.
    Ignored,
    /// An error for a command that was never sent, counted on the request.
    Counted,
    /// An answer to a setup exchange.
    Setup(DviFrame),
}

/// Where a frame goes, as a mathematical value.
#[verifier::ext_equal]
pub enum RouteView {
    Network(RxView),
    TxAcked,
    TxFailed(u64, Seq<char>),
    Ignored,
    Counted,
    Setup(FrameView),
}

impl View for Route {
    type V = RouteView;

    open spec fn view(&self) -> RouteView {
        match *self {
            Route::Network(f) => RouteView::Network(f@),
            Route::TxAcked => RouteView::TxAcked,
            Route::TxFailed { generation, code } => RouteView::TxFailed(generation, code@),
            Route::Ignored => RouteView::Ignored,
            Route::Counted => RouteView::Counted,
            Route::Setup(f) => RouteView::Setup(f@),
        }
    }
}

/// The session and the route after a frame from the tool. An error for a
/// command that was never sent, while a request is out, is the tool reading a
/// transmit byte by byte: it is counted on the request.
pub open spec fn route_step(s: SessionView, f: FrameView) -> (SessionView, RouteView) {
    match f {
        FrameView::Rx(rx) => (s, RouteView::Network(rx)),
        FrameView::Reply { cmd, .. } => if cmd == 0x20 || cmd == 0x21 {
            (s, RouteView::TxAcked)
        } else {
            (s, RouteView::Setup(f))
        },
        FrameView::Error { cmd, code } => if cmd == 0x10 || cmd == 0x11 {
            match s.outstanding {
                Some(o) => (
                    s,
                    RouteView::TxFailed(o.generation, "DVI_ERROR "@ + codec::error_name_of(code)),
                ),
                None => (s, RouteView::Ignored),
            }
        } else {
            match s.outstanding {
                Some(o) => (
                    SessionView {
                        outstanding: Some(
                            RequestView { stray_errors: o.stray_errors + 1, ..o },
                        ),
                        ..s
                    },
                    RouteView::Counted,
                ),
                None => (s, RouteView::Setup(f)),
            }
        },
    }
}

/// What a network frame means for the session.
#[derive(Debug, PartialEq, Eq)]
pub enum Act {
    /// A slot reply; whether it is to be decoded.
    Slot { id: u32, payload: Payload, decode: bool },
    /// The late answer to an earlier request: the command it answers, the
    /// payload and its display text, where it can be told.
    Lagged(Option<(String, Payload, String)>),
    /// The request of this generation is complete.
    Complete(u64),
    Nothing,
}

/// What a network frame means, as a mathematical value.
#[verifier::ext_equal]
pub enum ActView {
    Slot(u32, PayloadView, bool),
    Lagged(Option<(Seq<char>, PayloadView, Seq<char>)>),
    Complete(u64),
    Nothing,
}

impl View for Act {
    type V = ActView;

    open spec fn view(&self) -> ActView {
        match *self {
            Act::Slot { id, payload, decode } => ActView::Slot(id, payload@, decode),
            Act::Lagged(Some(d)) => ActView::Lagged(Some((d.0@, d.1@, d.2@))),
            Act::Lagged(None) => ActView::Lagged(None),
            Act::Complete(g) => ActView::Complete(g),
            Act::Nothing => ActView::Nothing,
        }
    }
}

/// Whether a frame on this id can answer the request: the physical target's
/// response id, or any responder for a functional request.
pub open spec fn waits_for(o: RequestView, id: u32) -> bool {
    o.expected == Some(id) || (o.expected is None && framing::can_respond(id))
}

/// The payload of a frame that is whole by itself.
pub open spec fn whole_frame(f: RxView, a: Addressing) -> Option<PayloadView> {
    let v = framing::assembled(seq![f], a);
    if v.len() > 0 && v[0].done {
        Some(v[0].payload)
    } else {
        None
    }
}

/// Whether a frame is a positive reply with an echo other than the one that
/// the request waits for: the late answer to an earlier request.
pub open spec fn is_lagged(o: RequestView, f: RxView) -> bool {
    let part = framing::response_part(f.data);
    &&& waits_for(o, f.id)
    &&& framing::echo_of(o.command) matches Some(echo)
    &&& part.len() > 0
    &&& part[0] / 64 % 2 == 1
    &&& part[0] != 0x7F
    &&& !(echo.len() <= part.len() && part.take(echo.len() as int) == echo)
}

/// Whether a frame says that the response is pending.
pub open spec fn says_pending(data: Seq<u8>) -> bool {
    data.len() >= 4 && data[0] == 0x03 && data[1] == 0x7F && data[3] == 0x78
}

/// Whether a request that is out asks for exactly the pids of a slot, so that
/// the frame is its answer and not the slot's.
pub open spec fn request_wants(s: SessionView, f: RxView, slot: int) -> bool {
    s.outstanding matches Some(o) && waits_for(o, f.id) && framing::wire_pids(o.command).to_set()
        == s.periodic->0.decoders[slot].pids
}

/// The late answer that a frame is, where the command it answers can be told.
pub open spec fn late_answer(f: RxView, a: Addressing) -> Option<
    (Seq<char>, PayloadView, Seq<char>),
> {
    match whole_frame(f, a) {
        None => None,
        Some(p) => match framing::command_of_reply(p.bytes) {
            None => None,
            Some(c) => Some((c, p, framing::rendered(f))),
        },
    }
}

/// The request after a frame that can answer it.
pub open spec fn with_frame(o: RequestView, f: RxView, now_us: u64) -> RequestView {
    RequestView {
        frames: o.frames.push(f),
        last_frame_us: now_us,
        pending: o.pending || (says_pending(f.data) && o.expected == Some(f.id)),
        ..o
    }
}

/// The session and what a network frame means for it. `slot` is the live slot
/// whose members slice the frame, where there is one.
pub open spec fn rx_step(
    s: SessionView,
    f: RxView,
    a: Addressing,
    slot: Option<int>,
    now_us: u64,
) -> (SessionView, ActView) {
    if slot is Some && !request_wants(s, f, slot->0) {
        (s, ActView::Slot(f.id, whole_frame(f, a)->0, s.periodic->0.open))
    } else {
        match s.outstanding {
            None => (s, ActView::Nothing),
            Some(o) => if is_lagged(o, f) {
                (s, ActView::Lagged(late_answer(f, a)))
            } else if waits_for(o, f.id) {
                let n = with_frame(o, f, now_us);
                (
                    SessionView { outstanding: Some(n), ..s },
                    if o.expected == Some(f.id) && !says_pending(f.data) && framing::is_whole(
                        n.frames,
                        f.id,
                        a,
                    ) {
                        ActView::Complete(o.generation)
                    } else {
                        ActView::Nothing
                    },
                )
            } else {
                (s, ActView::Nothing)
            },
        }
    }
}

/// The live slots whose replies arrive on an id.
pub open spec fn slots_on(s: SessionView, id: u32) -> Seq<int>
{
    match s.periodic {
        None => Seq::empty(),
        Some(p) => matching(p.decoders, id),
    }
}

/// The indices of the decoders of an id, in order.
pub open spec fn matching(v: Seq<SlotView>, id: u32) -> Seq<int>
    decreases v.len(),
{
    if v.len() == 0 {
        Seq::empty()
    } else if v.last().response_id == id {
        matching(v.drop_last(), id).push(v.len() - 1)
    } else {
        matching(v.drop_last(), id)
    }
}

/// The indices of the decoders of an id name decoders of that id.
proof fn lemma_matching(v: Seq<SlotView>, id: u32)
    ensures
        forall|i: int|
            0 <= i < matching(v, id).len() ==> 0 <= (#[trigger] matching(v, id)[i]) < v.len()
                && v[matching(v, id)[i]].response_id == id,
    decreases v.len(),
{
    if v.len() > 0 {
        let head = v.drop_last();
        lemma_matching(head, id);
        assert forall|i: int| 0 <= i < matching(v, id).len() implies 0 <= (#[trigger] matching(
            v,
            id,
        )[i]) < v.len() && v[matching(v, id)[i]].response_id == id by {
            if i < matching(head, id).len() {
                let k = matching(head, id)[i];
                assert(head[k] == v[k]);
            }
        }
    }
}

/// Whether the first `n` of some slots were asked for a payload and none slices
/// it.
pub open spec fn none_slices<F: Fn(&Vec<(String, u8)>, &Payload) -> bool>(
    decoders: Seq<SlotDecoder>,
    slots: Seq<int>,
    n: int,
    slices: F,
    payload: Payload,
) -> bool {
    forall|i: int|
        0 <= i < n ==> call_ensures(
            slices,
            (&decoders[#[trigger] slots[i]].members, &payload),
            false,
        )
}

/// Whether `r` is the first of some slots whose members slice a payload; nothing
/// where there is none.
pub open spec fn is_first_slot<F: Fn(&Vec<(String, u8)>, &Payload) -> bool>(
    decoders: Seq<SlotDecoder>,
    slots: Seq<int>,
    slices: F,
    payload: Payload,
    r: Option<usize>,
) -> bool {
    match r {
        Some(k) => exists|i: int|
            0 <= i < slots.len() && #[trigger] slots[i] == k && none_slices(
                decoders,
                slots,
                i,
                slices,
                payload,
            ) && call_ensures(slices, (&decoders[k as int].members, &payload), true),
        None => none_slices(decoders, slots, slots.len() as int, slices, payload),
    }
}

/// Indices as mathematical integers.
pub open spec fn as_ints(v: Seq<usize>) -> Seq<int> {
    Seq::new(v.len(), |i: int| v[i] as int)
}

impl DviHandler {
    /// A session that is not connected.
    pub fn new() -> (r: Self)
        ensures
            r@ == (SessionView {
                target: None,
                outstanding: None,
                generation: 0,
                last_reply_ids: Seq::empty(),
                last_resync_us: None,
                periodic: None,
                flow_pairs: Seq::empty(),
                dyn_flow: None,
                capture_slots: Seq::empty(),
                listen_only: false,
                pass_all_disabled: false,
            }),
    {
        DviHandler {
            target: None,
            outstanding: None,
            generation: 0,
            last_reply_ids: Vec::new(),
            last_resync_us: None,
            periodic: None,
            flow_pairs: Vec::new(),
            dyn_flow: None,
            capture_slots: Vec::new(),
            listen_only: false,
            pass_all_disabled: false,
        }
    }

    /// Whether a flow filter already serves a request id.
    fn flow_covered(&self, id: u32) -> (r: bool)
        ensures
            r == has_flow(self@, id),
    {
        let mut i: usize = 0;
        while i < self.flow_pairs.len()
            invariant
                i <= self.flow_pairs@.len(),
                forall|j: int| 0 <= j < i ==> (#[trigger] self.flow_pairs@[j]).1 != id,
            decreases self.flow_pairs@.len() - i,
        {
            if self.flow_pairs[i].1 == id {
                assert(self@.flow_pairs[i as int].1 == id);
                return true;
            }
            i += 1;
        }
        match self.dyn_flow {
            Some(p) => p.1 == id,
            None => false,
        }
    }

    /// Turns a queued command into what is to be done: a new target, an
    /// acknowledgement for commands that have no counterpart here, or the
    /// bytes of a request.
    pub fn encode(&mut self, command: &str, a: Addressing, now_us: u64) -> (r: Encoded)
        requires
            old(self).generation < u64::MAX,
            old(self).target matches Some(t) ==> t.1 || t.0 <= u32::MAX - 8,
        ensures
            (final(self)@, r@) == encode_step(old(self)@, a, command@, now_us),
            final(self).target matches Some(t) ==> t.1 || t.0 <= u32::MAX - 8,
    {
        let trimmed = text::trim_text(command, text::Blank::White);
        let cmd = text::to_upper(trimmed.as_str());
        proof {
            reveal_strlit("ATSH");
        }
        if let Some(rest) = text::strip_prefix(cmd.as_str(), "ATSH") {
            let header = text::trim_text(rest.as_str(), text::Blank::White);
            let id: u32 = match text::parse_hex_text(header.as_str(), u32::MAX) {
                Some(n) => n,
                None => {
                    return Encoded::Refused(text::concat("bad ATSH header ", header.as_str()));
                },
            };
            let digits: usize = text::chars_of(header.as_str()).len();
            let extended = digits > 3;
            proof {
                if !extended {
                    lemma_short_header(header@);
                }
            }
            if id == FUNCTIONAL_11 || id == FUNCTIONAL_29 {
                self.target = None;
                return Encoded::Retarget { filter: None };
            }
            let covered = self.flow_covered(id);
            self.target = Some((id, extended));
            if covered {
                return Encoded::Retarget { filter: None };
            }
            let filter = codec::can_filter(
                DYN_FLOW_SLOT,
                extended,
                FilterType::Flow,
                true,
                framing::response_id(id, extended),
                if extended {
                    0x1FFF_FFFF
                } else {
                    0x7FF
                },
                id,
            );
            return Encoded::Retarget { filter: Some(filter) };
        }
        let compact = compact_text(cmd.as_str());
        let n: usize = text::chars_of(compact.as_str()).len();
        let is_hex = n > 0 && n % 2 == 0 && text::is_all_hex(compact.as_str());
        if !is_hex || text::begins_with(cmd.as_str(), "AT") || text::begins_with(cmd.as_str(), "ST")
            || text::begins_with(cmd.as_str(), "DX") {
            return Encoded::Ack;
        }
        let payload = bytes_of_hex(compact.as_str());
        let (id, extended, expected): (u32, bool, Option<u32>) = match self.target {
            Some((id, ext)) => (id, ext, Some(framing::response_id(id, ext))),
            None => match a {
                Addressing::Can11 => (FUNCTIONAL_11, false, None),
                Addressing::Can29 { .. } => (FUNCTIONAL_29, true, None),
            },
        };
        self.generation = self.generation + 1;
        let generation: u64 = self.generation;
        self.outstanding = Some(
            Outstanding {
                command: command.to_owned(),
                expected,
                frames: Vec::new(),
                pending: false,
                stray_errors: 0,
                started_us: now_us,
                last_frame_us: now_us,
                generation,
            },
        );
        assert(self@.outstanding->0.frames =~= Seq::<RxView>::empty());
        Encoded::Send { generation, bytes: codec::tx_can(id, extended, payload.as_slice()) }
    }

    /// The flow filter of a target was accepted.
    pub fn flow_filter_installed(&mut self, id: u32, extended: bool)
        requires
            extended || id <= u32::MAX - 8,
        ensures
            final(self)@ == (SessionView {
                dyn_flow: Some((framing::response_id_of(id, extended), id)),
                ..old(self)@
            }),
    {
        self.dyn_flow = Some((framing::response_id(id, extended), id));
    }

    /// What the timer of a request does next. Without any frame there is no
    /// data after a while; a functional request ends when it has been quiet; a
    /// physical one that saw its target say "pending" waits longer.
    pub fn collector_step(&self, generation: u64, now_us: u64) -> (r: Collect)
        ensures
            r == collect_step(self@, generation, now_us),
    {
        match &self.outstanding {
            Some(o) => {
                if o.generation != generation {
                    return Collect::Gone;
                }
                let (window, since): (u64, u64) = if o.frames.len() == 0 {
                    (NO_DATA_TIMEOUT_US, o.started_us)
                } else if o.expected.is_none() {
                    (FUNCTIONAL_QUIET_US, o.last_frame_us)
                } else if o.pending {
                    (PENDING_WINDOW_US, o.last_frame_us)
                } else {
                    (NO_DATA_TIMEOUT_US, o.last_frame_us)
                };
                let elapsed: u64 = if now_us > since {
                    now_us - since
                } else {
                    0
                };
                if elapsed >= window {
                    Collect::Expired { resync: o.stray_errors >= 3 }
                } else {
                    let left: u64 = window - elapsed;
                    Collect::Wait {
                        us: if left < 1000 {
                            1000
                        } else {
                            left
                        },
                    }
                }
            },
            None => Collect::Gone,
        }
    }

    /// Ends the request of a generation: the command and its outcome, or
    /// nothing where that request is no longer out. `parse` derives the parse
    /// from the payloads.
    pub fn finish<P, F: Fn(&str, &Vec<Payload>) -> Option<P>>(
        &mut self,
        generation: u64,
        err: Option<String>,
        bus: Bus,
        parse: &F,
    ) -> (r: Option<(String, LinkOutcome<P>)>)
        requires
            forall|c: &str, p: &Vec<Payload>| #[trigger] call_requires(*parse, (c, p)),
        ensures
            match old(self)@.outstanding {
                Some(o) if o.generation == generation => {
                    &&& final(self)@ == (SessionView {
                        outstanding: None,
                        last_reply_ids: frame_ids(o.frames),
                        ..old(self)@
                    })
                    &&& r matches Some(done)
                    &&& done.0@ == o.command
                    &&& is_outcome(
                        *parse,
                        o,
                        match err {
                            Some(e) => Some(e@),
                            None => None,
                        },
                        bus.addressing,
                        done.1,
                    )
                },
                _ => r is None && final(self)@ == old(self)@,
            },
    {
        let mine = match &self.outstanding {
            Some(o) => o.generation == generation,
            None => false,
        };
        if !mine {
            return None;
        }
        let o = match self.outstanding.take() {
            Some(o) => o,
            None => {
                return None;
            },
        };
        let ghost req = o@;
        self.last_reply_ids = ids_of(&o.frames);
        let outcome: LinkOutcome<P> = match err {
            Some(e) => Err(e),
            None => {
                if o.frames.len() == 0 {
                    let reply = LinkReply {
                        status: LinkStatus::NoData,
                        parsed: None,
                        faulted: true,
                        payloads: Vec::new(),
                        raw: "NO DATA".to_owned(),
                    };
                    let mut segments: Vec<LinkReply<P>> = Vec::new();
                    segments.push(reply);
                    Ok(WireReply { raw: "NO DATA".to_owned(), segments })
                } else {
                    let payloads = whole_payloads(&o.frames, bus);
                    let raw = render_reply(&o.frames);
                    Ok(data_reply(o.command.as_str(), payloads, raw, parse))
                }
            },
        };
        Some((o.command, outcome))
    }

    /// Routes a frame from the tool.
    pub fn on_frame(&mut self, frame: DviFrame) -> (r: Route)
        requires
            old(self).outstanding matches Some(o) ==> o.stray_errors < u32::MAX,
        ensures
            (final(self)@, r@) == route_step(old(self)@, frame@),
    {
        match frame {
            DviFrame::Rx(rx) => Route::Network(rx),
            DviFrame::Reply { cmd, data } => {
                if cmd == 0x20 || cmd == 0x21 {
                    Route::TxAcked
                } else {
                    Route::Setup(DviFrame::Reply { cmd, data })
                }
            },
            DviFrame::Error { cmd, code } => {
                if cmd == 0x10 || cmd == 0x11 {
                    match &self.outstanding {
                        Some(o) => Route::TxFailed {
                            generation: o.generation,
                            code: text::concat("DVI_ERROR ", codec::error_name(code)),
                        },
                        None => Route::Ignored,
                    }
                } else {
                    match self.outstanding.take() {
                        Some(mut o) => {
                            o.stray_errors = o.stray_errors + 1;
                            self.outstanding = Some(o);
                            Route::Counted
                        },
                        None => Route::Setup(DviFrame::Error { cmd, code }),
                    }
                }
            },
        }
    }

    /// The payload of a frame that is whole by itself, with the live slots that
    /// its id belongs to; `slot_for` picks the first of them whose members slice
    /// the payload.
    pub fn slot_candidates(&self, rx: &RxFrame, bus: Bus) -> (r: Option<(Payload, Vec<usize>)>)
        ensures
            match r {
                Some(c) => slots_on(self@, rx.id).len() > 0 && whole_frame(rx@, bus.addressing)
                    == Some(c.0@) && as_ints(c.1@) == slots_on(self@, rx.id),
                None => slots_on(self@, rx.id).len() == 0 || whole_frame(rx@, bus.addressing)
                    is None,
            },
    {
        let p = match &self.periodic {
            Some(p) => p,
            None => {
                return None;
            },
        };
        let slots = decoders_on(&p.decoders, rx.id);
        if slots.len() == 0 {
            return None;
        }
        match whole_payload(rx, bus) {
            Some(payload) => Some((payload, slots)),
            None => None,
        }
    }

    /// The live slot that a frame belongs to: several may share an id, and the
    /// first whose members slice the payload has it.
    pub fn slot_for<F: Fn(&Vec<(String, u8)>, &Payload) -> bool>(
        &self,
        rx: &RxFrame,
        bus: Bus,
        slices: &F,
    ) -> (r: Option<usize>)
        requires
            forall|m: &Vec<(String, u8)>, p: &Payload| #[trigger] call_requires(*slices, (m, p)),
        ensures
            r is Some ==> self.periodic is Some && r->0 < self.periodic->0.decoders@.len()
                && self.periodic->0.decoders@[r->0 as int].response_id == rx.id && whole_frame(
                rx@,
                bus.addressing,
            ) is Some,
            self.periodic is None || slots_on(self@, rx.id).len() == 0 || whole_frame(
                rx@,
                bus.addressing,
            ) is None ==> r is None,
            self.periodic is Some && slots_on(self@, rx.id).len() > 0 && whole_frame(
                rx@,
                bus.addressing,
            ) is Some ==> exists|p: Payload|
                whole_frame(rx@, bus.addressing) == Some(p@) && #[trigger] is_first_slot(
                    self.periodic->0.decoders@,
                    slots_on(self@, rx.id),
                    *slices,
                    p,
                    r,
                ),
    {
        let (payload, slots) = match self.slot_candidates(rx, bus) {
            Some(c) => c,
            None => {
                return None;
            },
        };
        let live = match &self.periodic {
            Some(p) => p,
            None => {
                return None;
            },
        };
        let ghost on = slots_on(self@, rx.id);
        proof {
            lemma_matching(slot_views(live.decoders@), rx.id);
        }
        let mut i: usize = 0;
        while i < slots.len()
            invariant
                i <= slots@.len(),
                on == as_ints(slots@),
                self.periodic == Some(*live),
                forall|j: int|
                    0 <= j < on.len() ==> 0 <= (#[trigger] on[j]) < live.decoders@.len()
                        && live.decoders@[on[j]].response_id == rx.id,
                forall|m: &Vec<(String, u8)>, p: &Payload| #[trigger]
                    call_requires(*slices, (m, p)),
                whole_frame(rx@, bus.addressing) == Some(payload@),
                on == slots_on(self@, rx.id),
                none_slices(live.decoders@, on, i as int, *slices, payload),
            decreases slots@.len() - i,
        {
            let k: usize = slots[i];
            assert(on[i as int] == k);
            if slices(&live.decoders[k].members, &payload) {
                assert(is_first_slot(live.decoders@, on, *slices, payload, Some(k)));
                return Some(k);
            }
            i += 1;
        }
        assert(is_first_slot(live.decoders@, on, *slices, payload, None));
        None
    }

    /// What a network frame means. On a shared response id every answer of a
    /// controller looks alike, so a plain request completes only on a reply
    /// that echoes it; a positive reply with another echo is the late answer to
    /// an earlier request and leaves the current one waiting. `slot` is the
    /// live slot whose members slice the frame, where there is one.
    pub fn on_rx(&mut self, rx: RxFrame, bus: Bus, slot: Option<usize>, now_us: u64) -> (r: Act)
        requires
            slot matches Some(k) ==> old(self)@.periodic is Some && k < old(
                self,
            )@.periodic->0.decoders.len() && whole_frame(rx@, bus.addressing) is Some,
        ensures
            (final(self)@, r@) == rx_step(
                old(self)@,
                rx@,
                bus.addressing,
                match slot {
                    Some(k) => Some(k as int),
                    None => None,
                },
                now_us,
            ),
    {
        let ghost s0 = self@;
        let ghost f = rx@;
        if let Some(k) = slot {
            if !self.wanted_by_request(rx.id, k) {
                let decode = match &self.periodic {
                    Some(p) => p.open,
                    None => false,
                };
                if let Some(payload) = whole_payload(&rx, bus) {
                    return Act::Slot { id: rx.id, payload, decode };
                }
            }
        }
        match self.outstanding.take() {
            None => Act::Nothing,
            Some(o) => {
                if lags(&o, &rx) {
                    let answer = late(&rx, bus);
                    self.outstanding = Some(o);
                    return Act::Lagged(answer);
                }
                if !request_waits_for(&o, rx.id) {
                    self.outstanding = Some(o);
                    return Act::Nothing;
                }
                let mut o = o;
                let id = rx.id;
                let d = rx.data.as_slice();
                let nrc_pending = d.len() >= 4 && d[0] == 0x03 && d[1] == 0x7F && d[3] == 0x78;
                let physical = match o.expected {
                    Some(want) => want == id,
                    None => false,
                };
                let ghost before = codec::rx_views(o.frames@);
                o.frames.push(rx);
                assert(codec::rx_views(o.frames@) =~= before.push(f));
                o.last_frame_us = now_us;
                if nrc_pending && physical {
                    o.pending = true;
                }
                let whole = physical && !nrc_pending && framing::reply_complete(
                    o.frames.as_slice(),
                    id,
                    bus,
                );
                let generation: u64 = o.generation;
                self.outstanding = Some(o);
                if whole {
                    Act::Complete(generation)
                } else {
                    Act::Nothing
                }
            },
        }
    }

    /// Whether the request that is out asks for exactly the pids of a slot.
    fn wanted_by_request(&self, id: u32, k: usize) -> (r: bool)
        requires
            self@.periodic is Some,
            k < self@.periodic->0.decoders.len(),
        ensures
            r == (self@.outstanding matches Some(o) && waits_for(o, id) && framing::wire_pids(
                o.command,
            ).to_set() == self@.periodic->0.decoders[k as int].pids),
    {
        match (&self.outstanding, &self.periodic) {
            (Some(o), Some(p)) => {
                if !request_waits_for(o, id) {
                    return false;
                }
                let asked = framing::command_pid_set(o.command.as_str());
                assert(self@.periodic->0.decoders[k as int] == p.decoders@[k as int]@);
                text::same_set(&asked, &p.decoders[k].pids)
            },
            _ => false,
        }
    }

    /// Whether the tool's parser is to be realigned now, at most once in a
    /// while.
    pub fn resync_due(&mut self, now_us: u64) -> (r: bool)
        ensures
            r == (match old(self).last_resync_us {
                Some(t) => now_us >= t && now_us - t >= RESYNC_INTERVAL_US,
                None => true,
            }),
            r ==> final(self)@ == (SessionView { last_resync_us: Some(now_us), ..old(self)@ }),
            !r ==> final(self)@ == old(self)@,
    {
        let due = match self.last_resync_us {
            Some(t) => now_us >= t && now_us - t >= RESYNC_INTERVAL_US,
            None => true,
        };
        if due {
            self.last_resync_us = Some(now_us);
        }
        due
    }
}

proof fn lemma_short_header(s: Seq<char>)
    requires
        s.len() <= 3,
        text::parse_hex(s) is Some,
    ensures
        text::parse_hex(s)->0 <= 0xFFF,
{
    let body = if s.len() > 0 && s[0] == '+' {
        s.skip(1)
    } else {
        s
    };
    lemma_hex_bound(body);
    assert(pow(3) == 4096) by {
        reveal_with_fuel(pow, 4);
    }
    lemma_pow_mono(body.len(), 3);
}

/// Sixteen to the power of `n`.
spec fn pow(n: nat) -> nat
    decreases n,
{
    if n == 0 {
        1
    } else {
        16 * pow((n - 1) as nat)
    }
}

proof fn lemma_pow_mono(a: nat, b: nat)
    requires
        a <= b,
    ensures
        pow(a) <= pow(b),
    decreases b,
{
    if a < b {
        lemma_pow_mono(a, (b - 1) as nat);
    }
}

proof fn lemma_hex_bound(s: Seq<char>)
    requires
        text::all_hex(s),
    ensures
        text::hex_number(s) < pow(s.len()),
    decreases s.len(),
{
    if s.len() > 0 {
        assert forall|i: int| 0 <= i < s.drop_last().len() implies text::is_hex_digit(
            #[trigger] s.drop_last()[i],
        ) by {
            assert(s.drop_last()[i] == s[i]);
        }
        lemma_hex_bound(s.drop_last());
        assert(text::is_hex_digit(s[s.len() - 1]));
    }
}

/// A data reply of one segment.
fn data_reply<P, F: Fn(&str, &Vec<Payload>) -> Option<P>>(
    command: &str,
    payloads: Vec<Payload>,
    raw: String,
    parse: &F,
) -> (r: WireReply<P>)
    requires
        forall|c: &str, p: &Vec<Payload>| #[trigger] call_requires(*parse, (c, p)),
    ensures
        is_data_reply(*parse, command@, link::payload_views(payloads@), raw@, r),
{
    let parsed = parse(command, &payloads);
    let whole = raw.clone();
    let reply = LinkReply { status: LinkStatus::Data, parsed, faulted: false, payloads, raw };
    assert(call_ensures(*parse, (command, &reply.payloads), reply.parsed));
    assert(parsed_by(*parse, command@, reply));
    let mut segments: Vec<LinkReply<P>> = Vec::new();
    segments.push(reply);
    WireReply { raw: whole, segments }
}

/// The reply to deliver for a late answer, under the command that it names.
pub fn late_reply<P, F: Fn(&str, &Vec<Payload>) -> Option<P>>(
    answer: (String, Payload, String),
    parse: &F,
) -> (r: (String, WireReply<P>))
    requires
        forall|c: &str, p: &Vec<Payload>| #[trigger] call_requires(*parse, (c, p)),
    ensures
        r.0 == answer.0,
        is_data_reply(*parse, answer.0@, seq![answer.1@], answer.2@, r.1),
{
    let (command, payload, raw) = answer;
    let mut payloads: Vec<Payload> = Vec::new();
    payloads.push(payload);
    assert(link::payload_views(payloads@) =~= seq![answer.1@]);
    let w = data_reply(command.as_str(), payloads, raw, parse);
    (command, w)
}

/// The acknowledgement of a command that needs no exchange on the bus.
pub fn ack_reply<P>() -> (r: WireReply<P>)
    ensures
        r.raw@ == "OK"@,
        r.segments@.len() == 1,
        r.segments@[0].status is Chatter,
        r.segments@[0].parsed is None,
        !r.segments@[0].faulted,
        r.segments@[0].payloads@.len() == 0,
        r.segments@[0].raw@ == "OK"@,
{
    let mut segments: Vec<LinkReply<P>> = Vec::new();
    segments.push(LinkReply::ack());
    WireReply { raw: "OK".to_owned(), segments }
}

fn ids_of(frames: &Vec<RxFrame>) -> (r: Vec<u32>)
    ensures
        r@ == frame_ids(codec::rx_views(frames@)),
{
    let mut out: Vec<u32> = Vec::new();
    let mut i: usize = 0;
    while i < frames.len()
        invariant
            i <= frames@.len(),
            out@.len() == i,
            forall|j: int| 0 <= j < i ==> #[trigger] out@[j] == frames@[j].id,
        decreases frames@.len() - i,
    {
        out.push(frames[i].id);
        i += 1;
    }
    assert(out@ =~= frame_ids(codec::rx_views(frames@)));
    out
}

fn decoders_on(v: &Vec<SlotDecoder>, id: u32) -> (r: Vec<usize>)
    ensures
        as_ints(r@) == matching(slot_views(v@), id),
{
    let ghost all = slot_views(v@);
    let mut out: Vec<usize> = Vec::new();
    let mut i: usize = 0;
    assert(as_ints(out@) =~= matching(all.take(0), id));
    while i < v.len()
        invariant
            i <= v@.len(),
            all == slot_views(v@),
            as_ints(out@) == matching(all.take(i as int), id),
        decreases v@.len() - i,
    {
        assert(all.take(i + 1).drop_last() =~= all.take(i as int));
        assert(all.take(i + 1).last() == v@[i as int]@);
        let ghost before = as_ints(out@);
        if v[i].response_id == id {
            out.push(i);
            assert(as_ints(out@) =~= before.push(i as int));
        }
        i += 1;
    }
    assert(all.take(i as int) =~= all);
    out
}

/// The payload of a frame that is whole by itself.
fn whole_payload(rx: &RxFrame, bus: Bus) -> (r: Option<Payload>)
    ensures
        r is Some <==> whole_frame(rx@, bus.addressing) is Some,
        r matches Some(p) ==> whole_frame(rx@, bus.addressing) == Some(p@),
{
    let mut one: Vec<RxFrame> = Vec::new();
    one.push(rx.duplicate());
    assert(codec::rx_views(one@) =~= seq![rx@]);
    let mut accs = framing::frame_payloads(one.as_slice(), bus);
    if accs.len() > 0 {
        assert(framing::assembly_views(accs@)[0] == accs@[0]@);
        let first = accs.swap_remove(0);
        if first.done {
            return Some(first.payload);
        }
    }
    None
}

fn request_waits_for(o: &Outstanding, id: u32) -> (r: bool)
    ensures
        r == waits_for(o@, id),
{
    match o.expected {
        Some(want) => want == id,
        None => framing::is_obd_responder(id),
    }
}

fn starts_with_bytes(s: &[u8], p: &[u8]) -> (r: bool)
    ensures
        r == (p@.len() <= s@.len() && s@.take(p@.len() as int) == p@),
{
    if s.len() < p.len() {
        return false;
    }
    let head = vstd::slice::slice_subrange(s, 0, p.len());
    assert(head@ =~= s@.take(p@.len() as int));
    bytes::equal(head, p)
}

fn lags(o: &Outstanding, rx: &RxFrame) -> (r: bool)
    ensures
        r == is_lagged(o@, rx@),
{
    if !request_waits_for(o, rx.id) {
        return false;
    }
    let echo = match framing::expected_echo(o.command.as_str()) {
        Some(e) => e,
        None => {
            return false;
        },
    };
    let part = framing::frame_response_bytes(rx.data.as_slice());
    part.len() > 0 && part[0] / 64 % 2 == 1 && part[0] != 0x7F && !starts_with_bytes(
        part,
        echo.as_slice(),
    )
}

fn late(rx: &RxFrame, bus: Bus) -> (r: Option<(String, Payload, String)>)
    ensures
        r is Some <==> late_answer(rx@, bus.addressing) is Some,
        r matches Some(d) ==> late_answer(rx@, bus.addressing) == Some((d.0@, d.1@, d.2@)),
{
    match whole_payload(rx, bus) {
        None => None,
        Some(p) => match framing::command_for_reply(p.bytes.as_slice()) {
            None => None,
            Some(c) => {
                let raw = framing::render_frame(rx);
                Some((c, p, raw))
            },
        },
    }
}

/// Microseconds as seconds with six decimals.
pub open spec fn stamp_text(us: u32) -> Seq<char> {
    text::decimal((us / 1_000_000) as nat) + "."@ + six_digits((us % 1_000_000) as nat)
}

/// A number below one million as six digits.
pub open spec fn six_digits(n: nat) -> Seq<char> {
    seq![
        text::digit_char(n / 100_000 % 10),
        text::digit_char(n / 10_000 % 10),
        text::digit_char(n / 1_000 % 10),
        text::digit_char(n / 100 % 10),
        text::digit_char(n / 10 % 10),
        text::digit_char(n % 10),
    ]
}

/// The monitor frame that a network frame is seen as; a frame with the tool's
/// stamp carries it in front of its display text.
pub open spec fn tapped(f: RxView, now_us: u64) -> FrameValue {
    let extended = f.id > 0x7FF;
    FrameValue {
        id: framing::id_header(f.id, extended),
        extended,
        ts_us: match f.ts_us {
            Some(t) => t as u64,
            None => now_us,
        },
        data: f.data,
        raw: match f.ts_us {
            Some(t) => stamp_text(t) + " "@ + framing::rendered(f),
            None => framing::rendered(f),
        },
    }
}

/// The monitor frame that a network frame is seen as.
pub fn tap_frame(rx: &RxFrame, now_us: u64) -> (r: Frame)
    ensures
        r@ == tapped(rx@, now_us),
{
    let extended = rx.id > 0x7FF;
    let id = if extended {
        text::hex_text(rx.id, 8)
    } else {
        text::hex_text(rx.id, 3)
    };
    let line = framing::render_frame(rx);
    let (ts_us, raw): (u64, String) = match rx.ts_us {
        Some(t) => {
            let mut s = text::decimal_text((t / 1_000_000) as u64);
            s.append(".");
            let n: u32 = t % 1_000_000;
            let ghost before = s@;
            s.push(text::digit_text(n / 100_000 % 10));
            s.push(text::digit_text(n / 10_000 % 10));
            s.push(text::digit_text(n / 1_000 % 10));
            s.push(text::digit_text(n / 100 % 10));
            s.push(text::digit_text(n / 10 % 10));
            s.push(text::digit_text(n % 10));
            assert(s@ =~= before + six_digits(n as nat));
            s.append(" ");
            s.append(line.as_str());
            (t as u64, s)
        },
        None => (now_us, line),
    };
    let data = bytes::range(rx.data.as_slice(), 0, rx.data.len());
    assert(data@ =~= rx.data@);
    Frame { id, extended, ts_us, data, raw }
}

// ---- laws ----

/// A late answer, and a frame that the request does not wait for, leave the
/// session as it is: neither the clocks nor the frames of the request change.
pub proof fn foreign_frames_change_nothing(
    s: SessionView,
    f: RxView,
    a: Addressing,
    slot: Option<int>,
    now_us: u64,
)
    requires
        s.outstanding matches Some(o) ==> is_lagged(o, f) || !waits_for(o, f.id),
    ensures
        rx_step(s, f, a, slot, now_us).0 == s,
        !(rx_step(s, f, a, slot, now_us).1 is Complete),
{
}

/// A frame completes at most the request that is out, and only a physical one
/// on its own response id.
pub proof fn only_the_waiting_request_completes(
    s: SessionView,
    f: RxView,
    a: Addressing,
    slot: Option<int>,
    now_us: u64,
    generation: u64,
)
    requires
        rx_step(s, f, a, slot, now_us).1 == ActView::Complete(generation),
    ensures
        s.outstanding matches Some(o) && o.generation == generation && o.expected == Some(f.id),
{
}

/// A plain request is never completed by the answer to another one: a positive
/// reply that completes it opens with its own echo.
pub proof fn a_plain_request_completes_on_its_echo(
    s: SessionView,
    f: RxView,
    a: Addressing,
    slot: Option<int>,
    now_us: u64,
    echo: Seq<u8>,
)
    requires
        rx_step(s, f, a, slot, now_us).1 is Complete,
        framing::echo_of(s.outstanding->0.command) == Some(echo),
    ensures
        ({
            let part = framing::response_part(f.data);
            part.len() == 0 || part[0] / 64 % 2 == 0 || part[0] == 0x7F || (echo.len() <= part.len()
                && part.take(echo.len() as int) == echo)
        }),
{
}

/// Requests never share a generation: a command that is sent takes the next
/// one, so that the timer of an earlier request finds it gone.
pub proof fn a_new_request_outdates_the_old(
    s: SessionView,
    a: Addressing,
    command: Seq<char>,
    now_us: u64,
    later_us: u64,
)
    requires
        s.generation < u64::MAX,
        encode_step(s, a, command, now_us).1 is Send,
        s.outstanding matches Some(o) ==> o.generation <= s.generation,
    ensures
        s.outstanding matches Some(o) ==> collect_step(
            encode_step(s, a, command, now_us).0,
            o.generation,
            later_us,
        ) == Collect::Gone,
{
}

/// The target that a header command sets is the one that the next request
/// goes to and waits for.
pub proof fn the_target_is_asked(
    s: SessionView,
    a: Addressing,
    header: Seq<char>,
    command: Seq<char>,
    now_us: u64,
)
    requires
        encode_step(s, a, header, now_us).0.target is Some,
        encode_step(encode_step(s, a, header, now_us).0, a, command, now_us).1 is Send,
    ensures
        ({
            let t = encode_step(s, a, header, now_us).0.target->0;
            let sent = encode_step(encode_step(s, a, header, now_us).0, a, command, now_us);
            sent.0.outstanding->0.expected == Some(framing::response_id_of(t.0, t.1))
        }),
{
}

/// The target says that its response is pending: a physical request stays out,
/// with the same command, generation and expected id, and from then on has three
/// seconds. This is so for every service.
pub proof fn a_pending_response_is_awaited(
    s: SessionView,
    f: RxView,
    a: Addressing,
    now_us: u64,
    later_us: u64,
    service: u8,
    padding: Seq<u8>,
)
    requires
        s.outstanding is Some,
        s.outstanding->0.expected == Some(f.id),
        f.data == seq![0x03u8, 0x7Fu8, service, 0x78u8] + padding,
        now_us <= later_us,
    ensures
        ({
            let (n, act) = rx_step(s, f, a, None, now_us);
            let o = s.outstanding->0;
            let g = o.generation;
            &&& act is Nothing
            &&& n.outstanding is Some
            &&& n.outstanding->0.pending
            &&& n.outstanding->0.command == o.command
            &&& n.outstanding->0.generation == g
            &&& n.outstanding->0.expected == o.expected
            &&& later_us < now_us + 2_999_000 ==> collect_step(n, g, later_us) == (Collect::Wait {
                us: (3_000_000 - (later_us - now_us)) as u64,
            })
            &&& now_us + 2_999_000 <= later_us < now_us + 3_000_000 ==> collect_step(n, g, later_us)
                == (Collect::Wait { us: 1_000 })
            &&& later_us >= now_us + 3_000_000 ==> collect_step(n, g, later_us) is Expired
        }),
{
    assert(f.data[0] == 0x03 && f.data[1] == 0x7F && f.data[2] == service && f.data[3] == 0x78);
    assert(framing::response_part(f.data)[0] == 0x7F);
}

/// Any other refusal ends a physical request: it is not pending, and the refusal
/// is its reply.
pub proof fn a_refusal_ends_the_request(
    s: SessionView,
    f: RxView,
    a: Addressing,
    now_us: u64,
    service: u8,
    code: u8,
    padding: Seq<u8>,
)
    requires
        s.outstanding is Some,
        s.outstanding->0.expected == Some(f.id),
        f.data == seq![0x03u8, 0x7Fu8, service, code] + padding,
        code != 0x78,
    ensures
        ({
            let (n, act) = rx_step(s, f, a, None, now_us);
            &&& act == ActView::Complete(s.outstanding->0.generation)
            &&& n.outstanding is Some
            &&& n.outstanding->0.pending == s.outstanding->0.pending
            &&& n.outstanding->0.frames == s.outstanding->0.frames.push(f)
        }),
{
    assert(f.data[0] == 0x03 && f.data[1] == 0x7F && f.data[2] == service && f.data[3] == code);
    assert(framing::response_part(f.data)[0] == 0x7F);
    let payload = seq![0x7Fu8, service, code];
    assert(f.data =~= seq![payload.len() as u8] + payload + padding);
    lemma_single_is_whole(s.outstanding->0.frames, f, payload, padding, a);
}

/// With a single frame the latest reply of its id is whole.
proof fn lemma_single_is_whole(
    before: Seq<RxView>,
    f: RxView,
    payload: Seq<u8>,
    padding: Seq<u8>,
    a: Addressing,
)
    requires
        1 <= payload.len() <= 15,
        f.data == seq![payload.len() as u8] + payload + padding,
    ensures
        framing::is_whole(before.push(f), f.id, a),
{
    framing::a_single_frame_is_whole(before, f.id, f.ts_us, payload, padding, a);
    let v = framing::assembled(before.push(f), a);
    assert(before.push(f) =~= before.push(
        RxView { id: f.id, ts_us: f.ts_us, data: seq![payload.len() as u8] + payload + padding },
    ));
    assert(v.last().id == f.id);
}

/// A physical request completes on the single frame that echoes it, with the
/// generation that it was sent with, whatever the identifier is.
pub proof fn a_request_completes_on_its_answer(
    s: SessionView,
    f: RxView,
    a: Addressing,
    now_us: u64,
    h: u8,
    l: u8,
    value: Seq<u8>,
    padding: Seq<u8>,
)
    requires
        s.outstanding is Some,
        s.outstanding->0.expected == Some(f.id),
        value.len() <= 12,
        ({
            let x = text::hex_padded(h as nat, 2);
            let y = text::hex_padded(l as nat, 2);
            ||| s.outstanding->0.command == "01"@ + x && f.data == seq![(2 + value.len()) as u8]
                + (seq![0x41u8, h] + value) + padding
            ||| s.outstanding->0.command == "22"@ + x + y && f.data == seq![
                (3 + value.len()) as u8,
            ] + (seq![0x62u8, h, l] + value) + padding
        }),
    ensures
        ({
            let (n, act) = rx_step(s, f, a, None, now_us);
            &&& act == ActView::Complete(s.outstanding->0.generation)
            &&& n.outstanding is Some && n.outstanding->0.frames == s.outstanding->0.frames.push(f)
        }),
{
    framing::an_echo_is_mode_and_identifier(h, l);
    let x = text::hex_padded(h as nat, 2);
    let y = text::hex_padded(l as nat, 2);
    let d = f.data;
    let part = framing::response_part(d);
    if s.outstanding->0.command == "01"@ + x && d == seq![(2 + value.len()) as u8] + (seq![
        0x41u8,
        h,
    ] + value) + padding {
        let payload = seq![0x41u8, h] + value;
        assert(d =~= seq![payload.len() as u8] + payload + padding);
        assert(d[0] == 2 + value.len());
        assert(part =~= payload + padding);
        assert(part.take(2) =~= seq![0x41u8, h]);
        lemma_single_is_whole(s.outstanding->0.frames, f, payload, padding, a);
    } else {
        let payload = seq![0x62u8, h, l] + value;
        assert(d =~= seq![payload.len() as u8] + payload + padding);
        assert(d[0] == 3 + value.len());
        assert(part =~= payload + padding);
        assert(part.take(3) =~= seq![0x62u8, h, l]);
        lemma_single_is_whole(s.outstanding->0.frames, f, payload, padding, a);
    }
}

/// The late answer to an earlier request is delivered under that request: while
/// a plain request waits, a single frame that echoes another identifier changes
/// nothing and is told by the command that asked for it, with its payload.
pub proof fn a_late_answer_is_told_by_its_command(
    s: SessionView,
    f: RxView,
    a: Addressing,
    now_us: u64,
    h: u8,
    l: u8,
    h2: u8,
    l2: u8,
    value: Seq<u8>,
    padding: Seq<u8>,
)
    requires
        s.outstanding is Some,
        s.outstanding->0.expected == Some(f.id) || (s.outstanding->0.expected is None && 0x7E8
            <= f.id <= 0x7EF),
        value.len() <= 12,
        (h, l) != (h2, l2),
        s.outstanding->0.command == "22"@ + text::hex_padded(h as nat, 2) + text::hex_padded(
            l as nat,
            2,
        ),
        f.data == seq![(3 + value.len()) as u8] + (seq![0x62u8, h2, l2] + value) + padding,
    ensures
        rx_step(s, f, a, None, now_us) == (
            s,
            ActView::Lagged(
                Some(
                    (
                        "22"@ + text::hex_padded(h2 as nat, 2) + text::hex_padded(l2 as nat, 2),
                        PayloadView {
                            controller: framing::key_of(f.id, a),
                            bytes: seq![0x62u8, h2, l2] + value,
                        },
                        framing::rendered(f),
                    ),
                ),
            ),
        ),
{
    framing::an_echo_is_mode_and_identifier(h, l);
    let payload = seq![0x62u8, h2, l2] + value;
    let d = f.data;
    assert(d =~= seq![payload.len() as u8] + payload + padding);
    assert(d[0] == 3 + value.len());
    let part = framing::response_part(d);
    assert(part =~= payload + padding);
    assert(part[0] == 0x62);
    let echo = seq![0x62u8, h, l];
    if part.take(3) == echo {
        assert(part.take(3)[1] == h2 && part.take(3)[2] == l2);
        assert(echo[1] == h && echo[2] == l);
        assert(false);
    }
    let e = Seq::<RxView>::empty();
    framing::a_single_frame_is_whole(e, f.id, f.ts_us, payload, padding, a);
    assert(e.push(f) =~= seq![f]);
    assert(e.push(f) =~= e.push(
        RxView { id: f.id, ts_us: f.ts_us, data: seq![payload.len() as u8] + payload + padding },
    ));
    let v = framing::assembled(seq![f], a);
    assert(framing::assembled(e, a).len() == 0);
    assert(v.len() == 1 && v[0].done && v[0].payload.bytes == payload);
}

/// A functional request takes the answers of all responders and never completes
/// on a frame: it ends when the bus has been quiet for 60 milliseconds.
pub proof fn a_functional_request_ends_when_it_is_quiet(
    s: SessionView,
    f: RxView,
    a: Addressing,
    now_us: u64,
    later_us: u64,
)
    requires
        s.outstanding is Some,
        s.outstanding->0.expected is None,
        framing::echo_of(s.outstanding->0.command) is None,
        now_us <= later_us,
    ensures
        ({
            let (n, act) = rx_step(s, f, a, None, now_us);
            let g = s.outstanding->0.generation;
            let answers = 0x7E8 <= f.id <= 0x7EF || 0x18DA0000 <= f.id <= 0x18DAFFFF;
            &&& act is Nothing
            &&& n.outstanding is Some
            &&& answers ==> n.outstanding->0.frames == s.outstanding->0.frames.push(f)
            &&& !answers ==> n == s
            &&& answers && later_us < now_us + 59_000 ==> collect_step(n, g, later_us) == (
            Collect::Wait { us: (60_000 - (later_us - now_us)) as u64 })
            &&& answers && later_us >= now_us + 60_000 ==> collect_step(n, g, later_us) is Expired
            &&& answers && later_us < now_us + 60_000 ==> collect_step(n, g, later_us) is Wait
        }),
{
}

/// A request to which nothing comes has a quarter of a second; so has a physical
/// one from the last frame of an unfinished reply. The tool's parser is realigned
/// afterwards where it complained of three commands that were never sent.
pub proof fn silence_is_no_data(s: SessionView, generation: u64, now_us: u64)
    requires
        s.outstanding is Some,
        s.outstanding->0.generation == generation,
        s.outstanding->0.frames.len() == 0 || (s.outstanding->0.expected is Some
            && !s.outstanding->0.pending),
        ({
            let o = s.outstanding->0;
            now_us >= (if o.frames.len() == 0 {
                o.started_us
            } else {
                o.last_frame_us
            })
        }),
    ensures
        ({
            let o = s.outstanding->0;
            let since = if o.frames.len() == 0 {
                o.started_us
            } else {
                o.last_frame_us
            };
            &&& now_us < since + 249_000 ==> collect_step(s, generation, now_us) == (Collect::Wait {
                us: (250_000 - (now_us - since)) as u64,
            })
            &&& since + 249_000 <= now_us < since + 250_000 ==> collect_step(s, generation, now_us)
                == (Collect::Wait { us: 1_000 })
            &&& now_us >= since + 250_000 ==> collect_step(s, generation, now_us)
                == (Collect::Expired { resync: o.stray_errors > 2 })
        }),
{
}

/// Errors of the tool for commands that were never sent are counted on the
/// request; those for a transmit fail the request under their name, and a
/// transmit's reply is an acknowledgement. Nothing of this goes to a setup
/// exchange while a request is out.
pub proof fn tool_frames_are_told_apart(s: SessionView, cmd: u8, code: u8, data: Seq<u8>)
    requires
        s.outstanding is Some,
    ensures
        ({
            let e = route_step(s, FrameView::Error { cmd, code });
            let r = route_step(s, FrameView::Reply { cmd, data });
            let o = s.outstanding->0;
            &&& cmd == 0x10 || cmd == 0x11 ==> e.1 == RouteView::TxFailed(
                o.generation,
                "DVI_ERROR "@ + codec::error_name_of(code),
            ) && e.0 == s
            &&& cmd != 0x10 && cmd != 0x11 ==> e.1 is Counted && e.0.outstanding is Some
                && e.0.outstanding->0.stray_errors == o.stray_errors + 1
                && e.0.outstanding->0.generation == o.generation
                && e.0.outstanding->0.frames == o.frames
            &&& cmd == 0x20 || cmd == 0x21 <==> r.1 is TxAcked
            &&& cmd != 0x20 && cmd != 0x21 ==> r.1 is Setup
            &&& r.0 == s
        }),
{
}

/// `ATSH` and three digits set an 11-bit target, eight digits a 29-bit one; the
/// functional ids take the target away. The next request goes to that id and is
/// answered where its answers come: 8 above an 11-bit id, 0x400 above in the low
/// range.
pub proof fn a_header_sets_the_target(s: SessionView, a: Addressing, id: u32, now_us: u64)
    requires
        id <= 0x7FF,
    ensures
        ({
            let (n, r) = encode_step(s, a, "ATSH"@ + text::hex_padded(id as nat, 3), now_us);
            &&& r is Retarget
            &&& id == 0x7DF ==> n.target is None && r->Retarget_0 is None
            &&& id != 0x7DF ==> n.target == Some((id, false))
            &&& id != 0x7DF && s.flow_pairs.len() == 0 && s.dyn_flow is None ==> r->Retarget_0
                is Some
            &&& n.outstanding == s.outstanding && n.generation == s.generation
        }),
{
    lemma_header_command(id);
    let x = text::hex_padded(id as nat, 3);
    let c = "ATSH"@ + x;
    reveal_strlit("ATSH");
    assert(c.take(4) =~= "ATSH"@);
    assert(c.skip(4) =~= x);
}

/// The command that sets an 11-bit target reads as it was written.
proof fn lemma_header_command(id: u32)
    requires
        id <= 0x7FF,
    ensures
        ({
            let x = text::hex_padded(id as nat, 3);
            let c = "ATSH"@ + x;
            &&& text::upper(text::trim(c)) == c
            &&& text::trim(x) == x
            &&& text::hex_within(x, u32::MAX as nat) == Some(id as nat)
            &&& x.len() == 3
        }),
{
    reveal_strlit("ATSH");
    let x = text::hex_padded(id as nat, 3);
    let c = "ATSH"@ + x;
    crate::addressing::lemma_id_width(id as nat);
    crate::addressing::lemma_hex_is_plain(id as nat, 3);
    crate::addressing::lemma_plain_is_normal(x);
    text::hex_reads_back(id as nat, 3);
    assert(!text::is_white(x[0]) && !text::is_white(x[x.len() - 1]));
    assert(text::trim(x) == x);
    assert(c[0] == 'A' && c[c.len() - 1] == x[2]);
    assert(text::trim(c) == c);
    assert forall|i: int| 0 <= i < c.len() implies (#[trigger] c[i] as u32) < 128 && text::ascii_up(
        c[i],
    ) == c[i] by {
        if 4 <= i {
            assert(c[i] == x[i - 4]);
        }
    }
    assert(text::all_ascii(c));
    assert(text::ascii_upper(c) =~= c);
}

/// Bytes in hexadecimal, one behind the other.
pub open spec fn written_bytes(b: Seq<u8>) -> Seq<char>
    decreases b.len(),
{
    if b.len() == 0 {
        Seq::empty()
    } else {
        written_bytes(b.drop_last()) + text::hex_padded(b.last() as nat, 2)
    }
}

/// Bytes written in hexadecimal are read back.
pub proof fn lemma_written_bytes(b: Seq<u8>)
    ensures
        written_bytes(b).len() == 2 * b.len(),
        crate::addressing::plain_header(written_bytes(b)),
        hex_bytes(written_bytes(b)) == b,
    decreases b.len(),
{
    let s = written_bytes(b);
    if b.len() > 0 {
        let h = written_bytes(b.drop_last());
        let x = text::hex_padded(b.last() as nat, 2);
        lemma_written_bytes(b.drop_last());
        crate::addressing::lemma_byte_width(b.last() as nat);
        crate::addressing::lemma_hex_is_plain(b.last() as nat, 2);
        assert forall|i: int| 0 <= i < s.len() implies ('0' <= #[trigger] s[i] <= '9') || ('A'
            <= s[i] <= 'F') by {
            if i < h.len() {
                assert(s[i] == h[i]);
            } else {
                assert(s[i] == x[i - h.len()]);
            }
        }
        assert forall|i: int| 0 <= i < b.len() implies #[trigger] hex_bytes(s)[i] == b[i] by {
            if i < b.len() - 1 {
                assert(s.subrange(2 * i, 2 * i + 2) =~= h.subrange(2 * i, 2 * i + 2));
                assert(hex_bytes(h)[i] == b.drop_last()[i]);
            } else {
                assert(s.subrange(2 * i, 2 * i + 2) =~= x);
            }
        }
    }
    assert(hex_bytes(s) =~= b);
}

/// A request in hexadecimal goes out as the bytes it writes: to the target, or
/// to the functional id of the addressing, under the next generation; its clock
/// starts now, and nothing has come yet. A physical request waits for the answer
/// of its target, a functional one for any.
pub proof fn a_request_goes_out_as_its_bytes(
    s: SessionView,
    a: Addressing,
    b: Seq<u8>,
    now_us: u64,
)
    requires
        b.len() > 0,
        s.generation < u64::MAX,
    ensures
        ({
            let c = written_bytes(b);
            let (n, r) = encode_step(s, a, c, now_us);
            let to = match s.target {
                Some(t) => t.0,
                None => if a is Can11 {
                    0x7DFu32
                } else {
                    0x18DB33F1u32
                },
            };
            &&& r == EncodedView::Send((s.generation + 1) as u64, codec::tx_bytes(to, b))
            &&& n.generation == s.generation + 1
            &&& n.target == s.target
            &&& n.outstanding is Some
            &&& n.outstanding->0.command == c
            &&& n.outstanding->0.generation == s.generation + 1
            &&& n.outstanding->0.frames.len() == 0
            &&& !n.outstanding->0.pending
            &&& n.outstanding->0.stray_errors == 0
            &&& n.outstanding->0.started_us == now_us
            &&& n.outstanding->0.expected is Some <==> s.target is Some
            &&& s.target is Some && !(s.target->0).1 && (s.target->0).0 <= 0x7FF
                ==> n.outstanding->0.expected
                == Some(
                (if 0x241 <= (s.target->0).0 <= 0x25F {
                    (s.target->0).0 + 0x400
                } else {
                    (s.target->0).0 + 8
                }) as u32,
            )
        }),
{
    let c = written_bytes(b);
    lemma_written_bytes(b);
    crate::addressing::lemma_plain_is_normal(c);
    lemma_plain_is_compact(c);
    reveal_strlit("ATSH");
    reveal_strlit("AT");
    reveal_strlit("ST");
    reveal_strlit("DX");
    assert("ATSH"@[1] == 'T');
    assert("AT"@[1] == 'T');
    assert("ST"@[1] == 'T');
    assert("DX"@[1] == 'X');
    if c.len() >= 2 {
        assert(('0' <= c[1] <= '9') || ('A' <= c[1] <= 'F'));
        assert(!text::starts_with(c, "AT"@)) by {
            if text::starts_with(c, "AT"@) {
                assert(c.take(2)[1] == c[1]);
            }
        }
        assert(!text::starts_with(c, "ST"@)) by {
            if text::starts_with(c, "ST"@) {
                assert(c.take(2)[1] == c[1]);
            }
        }
        assert(!text::starts_with(c, "DX"@)) by {
            if text::starts_with(c, "DX"@) {
                assert(c.take(2)[1] == c[1]);
            }
        }
        assert(!text::starts_with(c, "ATSH"@)) by {
            if text::starts_with(c, "ATSH"@) {
                assert(c.take(4)[1] == c[1]);
            }
        }
    }
    if s.target is Some {
        let t = s.target->0;
        if !t.1 && t.0 <= 0x7FF {
            framing::response_id_11bit(t.0);
        }
    }
}

proof fn lemma_plain_is_compact(c: Seq<char>)
    requires
        crate::addressing::plain_header(c),
    ensures
        compacted(c) == c,
    decreases c.len(),
{
    if c.len() > 0 {
        let h = c.drop_last();
        assert forall|i: int| 0 <= i < h.len() implies ('0' <= #[trigger] h[i] <= '9') || ('A'
            <= h[i] <= 'F') by {
            assert(h[i] == c[i]);
        }
        lemma_plain_is_compact(h);
        assert(('0' <= c[c.len() - 1] <= '9') || ('A' <= c[c.len() - 1] <= 'F'));
        assert(h.push(c.last()) =~= c);
    }
}

/// A command of another dialect is acknowledged and changes nothing.
pub proof fn other_dialects_are_acknowledged(
    s: SessionView,
    a: Addressing,
    command: Seq<char>,
    now_us: u64,
)
    requires
        ({
            let c = text::upper(text::trim(command));
            ||| c.len() >= 2 && c[0] == 'A' && c[1] == 'T' && (c.len() < 4 || c[2] != 'S' || c[3]
                != 'H')
            ||| c.len() >= 2 && c[0] == 'S' && c[1] == 'T'
            ||| c.len() >= 2 && c[0] == 'D' && c[1] == 'X'
        }),
    ensures
        encode_step(s, a, command, now_us) == (s, EncodedView::Ack),
{
    reveal_strlit("ATSH");
    reveal_strlit("AT");
    reveal_strlit("ST");
    reveal_strlit("DX");
    let c = text::upper(text::trim(command));
    assert(c.take(2) =~= seq![c[0], c[1]]);
    assert("AT"@ =~= seq!['A', 'T']);
    assert("ST"@ =~= seq!['S', 'T']);
    assert("DX"@ =~= seq!['D', 'X']);
    if text::starts_with(c, "ATSH"@) {
        assert(c.take(4)[0] == c[0] && c.take(4)[1] == c[1] && c.take(4)[2] == c[2] && c.take(4)[3]
            == c[3]);
        assert("ATSH"@[0] == 'A' && "ATSH"@[1] == 'T' && "ATSH"@[2] == 'S' && "ATSH"@[3] == 'H');
        assert(false);
    }
}

/// A frame of a live slot goes to the slot and leaves the request alone, unless
/// the request asks for exactly the slot's pids: then it is the request's.
pub proof fn slot_frames_go_to_the_slot(
    s: SessionView,
    f: RxView,
    a: Addressing,
    slot: int,
    now_us: u64,
)
    requires
        s.periodic is Some,
        0 <= slot < s.periodic->0.decoders.len(),
    ensures
        s.outstanding is None ==> rx_step(s, f, a, Some(slot), now_us) == (
            s,
            ActView::Slot(f.id, whole_frame(f, a)->0, s.periodic->0.open),
        ),
        s.outstanding is Some && framing::wire_pids(s.outstanding->0.command).to_set()
            != s.periodic->0.decoders[slot].pids ==> rx_step(s, f, a, Some(slot), now_us) == (
            s,
            ActView::Slot(f.id, whole_frame(f, a)->0, s.periodic->0.open),
        ),
        s.outstanding is Some && s.outstanding->0.expected == Some(f.id) && framing::wire_pids(
            s.outstanding->0.command,
        ).to_set() == s.periodic->0.decoders[slot].pids ==> rx_step(
            s,
            f,
            a,
            Some(slot),
            now_us,
        ) == rx_step(s, f, a, None, now_us),
{
}

/// What is delivered are the complete payloads, each as it was put together and
/// in the order in which they were opened; an unfinished one is not.
pub proof fn complete_payloads_are_delivered(v: Seq<AssemblyView>, x: AssemblyView)
    ensures
        x.done ==> complete_payloads(v.push(x)) == complete_payloads(v).push(x.payload),
        !x.done ==> complete_payloads(v.push(x)) == complete_payloads(v),
        complete_payloads(Seq::empty()).len() == 0,
{
    assert(v.push(x).drop_last() =~= v);
}

/// A request ends in one of three ways: with the error that it was ended by, as
/// faulted `NO DATA` where no frame came, else as one segment of data that shows
/// its frames, one per line.
pub proof fn how_a_request_ends<P, F: Fn(&str, &Vec<Payload>) -> Option<P>>(
    parse: F,
    o: RequestView,
    a: Addressing,
    e: Seq<char>,
    outcome: LinkOutcome<P>,
)
    ensures
        is_outcome(parse, o, Some(e), a, outcome) ==> outcome is Err && outcome->Err_0@ == e,
        is_outcome(parse, o, None, a, outcome) && o.frames.len() == 0 ==> outcome is Ok
            && outcome->Ok_0.raw@ == "NO DATA"@ && outcome->Ok_0.segments@.len() == 1
            && outcome->Ok_0.segments@[0].status is NoData && outcome->Ok_0.segments@[0].faulted
            && outcome->Ok_0.segments@[0].payloads@.len() == 0,
        is_outcome(parse, o, None, a, outcome) && o.frames.len() == 1 ==> outcome is Ok
            && outcome->Ok_0.raw@ == framing::rendered(o.frames[0])
            && outcome->Ok_0.segments@.len() == 1 && outcome->Ok_0.segments@[0].status is Data
            && !outcome->Ok_0.segments@[0].faulted && link::payload_views(
            outcome->Ok_0.segments@[0].payloads@,
        ) == (match whole_frame(o.frames[0], a) {
            Some(p) => seq![p],
            None => Seq::empty(),
        }),
{
    if o.frames.len() == 1 {
        let lines = Seq::new(o.frames.len(), |i: int| framing::rendered(o.frames[i]));
        assert(text::join(lines, "\r"@) == lines[0]);
        assert(o.frames =~= seq![o.frames[0]]);
        let v = framing::assembled(o.frames, a);
        let e = Seq::<RxView>::empty();
        assert(o.frames.drop_last() =~= e);
        assert(framing::assembled(e, a).len() == 0);
        assert(v.len() <= 1);
        if v.len() == 1 {
            assert(v.drop_last() =~= Seq::<AssemblyView>::empty());
            assert(complete_payloads(v.drop_last()).len() == 0);
            assert(v.last() == v[0]);
            if v[0].done {
                assert(complete_payloads(v) =~= seq![v[0].payload]);
            } else {
                assert(complete_payloads(v) =~= Seq::<PayloadView>::empty());
            }
        } else {
            assert(complete_payloads(v) =~= Seq::<PayloadView>::empty());
        }
    }
}

/// A frame on the monitor is the frame of the wire: its id in three digits or,
/// above 11 bits, in eight, its bytes, and the tool's stamp where it has one.
pub proof fn a_tapped_frame_is_the_frame(f: RxView, now_us: u64)
    ensures
        ({
            let t = tapped(f, now_us);
            &&& t.extended <==> f.id >= 0x800
            &&& text::hex_number(t.id) == f.id
            &&& !t.extended ==> t.id.len() == 3
            &&& t.extended ==> t.id.len() >= 8
            &&& t.data == f.data
            &&& f.ts_us is None ==> t.ts_us == now_us && t.raw == framing::rendered(f)
            &&& f.ts_us is Some ==> t.ts_us == f.ts_us->0 && text::ends_with(
                t.raw,
                framing::rendered(f),
            )
        }),
{
    text::lemma_hex_padded(f.id as nat, 8);
    text::lemma_hex_padded(f.id as nat, 3);
    if f.id <= 0x7FF {
        crate::addressing::lemma_id_width(f.id as nat);
    }
    if f.ts_us is Some {
        let us = f.ts_us->0;
        let r = framing::rendered(f);
        let raw = stamp_text(us) + " "@ + r;
        assert(raw.skip(raw.len() - r.len()) =~= r);
    }
}

/// The decimals of a stamp write the microseconds of the second.
pub proof fn six_decimals_write_the_microseconds(n: nat)
    requires
        n < 1_000_000,
    ensures
        six_digits(n).len() == 6,
        text::hex_number(six_digits(n)) % 16 == n % 10,
        n >= 10 ==> six_digits(n).take(5) == six_digits(n / 10).skip(1),
        n < 10 ==> six_digits(n).take(5) == seq!['0', '0', '0', '0', '0'],
{
    let d = six_digits(n);
    text::lemma_digit_round_trip(n % 10);
    assert(text::hex_number(d) == text::hex_number(d.drop_last()) * 16 + n % 10);
    let m = n / 10;
    assert(m / 10_000 % 10 == n / 100_000 % 10);
    assert(m / 1_000 % 10 == n / 10_000 % 10);
    assert(m / 100 % 10 == n / 1_000 % 10);
    assert(m / 10 % 10 == n / 100 % 10);
    assert(six_digits(n).take(5) =~= six_digits(m).skip(1));
    if n < 10 {
        assert(text::digit_char(0) == '0');
        assert(six_digits(n).take(5) =~= seq!['0', '0', '0', '0', '0']);
    }
}

proof fn lemma_six_digits(n: nat)
    requires
        n < 1_000_000,
    ensures
        text::all_digits(six_digits(n)),
        text::decimal_number(six_digits(n)) == n,
{
    let d = six_digits(n);
    let a = seq![d[0]];
    let b = a.push(d[1]);
    let c = b.push(d[2]);
    let e = c.push(d[3]);
    let f = e.push(d[4]);
    assert(d =~= f.push(d[5]));
    assert(a.drop_last() =~= Seq::<char>::empty());
    assert(b.drop_last() =~= a);
    assert(c.drop_last() =~= b);
    assert(e.drop_last() =~= c);
    assert(f.drop_last() =~= e);
    assert(d.drop_last() =~= f);
    assert(text::decimal_number(Seq::<char>::empty()) == 0);
    assert(text::decimal_number(a) == n / 100_000);
    assert(n / 10_000 == n / 100_000 * 10 + n / 10_000 % 10);
    assert(text::decimal_number(b) == n / 10_000);
    assert(n / 1_000 == n / 10_000 * 10 + n / 1_000 % 10);
    assert(text::decimal_number(c) == n / 1_000);
    assert(n / 100 == n / 1_000 * 10 + n / 100 % 10);
    assert(text::decimal_number(e) == n / 100);
    assert(n / 10 == n / 100 * 10 + n / 10 % 10);
    assert(text::decimal_number(f) == n / 10);
    assert(text::decimal_number(d) == n);
}

/// A stamp is the seconds, a point and six decimals: read back as such it is
/// the microseconds.
pub proof fn a_stamp_is_read_back(us: u32)
    ensures
        ({
            let s = stamp_text(us);
            let n = s.len() - 7;
            &&& n >= 1
            &&& s[n] == '.'
            &&& text::all_digits(s.take(n)) && text::all_digits(s.skip(n + 1))
            &&& text::decimal_number(s.take(n)) * 1_000_000 + text::decimal_number(s.skip(n + 1))
                == us
        }),
{
    reveal_strlit(".");
    let s = stamp_text(us);
    let whole = text::decimal((us / 1_000_000) as nat);
    let part = six_digits((us % 1_000_000) as nat);
    text::decimal_reads_back((us / 1_000_000) as nat);
    lemma_six_digits((us % 1_000_000) as nat);
    let n = s.len() - 7;
    assert(n == whole.len());
    assert(s.take(n) =~= whole);
    assert(s.skip(n + 1) =~= part);
    assert(us == us / 1_000_000 * 1_000_000 + us % 1_000_000);
}

/// The mask of a width compares every bit of an id of that width: two ids agree
/// under it exactly where they are the same.
pub proof fn the_mask_compares_whole_ids(a: u32, b: u32)
    ensures
        a <= 0x7FF && b <= 0x7FF ==> (a & id_mask(false) == b & id_mask(false) <==> a == b),
        a <= 0x1FFF_FFFF && b <= 0x1FFF_FFFF ==> (a & id_mask(true) == b & id_mask(true) <==> a
            == b),
        a & id_mask(false) <= 0x7FF,
        a & id_mask(true) <= 0x1FFF_FFFF,
{
    assert(a <= 0x7FF && b <= 0x7FF ==> (a & 0x7FF == b & 0x7FF <==> a == b)) by (bit_vector);
    assert(a <= 0x1FFF_FFFF && b <= 0x1FFF_FFFF ==> (a & 0x1FFF_FFFF == b & 0x1FFF_FFFF <==> a
        == b)) by (bit_vector);
    assert(a & 0x7FF <= 0x7FF && a & 0x1FFF_FFFF <= 0x1FFF_FFFF) by (bit_vector);
}

/// A target is served where a standing flow filter or the one that was set last
/// sends flow control to it.
pub proof fn which_targets_have_a_flow_filter(s: SessionView, id: u32, i: int)
    ensures
        0 <= i < s.flow_pairs.len() && s.flow_pairs[i].1 == id ==> has_flow(s, id),
        s.dyn_flow is Some && (s.dyn_flow->0).1 == id ==> has_flow(s, id),
        has_flow(s, id) && s.flow_pairs.len() == 0 ==> s.dyn_flow is Some && (s.dyn_flow->0).1
            == id,
        has_flow(s, id) && s.dyn_flow is None ==> exists|j: int|
            0 <= j < s.flow_pairs.len() && (#[trigger] s.flow_pairs[j]).1 == id,
{
}

/// A frame lags where it is a positive reply that is waited for by id and
/// echoes something else: neither the request's own reply, nor a refusal, nor a
/// frame without payload lags.
pub proof fn which_frames_lag(o: RequestView, f: RxView, echo: Seq<u8>)
    requires
        framing::echo_of(o.command) == Some(echo),
    ensures
        ({
            let part = framing::response_part(f.data);
            &&& part.len() == 0 ==> !is_lagged(o, f)
            &&& !waits_for(o, f.id) ==> !is_lagged(o, f)
            &&& part.len() > 0 && part[0] == 0x7F ==> !is_lagged(o, f)
            &&& part.len() > 0 && part[0] < 0x40 ==> !is_lagged(o, f)
            &&& echo.len() <= part.len() && part.take(echo.len() as int) == echo ==> !is_lagged(
                o,
                f,
            )
            &&& waits_for(o, f.id) && part.len() > 0 && 0x40 <= part[0] < 0x7F && (part.len()
                < echo.len() || part.take(echo.len() as int) != echo) ==> is_lagged(o, f)
        }),
{
}

} // verus!
