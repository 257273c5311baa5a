//! Setting a DVI tool up: bootstrap, filters, bus search and capture. Each
//! function decides what is exchanged next; its caller exchanges it.
use crate::addressing;
use crate::addressing::{Addressing, Bus, Controller};
use crate::link::dvi::codec;
use crate::link::dvi::codec::{Comm, DviFrame, FilterType, FrameView, ObdProtocol};
use crate::link::dvi::framing;
use crate::link::dvi::handler::{DviHandler, SessionView};
use crate::link::dvi::handler;
use crate::link::elm;
use crate::link::{
    AdapterFacts, AddressingFail, CaptureFilter, ConnectFail, HostFacts, LinkStatus, StatusView,
};
use crate::text;
use vstd::prelude::*;

verus! {

/// The slot of the standing receive filter.
pub const OBD_PASS_SLOT: u8 = 8;

/// The first slot of the 29-bit flow filters.
pub const FLOW_29_BASE: usize = 9;

/// The first slot of the capture filters.
pub const CAPTURE_SLOT_BASE: u8 = 16;

/// How many capture filters there are.
pub const CAPTURE_SLOTS: usize = 10;

/// The reply byte of the filter and CAN settings.
pub const CAN_REPLY: u8 = 0x44;

/// The reply byte of the protocol settings.
pub const PROTOCOL_REPLY: u8 = 0x41;

/// The reply byte of the information requests.
pub const INFO_REPLY: u8 = 0x32;

/// The reply byte of the tool settings.
pub const SETTINGS_REPLY: u8 = 0x34;

// ---- filters ----

/// A filter as the bytes that set it.
pub open spec fn filter_bytes(
    number: u8,
    extended: bool,
    kind: FilterType,
    on: bool,
    id: u32,
    mask: u32,
    flow_id: u32,
) -> Seq<u8> {
    codec::frame_bytes(
        codec::cmd::CAN,
        codec::filter_data(number, extended, kind, on, id, mask, flow_id),
    )
}

/// The standing receive filter: the 11-bit diagnostic range `700-7FF`. Letting
/// the whole bus through would flood the link.
pub fn obd_pass_filter(on: bool) -> (r: Vec<u8>)
    ensures
        r@ == filter_bytes(OBD_PASS_SLOT, false, FilterType::Pass, on, 0x700, 0x700, 0),
{
    codec::can_filter(OBD_PASS_SLOT, false, FilterType::Pass, on, 0x700, 0x700, 0)
}

/// The 29-bit receive filter `18DAF1xx`: without it the first reply of a
/// 29-bit vehicle would never be heard. The flow filters take its slot over
/// once the responders are known.
pub fn obd_pass_filter_29(on: bool) -> (r: Vec<u8>)
    ensures
        r@ == filter_bytes(9, true, FilterType::Pass, on, 0x18DAF100, 0x1FFFFF00, 0),
{
    codec::can_filter(9, true, FilterType::Pass, on, 0x18DAF100, 0x1FFFFF00, 0)
}

/// A receive filter for an id list.
pub fn pass_filter_frame(number: u8, id: u32, mask: u32, extended: bool) -> (r: Vec<u8>)
    ensures
        r@ == filter_bytes(number, extended, FilterType::Pass, true, id, mask, 0),
{
    codec::can_filter(number, extended, FilterType::Pass, true, id, mask, 0)
}

/// The request id that a 29-bit response id answers: source and tester swapped.
pub open spec fn request_of_response(rx: u32, tester: u8) -> u32 {
    (rx / 0x10000 * 0x10000 + rx % 0x100 * 0x100 + tester) as u32
}

/// Whether a response id has a pair.
pub open spec fn is_paired(pairs: Seq<(u32, u32)>, rx: u32) -> bool {
    exists|i: int| 0 <= i < pairs.len() && (#[trigger] pairs[i]).0 == rx
}

/// One pair for each 29-bit responder, in the order in which they answered.
pub open spec fn responder_pairs(responders: Seq<u32>, tester: u8) -> Seq<(u32, u32)>
    decreases responders.len(),
{
    if responders.len() == 0 {
        Seq::empty()
    } else {
        let before = responder_pairs(responders.drop_last(), tester);
        let rx = responders.last();
        if rx > 0x7FF && !is_paired(before, rx) {
            before.push((rx, request_of_response(rx, tester)))
        } else {
            before
        }
    }
}

/// The flow pairs of a bus, response id and request id: the eight standard
/// pairs on an 11-bit bus, one for each responder on a 29-bit bus.
pub open spec fn flow_pairs_of(a: Addressing, responders: Seq<u32>) -> Seq<(u32, u32)> {
    match a {
        Addressing::Can11 => Seq::new(8, |n: int| ((0x7E8 + n) as u32, (0x7E0 + n) as u32)),
        Addressing::Can29 { tester } => responder_pairs(responders, tester),
    }
}

/// The slot of the flow filter at place `i`.
pub open spec fn flow_slot(a: Addressing, i: int) -> u8 {
    let n = if a is Can29 {
        FLOW_29_BASE + i
    } else {
        i
    };
    if n < 27 {
        n as u8
    } else {
        27
    }
}

/// The filter of a flow pair.
pub open spec fn flow_bytes(a: Addressing, i: int, pair: (u32, u32)) -> Seq<u8> {
    filter_bytes(
        flow_slot(a, i),
        a is Can29,
        FilterType::Flow,
        true,
        pair.0,
        handler::id_mask(a is Can29),
        pair.1,
    )
}

/// The views of a sequence of byte vectors.
pub open spec fn byte_views(v: Seq<Vec<u8>>) -> Seq<Seq<u8>> {
    Seq::new(v.len(), |i: int| v[i]@)
}

/// The flow pairs of a bus.
pub fn flow_pairs(a: Addressing, responders: &[u32]) -> (r: Vec<(u32, u32)>)
    ensures
        r@ == flow_pairs_of(a, responders@),
{
    let mut pairs: Vec<(u32, u32)> = Vec::new();
    match a {
        Addressing::Can11 => {
            let mut n: u32 = 0;
            while n < 8
                invariant
                    n <= 8,
                    pairs@.len() == n,
                    forall|j: int|
                        0 <= j < n ==> #[trigger] pairs@[j] == ((0x7E8 + j) as u32, (0x7E0
                            + j) as u32),
                decreases 8 - n,
            {
                pairs.push((0x7E8 + n, 0x7E0 + n));
                n += 1;
            }
            assert(pairs@ =~= flow_pairs_of(a, responders@));
        },
        Addressing::Can29 { tester } => {
            let mut i: usize = 0;
            assert(pairs@ =~= responder_pairs(responders@.take(0), tester));
            while i < responders.len()
                invariant
                    i <= responders@.len(),
                    pairs@ == responder_pairs(responders@.take(i as int), tester),
                decreases responders@.len() - i,
            {
                assert(responders@.take(i + 1).drop_last() =~= responders@.take(i as int));
                let rx = responders[i];
                if rx > 0x7FF && !has_pair(&pairs, rx) {
                    let tx: u32 = rx / 0x10000 * 0x10000 + rx % 0x100 * 0x100 + tester as u32;
                    pairs.push((rx, tx));
                }
                i += 1;
            }
            assert(responders@.take(i as int) =~= responders@);
        },
    }
    pairs
}

fn has_pair(pairs: &Vec<(u32, u32)>, rx: u32) -> (r: bool)
    ensures
        r == is_paired(pairs@, rx),
{
    let mut i: usize = 0;
    while i < pairs.len()
        invariant
            i <= pairs@.len(),
            forall|j: int| 0 <= j < i ==> (#[trigger] pairs@[j]).0 != rx,
        decreases pairs@.len() - i,
    {
        if pairs[i].0 == rx {
            assert(pairs@[i as int].0 == rx);
            return true;
        }
        i += 1;
    }
    false
}

/// The filters of flow pairs: the tool sends flow control only for a responder
/// that matches such a filter, so a multi-frame reply needs one.
pub fn flow_filters(a: Addressing, pairs: &Vec<(u32, u32)>) -> (r: Vec<Vec<u8>>)
    ensures
        byte_views(r@) == Seq::new(pairs@.len(), |i: int| flow_bytes(a, i, pairs@[i])),
{
    let extended = matches!(a, Addressing::Can29 { .. });
    let mask: u32 = if extended {
        0x1FFF_FFFF
    } else {
        0x7FF
    };
    let mut out: Vec<Vec<u8>> = Vec::new();
    let mut i: usize = 0;
    while i < pairs.len()
        invariant
            i <= pairs@.len(),
            extended == (a is Can29),
            mask == handler::id_mask(extended),
            out@.len() == i,
            forall|j: int|
                0 <= j < i ==> (#[trigger] out@[j])@ == flow_bytes(a, j, pairs@[j]),
        decreases pairs@.len() - i,
    {
        let base: usize = if extended {
            FLOW_29_BASE
        } else {
            0
        };
        let n: u8 = if i < 27 - base {
            (base + i) as u8
        } else {
            27
        };
        out.push(
            codec::can_filter(n, extended, FilterType::Flow, true, pairs[i].0, mask, pairs[i].1),
        );
        i += 1;
    }
    assert(byte_views(out@) =~= Seq::new(pairs@.len(), |i: int| flow_bytes(a, i, pairs@[i])));
    out
}

// ---- setup exchanges ----

/// What a frame means for a setup exchange.
#[derive(Debug, PartialEq, Eq)]
pub enum SetupVerdict {
    /// The reply that was waited for.
    Done(Vec<u8>),
    /// The tool refused the command.
    Failed(String),
    /// The frame answers something else; keep waiting.
    KeepWaiting,
}

/// What a frame means for the exchange of command `sent` that waits for a reply
/// `expect`. An error counts only where it answers this command.
pub open spec fn setup_verdict_of(f: FrameView, expect: u8, sent: u8, r: SetupVerdict) -> bool {
    match f {
        FrameView::Reply { cmd, data } if cmd == expect => r matches SetupVerdict::Done(d) && d@
            == data,
        FrameView::Error { cmd, code } if cmd == sent => r matches SetupVerdict::Failed(t) && t@
            == "DVI error on "@ + text::hex_padded(cmd as nat, 2) + ": "@ + codec::error_name_of(
            code,
        ),
        _ => r is KeepWaiting,
    }
}

/// What a frame means for a setup exchange; errors that earlier garbage
/// provoked are skipped.
pub fn setup_verdict(frame: DviFrame, expect: u8, sent: u8) -> (r: SetupVerdict)
    ensures
        setup_verdict_of(frame@, expect, sent, r),
{
    match frame {
        DviFrame::Reply { cmd, data } => {
            if cmd == expect {
                SetupVerdict::Done(data)
            } else {
                SetupVerdict::KeepWaiting
            }
        },
        DviFrame::Error { cmd, code } => {
            if cmd == sent {
                let mut s = "DVI error on ".to_owned();
                text::push_hex(&mut s, cmd as u32, 2);
                s.append(": ");
                s.append(codec::error_name(code));
                SetupVerdict::Failed(s)
            } else {
                SetupVerdict::KeepWaiting
            }
        },
        DviFrame::Rx(_) => SetupVerdict::KeepWaiting,
    }
}

/// The error of a setup exchange that got no reply in time.
pub fn no_reply_error(sent: u8) -> (r: String)
    ensures
        r@ == "no DVI reply to "@ + text::hex_padded(sent as nat, 2),
{
    let mut s = "no DVI reply to ".to_owned();
    text::push_hex(&mut s, sent as u32, 2);
    s
}

// ---- bootstrap ----

/// Whether a reply confirms the binary mode.
pub open spec fn confirms(reply: Seq<u8>) -> bool {
    reply == seq![0x06u8, 0x01u8]
}

fn is_confirmed(reply: &Vec<u8>) -> (r: bool)
    ensures
        r == confirms(reply@),
{
    if reply.len() == 2 && reply[0] == 0x06 && reply[1] == 0x01 {
        assert(reply@ =~= seq![0x06u8, 0x01u8]);
        true
    } else {
        false
    }
}

/// The first probe of the bootstrap: the binary mode request with a carriage
/// return, which a tool in text mode answers with a question mark.
pub fn bootstrap_probe() -> (r: Vec<u8>)
    ensures
        r@ == codec::frame_bytes(codec::cmd::PROTOCOL, seq![0x06u8, 0x01u8]).push(0x0D),
{
    let mut probe = codec::set_api_dvi();
    probe.push(0x0D);
    probe
}

/// Whether the reply to the first probe shows that the tool is in binary mode
/// already. If not, the text command that switches it is sent, and the mode is
/// confirmed. Text sent to a tool in binary mode would be garbage to it.
pub fn already_binary(reply: &Result<Vec<u8>, String>) -> (r: bool)
    ensures
        r == (match reply {
            Ok(d) => confirms(d@),
            Err(_) => false,
        }),
{
    match reply {
        Ok(d) => is_confirmed(d),
        Err(_) => false,
    }
}

/// The text command that switches a tool to binary mode.
pub fn binary_switch() -> (r: &'static str)
    ensures
        r@ == "DX DP 1"@,
{
    "DX DP 1"
}

/// Bytes in hexadecimal inside square brackets.
pub open spec fn bracketed(v: Seq<u8>) -> Seq<char> {
    "["@ + text::join(Seq::new(v.len(), |i: int| text::hex_padded(v[i] as nat, 2)), ", "@) + "]"@
}

/// The verdict on the bootstrap after the mode was to be confirmed.
pub fn bootstrap_verdict(reply: Result<Vec<u8>, String>) -> (r: Result<(), String>)
    ensures
        match reply {
            Ok(d) => if confirms(d@) {
                r is Ok
            } else {
                r matches Err(e) && e@ == "DVI mode not confirmed: "@ + bracketed(d@)
            },
            Err(e) => r == Err::<(), String>(e),
        },
{
    match reply {
        Ok(d) => {
            if is_confirmed(&d) {
                Ok(())
            } else {
                let mut parts: Vec<String> = Vec::new();
                let mut i: usize = 0;
                while i < d.len()
                    invariant
                        i <= d@.len(),
                        parts@.len() == i,
                        forall|j: int|
                            0 <= j < i ==> #[trigger] parts@[j]@ == text::hex_padded(
                                d@[j] as nat,
                                2,
                            ),
                    decreases d@.len() - i,
                {
                    parts.push(text::hex_text(d[i] as u32, 2));
                    i += 1;
                }
                assert(text::views(parts@) =~= Seq::new(
                    d@.len(),
                    |i: int| text::hex_padded(d@[i] as nat, 2),
                ));
                let mut s = "DVI mode not confirmed: ".to_owned();
                let ghost start = s@;
                s.append("[");
                s.append(text::join_text(&parts, ", ").as_str());
                s.append("]");
                assert(s@ =~= start + bracketed(d@));
                Err(s)
            }
        },
        Err(e) => Err(e),
    }
}

// ---- connect ----

/// One exchange of the connect sequence.
pub struct SetupStep {
    pub bytes: Vec<u8>,
    /// The reply byte to wait for.
    pub expect: u8,
    /// Without a reply the connection fails.
    pub required: bool,
}

/// An exchange as a mathematical value.
#[verifier::ext_equal]
pub struct StepView {
    pub bytes: Seq<u8>,
    pub expect: u8,
    pub required: bool,
}

impl View for SetupStep {
    type V = StepView;

    open spec fn view(&self) -> StepView {
        StepView { bytes: self.bytes@, expect: self.expect, required: self.required }
    }
}

/// The views of exchanges.
pub open spec fn step_views(v: Seq<SetupStep>) -> Seq<StepView> {
    Seq::new(v.len(), |i: int| v[i]@)
}

/// The flow filters of the standard pairs as exchanges.
pub open spec fn standard_flow_steps() -> Seq<StepView> {
    let pairs = flow_pairs_of(Addressing::Can11, Seq::empty());
    Seq::new(
        8,
        |i: int|
            StepView {
                bytes: flow_bytes(Addressing::Can11, i, pairs[i]),
                expect: CAN_REPLY,
                required: false,
            },
    )
}

/// An exchange that may fail.
pub open spec fn optional_step(bytes: Seq<u8>, expect: u8) -> StepView {
    StepView { bytes, expect, required: false }
}

/// An exchange that must succeed.
pub open spec fn required_step(bytes: Seq<u8>, expect: u8) -> StepView {
    StepView { bytes, expect, required: true }
}

/// The network switched on.
pub open spec fn comm_on() -> Seq<u8> {
    codec::frame_bytes(codec::cmd::PROTOCOL, seq![0x02u8, Comm::On.spec_code()])
}

/// Timestamps switched off.
pub open spec fn stamps_off() -> Seq<u8> {
    codec::frame_bytes(codec::cmd::SETTINGS, seq![0x03u8, codec::flag_byte(false)])
}

/// The standing receive filter switched on.
pub open spec fn pass_on() -> Seq<u8> {
    filter_bytes(OBD_PASS_SLOT, false, FilterType::Pass, true, 0x700, 0x700, 0)
}

/// The connect sequence up to the filters: identity, protocol, padding and
/// software filters.
pub open spec fn connect_head() -> Seq<StepView> {
    seq![
        optional_step(
            codec::frame_bytes(codec::cmd::INFO, seq![codec::info::MODEL]),
            INFO_REPLY,
        ),
        optional_step(
            codec::frame_bytes(codec::cmd::INFO, seq![codec::info::SERIAL]),
            INFO_REPLY,
        ),
        required_step(
            codec::frame_bytes(
                codec::cmd::PROTOCOL,
                seq![0x01u8, ObdProtocol::HsCan.spec_code()],
            ),
            PROTOCOL_REPLY,
        ),
        optional_step(
            codec::frame_bytes(codec::cmd::CAN, seq![0x0Eu8, codec::flag_byte(true)]),
            CAN_REPLY,
        ),
        optional_step(
            codec::frame_bytes(codec::cmd::CAN, seq![0x06u8, codec::flag_byte(true)]),
            CAN_REPLY,
        ),
    ]
}

/// The connect sequence behind the flow filters: both receive filters, the
/// network on, timestamps off.
pub open spec fn connect_tail() -> Seq<StepView> {
    seq![
        optional_step(pass_on(), CAN_REPLY),
        optional_step(
            filter_bytes(9, true, FilterType::Pass, true, 0x18DAF100, 0x1FFFFF00, 0),
            CAN_REPLY,
        ),
        required_step(comm_on(), PROTOCOL_REPLY),
        optional_step(stamps_off(), SETTINGS_REPLY),
    ]
}

/// The connect sequence behind the bootstrap. Only protocol and network must
/// succeed.
pub open spec fn connect_script() -> Seq<StepView> {
    connect_head() + standard_flow_steps() + connect_tail()
}

fn step(bytes: Vec<u8>, expect: u8, required: bool) -> (r: SetupStep)
    ensures
        r@ == (StepView { bytes: bytes@, expect, required }),
{
    SetupStep { bytes, expect, required }
}

/// The connect sequence behind the bootstrap.
pub fn connect_steps() -> (r: Vec<SetupStep>)
    ensures
        step_views(r@) == connect_script(),
{
    let mut v: Vec<SetupStep> = Vec::new();
    v.push(step(codec::info_request(codec::info::MODEL), INFO_REPLY, false));
    v.push(step(codec::info_request(codec::info::SERIAL), INFO_REPLY, false));
    v.push(step(codec::set_protocol(ObdProtocol::HsCan), PROTOCOL_REPLY, true));
    v.push(step(codec::set_padding(true), CAN_REPLY, false));
    v.push(step(codec::set_software_filters(true), CAN_REPLY, false));
    let none: Vec<u32> = Vec::new();
    assert(none@ =~= Seq::<u32>::empty());
    let pairs = flow_pairs(Addressing::Can11, none.as_slice());
    let filters = flow_filters(Addressing::Can11, &pairs);
    assert(byte_views(filters@).len() == 8);
    let ghost f0 = filters@;
    let ghost first = step_views(v@);
    assert(first =~= connect_head());
    for f in it: filters
        invariant
            it.seq() == f0,
            f0.len() == 8,
            byte_views(f0) == Seq::new(pairs@.len(), |i: int| flow_bytes(Addressing::Can11, i, pairs@[i])),
            pairs@ == flow_pairs_of(Addressing::Can11, Seq::empty()),
            step_views(v@) == first + standard_flow_steps().take(it.index() as int),
    {
        let ghost i = it.index() as int;
        let ghost before = step_views(v@);
        assert(byte_views(f0)[i] == f@);
        let s = step(f, CAN_REPLY, false);
        assert(s@ == standard_flow_steps()[i]);
        let ghost sv = s@;
        v.push(s);
        assert(step_views(v@) =~= before.push(sv));
        assert(standard_flow_steps().take(i + 1) =~= standard_flow_steps().take(i).push(sv));
        assert(step_views(v@) =~= first + standard_flow_steps().take(i + 1));
    }
    assert(standard_flow_steps().take(8) =~= standard_flow_steps());
    let ghost most = step_views(v@);
    v.push(step(obd_pass_filter(true), CAN_REPLY, false));
    v.push(step(obd_pass_filter_29(true), CAN_REPLY, false));
    v.push(step(codec::set_comm(Comm::On), PROTOCOL_REPLY, true));
    v.push(step(codec::set_timestamps(false), SETTINGS_REPLY, false));
    assert(step_views(v@) =~= most + connect_tail());
    v
}

/// Whether the connect sequence goes on after an exchange: a required one that
/// failed ends it.
pub fn connect_verdict(required: bool, reply: Result<Vec<u8>, String>) -> (r: Result<
    (),
    ConnectFail,
>)
    ensures
        match reply {
            Err(e) if required => r == Err::<(), ConnectFail>(ConnectFail::QueueRefused(e)),
            _ => r is Ok,
        },
{
    match reply {
        Err(e) => {
            if required {
                Err(ConnectFail::QueueRefused(e))
            } else {
                Ok(())
            }
        },
        Ok(_) => Ok(()),
    }
}

/// The facts of a DVI adapter: the host's are filled in, and requests go on
/// while slots are live.
pub fn dvi_facts(facts: AdapterFacts, host: HostFacts) -> (r: AdapterFacts)
    ensures
        r == (AdapterFacts {
            periodic_capable: host.periodic_capable,
            max_chunk: host.max_chunk,
            tier_periods: host.tier_periods,
            concurrent_rx: true,
            ..facts
        }),
{
    let mut f = facts.with_host(host);
    f.concurrent_rx = true;
    f
}

impl DviHandler {
    /// Forgets what an earlier connection has set up.
    pub fn reset_for_connect(&mut self)
        ensures
            final(self)@ == (SessionView {
                target: None,
                flow_pairs: Seq::empty(),
                dyn_flow: None,
                capture_slots: Seq::empty(),
                listen_only: false,
                pass_all_disabled: false,
                ..old(self)@
            }),
    {
        self.target = None;
        self.flow_pairs = Vec::new();
        self.dyn_flow = None;
        self.capture_slots = Vec::new();
        self.listen_only = false;
        self.pass_all_disabled = false;
    }

    /// Remembers flow pairs whose filters were set.
    pub fn add_flow_pairs(&mut self, pairs: Vec<(u32, u32)>)
        ensures
            final(self)@ == (SessionView {
                flow_pairs: old(self)@.flow_pairs + pairs@,
                ..old(self)@
            }),
    {
        let mut more = pairs;
        self.flow_pairs.append(&mut more);
    }

    /// A probe of the bus starts: requests go to everyone.
    pub fn begin_probe(&mut self)
        ensures
            final(self)@ == (SessionView { target: None, ..old(self)@ }),
    {
        self.target = None;
    }
}

// ---- bus search ----

/// The bus that a probe has found, and the controller that answered.
pub open spec fn probe_hit(status: Option<StatusView>, first_id: Option<u32>) -> Option<
    (Addressing, Option<Controller>),
> {
    match (status, first_id) {
        (Some(StatusView::Data), Some(id)) => {
            let found = if id > 0x7FF {
                Addressing::Can29 { tester: (id / 0x100 % 0x100) as u8 }
            } else {
                Addressing::Can11
            };
            Some(
                (
                    found,
                    match addressing::header_read(found, framing::id_tokens(id)) {
                        Some(h) => Some(h.0),
                        None => None,
                    },
                ),
            )
        },
        _ => None,
    }
}

/// The view of an optional status.
pub open spec fn status_view(s: Option<LinkStatus>) -> Option<StatusView> {
    match s {
        Some(x) => Some(x@),
        None => None,
    }
}

/// Reads the bus off a probe: its width from the id that answered first, the
/// tester from a 29-bit id, and the controller.
pub fn read_probe(status: &Option<LinkStatus>, first_id: Option<u32>) -> (r: Option<
    (Addressing, Option<Controller>),
>)
    ensures
        r == probe_hit(status_view(*status), first_id),
{
    let is_data = match status {
        Some(s) => matches!(s, LinkStatus::Data),
        None => false,
    };
    match first_id {
        Some(id) => {
            if !is_data {
                return None;
            }
            let found = if id > 0x7FF {
                Addressing::Can29 { tester: (id / 0x100 % 0x100) as u8 }
            } else {
                Addressing::Can11
            };
            let toks = framing::header_tokens(id);
            let refs = elm::token_refs(&toks);
            let primary = match Bus::new(found).read(refs.as_slice()) {
                Some(h) => Some(h.0),
                None => None,
            };
            Some((found, primary))
        },
        None => None,
    }
}

/// What the bus search does next.
#[derive(Debug, Clone, Copy, PartialEq, Eq, Structural)]
pub enum SearchAction {
    /// Probe with this addressing; first the baud rate may have to be set and
    /// the network switched on again.
    Probe { addressing: Addressing, baud: u8, switch_baud: bool, log_miss: bool },
    Found { addressing: Addressing, primary: Option<Controller> },
    /// Nothing answered; the baud rate may have to be set back.
    Failed { restore_baud: bool, fail: AddressingFail },
}

/// The search for the bus: both addressings at the common baud rate, again and
/// again until the deadline (a controller may wake slowly), then both at the
/// slow rate once.
#[derive(Debug, Clone, Copy, PartialEq, Eq, Structural)]
pub struct DviSearch {
    /// The baud rate the tool is set to.
    pub baud: u8,
    /// The common rate has been given up.
    pub slow: bool,
    /// The second addressing of the pair is being probed.
    pub second: bool,
    /// The first round is on.
    pub first_round: bool,
}

/// The probe of the pair that is due.
pub open spec fn probe_action(
    baud_now: u8,
    slow: bool,
    second: bool,
    first_round: bool,
) -> SearchAction {
    let baud = if slow {
        codec::BAUD_250K
    } else {
        codec::BAUD_500K
    };
    SearchAction::Probe {
        addressing: if second {
            Addressing::Can29 { tester: 0xF1 }
        } else {
            Addressing::Can11
        },
        baud,
        switch_baud: baud_now != baud,
        log_miss: slow || first_round,
    }
}

/// The search and its next action after a probe.
pub open spec fn search_step(
    s: DviSearch,
    status: Option<StatusView>,
    first_id: Option<u32>,
    deadline_passed: bool,
) -> (DviSearch, SearchAction) {
    match probe_hit(status, first_id) {
        Some(hit) => (s, SearchAction::Found { addressing: hit.0, primary: hit.1 }),
        None => if !s.second {
            let n = DviSearch { second: true, ..s };
            (n, probe_action(s.baud, s.slow, true, s.first_round))
        } else if s.slow {
            (
                s,
                SearchAction::Failed {
                    restore_baud: s.baud != codec::BAUD_500K,
                    fail: if status is Some && !status->0.no_response() {
                        AddressingFail::NonCan
                    } else {
                        AddressingFail::NoResponse
                    },
                },
            )
        } else if deadline_passed {
            (
                DviSearch {
                    baud: codec::BAUD_250K,
                    slow: true,
                    second: false,
                    first_round: false,
                },
                probe_action(s.baud, true, false, false),
            )
        } else {
            (
                DviSearch { second: false, first_round: false, ..s },
                probe_action(s.baud, false, false, false),
            )
        },
    }
}

impl DviSearch {
    /// Starts the search.
    pub fn start() -> (r: (Self, SearchAction))
        ensures
            r.0 == (DviSearch {
                baud: codec::BAUD_500K,
                slow: false,
                second: false,
                first_round: true,
            }),
            r.1 == probe_action(codec::BAUD_500K, false, false, true),
    {
        (
            DviSearch { baud: codec::BAUD_500K, slow: false, second: false, first_round: true },
            SearchAction::Probe {
                addressing: Addressing::Can11,
                baud: codec::BAUD_500K,
                switch_baud: false,
                log_miss: true,
            },
        )
    }

    /// Goes on with what a probe gave: the status of its reply, where there was
    /// one, the id that answered first, and whether the deadline has passed.
    pub fn step(
        &mut self,
        status: Option<LinkStatus>,
        first_id: Option<u32>,
        deadline_passed: bool,
    ) -> (r: SearchAction)
        ensures
            (*final(self), r) == search_step(
                *old(self),
                status_view(status),
                first_id,
                deadline_passed,
            ),
    {
        if let Some(hit) = read_probe(&status, first_id) {
            return SearchAction::Found { addressing: hit.0, primary: hit.1 };
        }
        if !self.second {
            self.second = true;
            let baud: u8 = if self.slow {
                codec::BAUD_250K
            } else {
                codec::BAUD_500K
            };
            return SearchAction::Probe {
                addressing: Addressing::Can29 { tester: 0xF1 },
                baud,
                switch_baud: self.baud != baud,
                log_miss: self.slow || self.first_round,
            };
        }
        if self.slow {
            let fail = match &status {
                Some(s) => if s.is_no_response() {
                    AddressingFail::NoResponse
                } else {
                    AddressingFail::NonCan
                },
                None => AddressingFail::NoResponse,
            };
            return SearchAction::Failed { restore_baud: self.baud != codec::BAUD_500K, fail };
        }
        self.second = false;
        self.first_round = false;
        if deadline_passed {
            let switch_baud = self.baud != codec::BAUD_250K;
            self.slow = true;
            self.baud = codec::BAUD_250K;
            SearchAction::Probe {
                addressing: Addressing::Can11,
                baud: codec::BAUD_250K,
                switch_baud,
                log_miss: true,
            }
        } else {
            SearchAction::Probe {
                addressing: Addressing::Can11,
                baud: codec::BAUD_500K,
                switch_baud: self.baud != codec::BAUD_500K,
                log_miss: false,
            }
        }
    }
}

// ---- capture ----

/// A capture filter that is to be set.
pub struct CaptureRequest {
    pub slot: u8,
    pub extended: bool,
    pub bytes: Vec<u8>,
}

/// The filters of a capture, as many as there are slots.
pub fn capture_requests(filters: &[CaptureFilter]) -> (r: Vec<CaptureRequest>)
    ensures
        r@.len() == (if filters@.len() < CAPTURE_SLOTS {
            filters@.len()
        } else {
            CAPTURE_SLOTS as nat
        }),
        forall|i: int|
            0 <= i < r@.len() ==> (#[trigger] r@[i]).slot == CAPTURE_SLOT_BASE + i && r@[i].extended
                == filters@[i].extended && r@[i].bytes@ == filter_bytes(
                (CAPTURE_SLOT_BASE + i) as u8,
                filters@[i].extended,
                FilterType::Pass,
                true,
                filters@[i].id,
                filters@[i].mask,
                0,
            ),
{
    let mut out: Vec<CaptureRequest> = Vec::new();
    let mut i: usize = 0;
    while i < filters.len() && i < CAPTURE_SLOTS
        invariant
            i <= filters@.len(),
            i <= CAPTURE_SLOTS,
            out@.len() == i,
            forall|j: int|
                0 <= j < i ==> (#[trigger] out@[j]).slot == CAPTURE_SLOT_BASE + j && out@[j].extended
                    == filters@[j].extended && out@[j].bytes@ == filter_bytes(
                    (CAPTURE_SLOT_BASE + j) as u8,
                    filters@[j].extended,
                    FilterType::Pass,
                    true,
                    filters@[j].id,
                    filters@[j].mask,
                    0,
                ),
        decreases filters@.len() - i,
    {
        let f = filters[i];
        let slot: u8 = CAPTURE_SLOT_BASE + i as u8;
        out.push(
            CaptureRequest {
                slot,
                extended: f.extended,
                bytes: pass_filter_frame(slot, f.id, f.mask, f.extended),
            },
        );
        i += 1;
    }
    out
}

/// The slots of the requests that were accepted, in order.
pub open spec fn accepted_slots_of(requests: Seq<CaptureRequest>, accepted: Seq<bool>) -> Seq<
    (u8, bool),
>
    decreases requests.len(),
{
    if requests.len() == 0 {
        Seq::empty()
    } else {
        let before = accepted_slots_of(requests.drop_last(), accepted);
        if accepted[requests.len() - 1] {
            before.push((requests.last().slot, requests.last().extended))
        } else {
            before
        }
    }
}

/// The slots of the requests that were accepted.
pub fn accepted_slots(requests: &Vec<CaptureRequest>, accepted: &Vec<bool>) -> (r: Vec<(u8, bool)>)
    requires
        requests@.len() == accepted@.len(),
    ensures
        r@ == accepted_slots_of(requests@, accepted@),
{
    let mut out: Vec<(u8, bool)> = Vec::new();
    let mut i: usize = 0;
    assert(out@ =~= accepted_slots_of(requests@.take(0), accepted@));
    while i < requests.len()
        invariant
            i <= requests@.len(),
            requests@.len() == accepted@.len(),
            out@ == accepted_slots_of(requests@.take(i as int), accepted@),
        decreases requests@.len() - i,
    {
        assert(requests@.take(i + 1).drop_last() =~= requests@.take(i as int));
        if accepted[i] {
            out.push((requests[i].slot, requests[i].extended));
        }
        i += 1;
    }
    assert(requests@.take(i as int) =~= requests@);
    out
}

/// The filter that parks the standing receive filter for a capture.
pub fn park_filter() -> (r: Vec<u8>)
    ensures
        r@ == filter_bytes(OBD_PASS_SLOT, false, FilterType::Pass, false, 0, 0, 0),
{
    codec::can_filter(OBD_PASS_SLOT, false, FilterType::Pass, false, 0, 0, 0)
}

/// The filters that switch capture slots off.
pub open spec fn slots_off(slots: Seq<(u8, bool)>) -> Seq<StepView> {
    Seq::new(
        slots.len(),
        |i: int|
            StepView {
                bytes: filter_bytes(slots[i].0, slots[i].1, FilterType::Pass, false, 0, 0, 0),
                expect: CAN_REPLY,
                required: false,
            },
    )
}

/// What undoes a capture: timestamps off; the network to normal where the
/// capture was listening only; its filters off; the standing filter back where
/// it was parked.
pub open spec fn capture_unwind(s: SessionView) -> Seq<StepView> {
    let stamps = seq![optional_step(stamps_off(), SETTINGS_REPLY)];
    let head = if s.listen_only {
        stamps.push(optional_step(comm_on(), PROTOCOL_REPLY))
    } else {
        stamps
    };
    if s.pass_all_disabled {
        (head + slots_off(s.capture_slots)).push(optional_step(pass_on(), CAN_REPLY))
    } else {
        head + slots_off(s.capture_slots)
    }
}

/// The session while a capture runs on some slots; the standing filter is
/// parked where there are any.
pub open spec fn capturing(s: SessionView, slots: Seq<(u8, bool)>, listen: bool) -> SessionView {
    SessionView {
        capture_slots: slots,
        listen_only: listen,
        pass_all_disabled: slots.len() > 0,
        ..s
    }
}

/// The session behind a capture.
pub open spec fn capture_ended(s: SessionView) -> SessionView {
    SessionView {
        capture_slots: Seq::empty(),
        listen_only: false,
        pass_all_disabled: false,
        ..s
    }
}

impl DviHandler {
    /// A capture has begun on these slots; the standing filter is parked where
    /// there are any.
    pub fn begin_capture(&mut self, slots: Vec<(u8, bool)>, listen: bool)
        ensures
            final(self)@ == capturing(old(self)@, slots@, listen),
    {
        self.pass_all_disabled = slots.len() > 0;
        self.capture_slots = slots;
        self.listen_only = listen;
    }

    /// Ends monitoring: the exchanges that undo a capture.
    pub fn end_capture(&mut self) -> (r: Vec<SetupStep>)
        ensures
            step_views(r@) == capture_unwind(old(self)@),
            final(self)@ == capture_ended(old(self)@),
    {
        let ghost s0 = self@;
        let mut slots: Vec<(u8, bool)> = Vec::new();
        std::mem::swap(&mut slots, &mut self.capture_slots);
        let listen = self.listen_only;
        let parked = self.pass_all_disabled;
        self.listen_only = false;
        self.pass_all_disabled = false;
        let mut v: Vec<SetupStep> = Vec::new();
        v.push(step(codec::set_timestamps(false), SETTINGS_REPLY, false));
        if listen {
            v.push(step(codec::set_comm(Comm::On), PROTOCOL_REPLY, false));
        }
        let ghost head = step_views(v@);
        assert(head =~= (if listen {
            seq![optional_step(stamps_off(), SETTINGS_REPLY), optional_step(comm_on(), PROTOCOL_REPLY)]
        } else {
            seq![optional_step(stamps_off(), SETTINGS_REPLY)]
        }));
        let mut i: usize = 0;
        assert(step_views(v@) =~= head + slots_off(slots@).take(0));
        while i < slots.len()
            invariant
                i <= slots@.len(),
                step_views(v@) == head + slots_off(slots@).take(i as int),
            decreases slots@.len() - i,
        {
            let ghost before = step_views(v@);
            let s = step(
                codec::can_filter(slots[i].0, slots[i].1, FilterType::Pass, false, 0, 0, 0),
                CAN_REPLY,
                false,
            );
            let ghost sv = s@;
            assert(sv == slots_off(slots@)[i as int]);
            v.push(s);
            assert(step_views(v@) =~= before.push(sv));
            assert(slots_off(slots@).take(i + 1) =~= slots_off(slots@).take(i as int).push(sv));
            assert(step_views(v@) =~= head + slots_off(slots@).take(i + 1));
            i += 1;
        }
        assert(slots_off(slots@).take(i as int) =~= slots_off(slots@));
        let ghost most = step_views(v@);
        if parked {
            v.push(step(obd_pass_filter(true), CAN_REPLY, false));
            assert(step_views(v@) =~= most.push(optional_step(pass_on(), CAN_REPLY)));
        }
        assert(step_views(v@) =~= capture_unwind(s0));
        v
    }
}

// ---- console ----

/// The hexadecimal digits of `s`.
pub open spec fn digits_only(s: Seq<char>) -> Seq<char>
    decreases s.len(),
{
    if s.len() == 0 {
        s
    } else if text::is_hex_digit(s.last()) {
        digits_only(s.drop_last()).push(s.last())
    } else {
        digits_only(s.drop_last())
    }
}

/// The digits of a text are digits.
proof fn lemma_digits_only(s: Seq<char>)
    ensures
        text::all_hex(digits_only(s)),
    decreases s.len(),
{
    if s.len() > 0 {
        lemma_digits_only(s.drop_last());
        let d = digits_only(s.drop_last());
        if text::is_hex_digit(s.last()) {
            assert forall|i: int| 0 <= i < d.push(s.last()).len() implies text::is_hex_digit(
                #[trigger] d.push(s.last())[i],
            ) by {
                if i < d.len() {
                    assert(d.push(s.last())[i] == d[i]);
                }
            }
        }
    }
}

/// The bytes that a console line writes: its digits in pairs, everything else
/// ignored; nothing where they do not pair up.
pub fn console_bytes(line: &str) -> (r: Option<Vec<u8>>)
    ensures
        ({
            let d = digits_only(line@);
            if d.len() >= 2 && d.len() % 2 == 0 {
                r matches Some(b) && b@ == handler::hex_bytes(d)
            } else {
                r is None
            }
        }),
{
    let v = text::chars_of(line);
    let mut out = String::new();
    let mut count: usize = 0;
    let mut i: usize = 0;
    while i < v.len()
        invariant
            i <= v@.len(),
            out@ == digits_only(v@.take(i as int)),
            count == out@.len(),
            count <= i,
        decreases v@.len() - i,
    {
        assert(v@.take(i + 1).drop_last() =~= v@.take(i as int));
        if text::digit_of(v[i]).is_some() {
            out.push(v[i]);
            count += 1;
        }
        i += 1;
    }
    assert(v@.take(i as int) =~= v@);
    proof {
        lemma_digits_only(line@);
    }
    if count >= 2 && count % 2 == 0 {
        Some(handler::bytes_of_hex(out.as_str()))
    } else {
        None
    }
}

/// The wire of a request group: pipes are not spoken here, so it is that of the
/// first segment; an empty group is empty.
pub fn encode_segments(segments: &[Vec<String>]) -> (r: String)
    requires
        segments@.len() > 0 ==> elm::joinable(text::views(segments@[0]@)),
    ensures
        r@ == (if segments@.len() > 0 {
            elm::chunk_wire(text::views(segments@[0]@))
        } else {
            Seq::empty()
        }),
{
    if segments.len() > 0 {
        elm::join_chunk_wire(segments[0].as_slice())
    } else {
        String::new()
    }
}

// ---- laws ----

/// A 29-bit bus gets one flow pair for each responder, and each pair holds the
/// request that its response answers.
pub proof fn responders_are_paired_once(responders: Seq<u32>, tester: u8)
    ensures
        forall|i: int, j: int|
            0 <= i < j < responder_pairs(responders, tester).len() ==> (#[trigger] responder_pairs(
                responders,
                tester,
            )[i]).0 != (#[trigger] responder_pairs(responders, tester)[j]).0,
        forall|i: int|
            0 <= i < responders.len() && responders[i] > 0x7FF ==> is_paired(
                responder_pairs(responders, tester),
                #[trigger] responders[i],
            ),
        forall|i: int|
            0 <= i < responder_pairs(responders, tester).len() ==> (#[trigger] responder_pairs(
                responders,
                tester,
            )[i]).1 == request_of_response(responder_pairs(responders, tester)[i].0, tester),
    decreases responders.len(),
{
    if responders.len() > 0 {
        let head = responders.drop_last();
        let before = responder_pairs(head, tester);
        let now = responder_pairs(responders, tester);
        responders_are_paired_once(head, tester);
        assert forall|i: int| 0 <= i < responders.len() && responders[i] > 0x7FF implies is_paired(
            now,
            #[trigger] responders[i],
        ) by {
            let rx = responders[i];
            if i < head.len() {
                assert(head[i] == rx);
                let k = choose|k: int| 0 <= k < before.len() && (#[trigger] before[k]).0 == rx;
                assert(now[k].0 == rx);
            } else if is_paired(before, rx) {
                let k = choose|k: int| 0 <= k < before.len() && (#[trigger] before[k]).0 == rx;
                assert(now[k].0 == rx);
            } else {
                assert(now[before.len() as int].0 == rx);
            }
        }
        assert forall|i: int, j: int| 0 <= i < j < now.len() implies (#[trigger] now[i]).0 != (
        #[trigger] now[j]).0 by {
            if j < before.len() {
                assert(now[i] == before[i] && now[j] == before[j]);
            } else if i < before.len() {
                assert(now[i] == before[i]);
            }
        }
        assert forall|i: int| 0 <= i < now.len() implies (#[trigger] now[i]).1
            == request_of_response(now[i].0, tester) by {
            if i < before.len() {
                assert(now[i] == before[i]);
            }
        }
    }
}

/// A capture leaves nothing behind: its filters are switched off, the standing
/// filter and the network are switched back where they were changed, and the
/// session is what it was.
pub proof fn a_capture_is_undone(s: SessionView, slots: Seq<(u8, bool)>, listen: bool)
    requires
        s == capture_ended(s),
    ensures
        capture_ended(capturing(s, slots, listen)) == s,
        forall|i: int|
            0 <= i < slots.len() ==> capture_unwind(capturing(s, slots, listen)).contains(
                #[trigger] slots_off(slots)[i],
            ),
        slots.len() > 0 ==> capture_unwind(capturing(s, slots, listen)).contains(
            optional_step(pass_on(), CAN_REPLY),
        ),
        listen ==> capture_unwind(capturing(s, slots, listen)).contains(
            optional_step(comm_on(), PROTOCOL_REPLY),
        ),
{
    let u = capture_unwind(capturing(s, slots, listen));
    let h: int = if listen {
        2
    } else {
        1
    };
    assert forall|i: int| 0 <= i < slots.len() implies u.contains(#[trigger] slots_off(slots)[i]) by {
        assert(u[h + i] == slots_off(slots)[i]);
    }
    if slots.len() > 0 {
        assert(u[h + slots.len()] == optional_step(pass_on(), CAN_REPLY));
    }
    if listen {
        assert(u[1] == optional_step(comm_on(), PROTOCOL_REPLY));
    }
}

/// The search ends in a failure only when the second addressing has not answered
/// at the slow rate, and it turns to the slow rate only behind the deadline and
/// when the second addressing has not answered at the common rate.
pub proof fn search_fails_only_when_all_was_probed(
    s: DviSearch,
    status: Option<StatusView>,
    first_id: Option<u32>,
    deadline_passed: bool,
)
    ensures
        search_step(s, status, first_id, deadline_passed).1 is Failed ==> s.slow && s.second
            && probe_hit(status, first_id) is None,
        !s.slow && search_step(s, status, first_id, deadline_passed).0.slow ==> s.second
            && deadline_passed && probe_hit(status, first_id) is None,
{
}

/// Every flow pair holds a request and where its answer comes: on an 11-bit bus
/// the eight standard ones, 8 apart; on a 29-bit bus, for a responder at
/// `from` that answers this tester, the request to it.
pub proof fn flow_pairs_are_request_and_answer(
    responders: Seq<u32>,
    i: int,
    priority: u8,
    tester: u8,
    from: u8,
)
    requires
        0 <= i < 8,
    ensures
        ({
            let p = flow_pairs_of(Addressing::Can11, responders);
            &&& p.len() == 8
            &&& p[i].1 == 0x7E0 + i
            &&& framing::response_id_of(p[i].1, false) == p[i].0
        }),
        ({
            let rx = (0x1000000 * priority + 0xDA0000 + 0x100 * tester + from) as u32;
            let tx = request_of_response(rx, tester);
            &&& tx == 0x1000000 * priority + 0xDA0000 + 0x100 * from + tester
            &&& framing::response_id_of(tx, true) == rx
        }),
{
    framing::response_id_11bit((0x7E0 + i) as u32);
    framing::response_id_29bit(priority, from, tester);
    let rx = (0x1000000 * priority + 0xDA0000 + 0x100 * tester + from) as u32;
    assert(rx / 0x10000 == 0x100 * priority + 0xDA);
    assert(rx % 0x100 == from);
}

/// The filter of a flow pair matches the response id in every bit and sends flow
/// control to the request id; filters of one bus have slots of their own, those
/// of an 11-bit bus below 8, those of a 29-bit bus from 9 on.
pub proof fn a_flow_filter_serves_its_pair(a: Addressing, i: int, j: int, pair: (u32, u32))
    requires
        0 <= i < j < 18,
        a is Can11 ==> j < 8,
    ensures
        ({
            let d = codec::filter_data(
                flow_slot(a, i),
                a is Can29,
                FilterType::Flow,
                true,
                pair.0,
                handler::id_mask(a is Can29),
                pair.1,
            );
            &&& flow_bytes(a, i, pair) == codec::frame_bytes(0x34, d)
            &&& d[1] == (if a is Can29 {
                9 + i
            } else {
                i
            })
            &&& d[3] == 1 && d[4] == 1
            &&& crate::bytes::be_value(d.skip(5)) == pair.0
            &&& crate::bytes::be_value(d.skip(9)) == (if a is Can29 {
                0x1FFF_FFFFu32
            } else {
                0x7FFu32
            })
            &&& crate::bytes::be_value(d.skip(13)) == pair.1
        }),
        flow_slot(a, i) != flow_slot(a, j),
{
    codec::a_filter_on_the_wire(
        flow_slot(a, i),
        a is Can29,
        FilterType::Flow,
        true,
        pair.0,
        handler::id_mask(a is Can29),
        pair.1,
    );
}

/// Every exchange of the connect sequence waits for the reply to its own
/// command, which is the command plus `10`; the two that set the protocol and
/// switch the network on must succeed, and no other. All filters stand before
/// the network is switched on.
pub proof fn the_connect_sequence_is_in_order(i: int)
    requires
        0 <= i < connect_script().len(),
    ensures
        ({
            let v = connect_script();
            &&& v.len() == 17
            &&& v[i].expect == v[i].bytes[0] + 0x10
            &&& v[i].required <==> v[i].bytes[0] == 0x31
            &&& v[i].bytes[0] == 0x34 ==> i < 15
            &&& v[i].required ==> i == 2 || i == 15
            &&& v[2].bytes.subrange(0, 4) == seq![0x31u8, 0x02u8, 0x01u8, 0x02u8]
            &&& v[15].bytes.subrange(0, 4) == seq![0x31u8, 0x02u8, 0x02u8, 0x01u8]
            &&& v[16].bytes.subrange(0, 4) == seq![0x24u8, 0x02u8, 0x03u8, 0x00u8]
        }),
{
    let v = connect_script();
    let h = connect_head();
    let s = standard_flow_steps();
    let t = connect_tail();
    assert(h.len() == 5 && s.len() == 8 && t.len() == 4);
    if i < 5 {
        assert(v[i] == h[i]);
    } else if i < 13 {
        assert(v[i] == s[i - 5]);
        assert(v[i].bytes[0] == 0x34);
    } else {
        assert(v[i] == t[i - 13]);
    }
    assert(v[2] == h[2]);
    assert(v[15] == t[2]);
    assert(v[16] == t[3]);
    assert(v[2].bytes.subrange(0, 4) =~= seq![0x31u8, 0x02u8, 0x01u8, 0x02u8]);
    assert(v[15].bytes.subrange(0, 4) =~= seq![0x31u8, 0x02u8, 0x02u8, 0x01u8]);
    assert(v[16].bytes.subrange(0, 4) =~= seq![0x24u8, 0x02u8, 0x03u8, 0x00u8]);
}

/// A frame ends a setup exchange only where it is the reply that is waited for,
/// whose data it brings, or the tool's error for the command that was sent;
/// network frames and everything else are waited past.
pub proof fn only_its_own_reply_ends_an_exchange(f: FrameView, sent: u8, r: SetupVerdict)
    requires
        sent <= 0xEF,
        setup_verdict_of(f, (sent + 0x10) as u8, sent, r),
    ensures
        r is Done <==> f is Reply && f->Reply_cmd == sent + 0x10,
        r is Done ==> r->Done_0@ == f->Reply_data,
        r is Failed <==> f is Error && f->Error_cmd == sent,
        f is Rx ==> r is KeepWaiting,
{
}

/// A probe shows an 11-bit bus by a response id of the standard block, and the
/// controller 8 below it. Without data nothing is shown.
pub proof fn a_probe_shows_an_11bit_bus(status: Option<StatusView>, n: u32)
    requires
        n < 8,
    ensures
        probe_hit(status, None) is None,
        status != Some(StatusView::Data) ==> probe_hit(status, Some((0x7E8 + n) as u32)) is None,
        probe_hit(Some(StatusView::Data), Some((0x7E8 + n) as u32)) == Some(
            (Addressing::Can11, Some(Controller { id: (0x7E0 + n) as u16 })),
        ),
{
    let id = (0x7E8 + n) as u32;
    addressing::who_answers_11bit(id as u16, framing::id_tokens(id));
}

/// A probe shows a 29-bit bus by an id above 11 bits; a physical one tells the
/// tester and the controller.
#[verifier::rlimit(40)]
pub proof fn a_probe_shows_a_29bit_bus(priority: u8, tester: u8, from: u8)
    requires
        0 < priority,
    ensures
        probe_hit(
            Some(StatusView::Data),
            Some((0x1000000 * priority + 0xDA0000 + 0x100 * tester + from) as u32),
        ) == Some((Addressing::Can29 { tester }, Some(Controller { id: from as u16 }))),
{
    let e = (0x1000000 * priority + 0xDA0000 + 0x100 * tester + from) as u32;
    let t = framing::id_tokens(e);
    lemma_id_parts(priority, tester, from);
    addressing::who_answers_29bit(tester, priority, 0xDA, tester, from);
    assert(addressing::header_read(Addressing::Can29 { tester }, t) == Some(
        (Controller { id: from as u16 }, 4usize),
    ));
    assert(e > 0x7FF);
}

proof fn lemma_id_parts(priority: u8, to: u8, from: u8)
    requires
        0 < priority,
    ensures
        ({
            let e = (0x1000000 * priority + 0xDA0000 + 0x100 * to + from) as u32;
            &&& e / 0x100 % 0x100 == to
            &&& framing::id_tokens(e) == seq![
                text::hex_padded(priority as nat, 2),
                text::hex_padded(0xDA, 2),
                text::hex_padded(to as nat, 2),
                text::hex_padded(from as nat, 2),
            ]
        }),
{
    let e = (0x1000000 * priority + 0xDA0000 + 0x100 * to + from) as u32;
    crate::bytes::four_bytes_make_a_number(priority, 0xDA, to, from);
    assert(e > 0x7FF);
    let b = crate::bytes::be_bytes(e);
    assert(b == seq![priority, 0xDAu8, to, from]);
    assert(b[2] == (e / 0x100 % 0x100) as u8);
    assert(framing::id_tokens(e) =~= seq![
        text::hex_padded(priority as nat, 2),
        text::hex_padded(0xDA, 2),
        text::hex_padded(to as nat, 2),
        text::hex_padded(from as nat, 2),
    ]);
}

/// The search probes both addressings in turn, 11-bit first: at 500 kbit/s until
/// the deadline, then once more at 250; after that it fails and goes back to the
/// common rate. It switches the rate exactly where the tool has another one.
pub proof fn the_search_probes_in_turn(
    s: DviSearch,
    status: Option<StatusView>,
    first_id: Option<u32>,
    deadline_passed: bool,
)
    requires
        probe_hit(status, first_id) is None,
        s.baud == (if s.slow {
            5u8
        } else {
            6u8
        }),
    ensures
        ({
            let (n, act) = search_step(s, status, first_id, deadline_passed);
            &&& !s.second ==> n.second && n.slow == s.slow && n.baud == s.baud && act is Probe
                && act->Probe_addressing == (Addressing::Can29 { tester: 0xF1 }) && act->Probe_baud == s.baud
                && !act->Probe_switch_baud
            &&& s.second && !s.slow && !deadline_passed ==> !n.second && !n.slow && n.baud == 6
                && act is Probe && act->Probe_addressing == Addressing::Can11 && act->Probe_baud == 6
                && !act->Probe_switch_baud
            &&& s.second && !s.slow && deadline_passed ==> !n.second && n.slow && n.baud == 5
                && act is Probe && act->Probe_addressing == Addressing::Can11 && act->Probe_baud == 5
                && act->Probe_switch_baud
            &&& s.second && s.slow ==> act is Failed && act->Failed_restore_baud && (act->Failed_fail is NoResponse
                <==> status is None || status->0.no_response())
        }),
{
}

/// The slots that a capture uses are those whose filters were accepted, in order.
pub proof fn accepted_filters_are_used(requests: Seq<CaptureRequest>, accepted: Seq<bool>, i: int)
    requires
        requests.len() == accepted.len(),
        0 <= i < requests.len(),
        forall|j: int, k: int|
            0 <= j < k < requests.len() ==> (#[trigger] requests[j]).slot != (
            #[trigger] requests[k]).slot,
    ensures
        accepted_slots_of(requests, accepted).contains((requests[i].slot, requests[i].extended))
            <==> accepted[i],
        accepted_slots_of(requests, accepted).len() <= requests.len(),
{
    lemma_accepted(requests, accepted, requests.len() as int, i);
    assert(requests.take(requests.len() as int) =~= requests);
}

proof fn lemma_accepted(requests: Seq<CaptureRequest>, accepted: Seq<bool>, n: int, i: int)
    requires
        requests.len() == accepted.len(),
        0 <= n <= requests.len(),
        0 <= i < requests.len(),
        forall|j: int, k: int|
            0 <= j < k < requests.len() ==> (#[trigger] requests[j]).slot != (
            #[trigger] requests[k]).slot,
    ensures
        accepted_slots_of(requests.take(n), accepted).contains(
            (requests[i].slot, requests[i].extended),
        ) <==> accepted[i] && i < n,
        accepted_slots_of(requests.take(n), accepted).len() <= n,
    decreases n,
{
    if n > 0 {
        lemma_accepted(requests, accepted, n - 1, i);
        let all = requests.take(n);
        assert(all.drop_last() =~= requests.take(n - 1));
        assert(all.last() == requests[n - 1]);
        let before = accepted_slots_of(requests.take(n - 1), accepted);
        text::lemma_push_contains(before, (requests[n - 1].slot, requests[n - 1].extended));
        if i != n - 1 {
            if i < n - 1 {
                assert(requests[i].slot != requests[n - 1].slot);
            } else {
                assert(requests[n - 1].slot != requests[i].slot);
            }
        }
    }
}

/// A console line is read digit by digit: what is no digit is left out wherever
/// it stands.
pub proof fn separators_do_not_matter(a: Seq<char>, c: char, b: Seq<char>)
    ensures
        !text::is_hex_digit(c) ==> digits_only(a.push(c) + b) == digits_only(a + b),
        text::is_hex_digit(c) ==> digits_only(a.push(c)) == digits_only(a).push(c),
        digits_only(a + b) == digits_only(a) + digits_only(b),
    decreases b.len(),
{
    lemma_digits_of_parts(a, b);
    lemma_digits_of_parts(a.push(c), b);
    assert(a.push(c).drop_last() =~= a);
}

proof fn lemma_digits_of_parts(a: Seq<char>, b: Seq<char>)
    ensures
        digits_only(a + b) == digits_only(a) + digits_only(b),
    decreases b.len(),
{
    if b.len() == 0 {
        assert(a + b =~= a);
        assert(digits_only(a) + digits_only(b) =~= digits_only(a));
    } else {
        lemma_digits_of_parts(a, b.drop_last());
        assert((a + b).drop_last() =~= a + b.drop_last());
        assert((a + b).last() == b.last());
        if text::is_hex_digit(b.last()) {
            assert((digits_only(a) + digits_only(b.drop_last())).push(b.last()) =~= digits_only(a)
                + digits_only(b.drop_last()).push(b.last()));
        }
    }
}

/// Whether a filter with these data lets an id through: the id agrees with the
/// filter's in every bit of the mask.
pub open spec fn lets_through(d: Seq<u8>, id: u32) -> bool {
    let mask = crate::bytes::be_value(d.skip(9));
    id & mask == crate::bytes::be_value(d.skip(5)) & mask
}

/// Whether a frame sets a filter that passes exactly the diagnostic range of
/// this 11-bit id.
pub open spec fn passes_diagnostics(frame: Seq<u8>, d: Seq<u8>, id: u32) -> bool {
    &&& frame == codec::frame_bytes(codec::cmd::CAN, d)
    &&& d.len() == 17 && d[2] == 0 && d[3] == 0 && d[4] == 1
    &&& lets_through(d, id) <==> id >= 0x700
}

/// The standing receive filter is on and lets through the 11-bit ids from 700
/// up, and no other.
pub proof fn the_standing_filter_passes_diagnostics(id: u32)
    requires
        id <= 0x7FF,
    ensures
        exists|d: Seq<u8>| #[trigger] passes_diagnostics(pass_on(), d, id),
{
    let d = codec::filter_data(OBD_PASS_SLOT, false, FilterType::Pass, true, 0x700, 0x700, 0);
    codec::a_filter_on_the_wire(OBD_PASS_SLOT, false, FilterType::Pass, true, 0x700, 0x700, 0);
    assert(id & 0x700 == 0x700u32 & 0x700 <==> id >= 0x700) by (bit_vector)
        requires
            id <= 0x7FF,
    ;
    assert(passes_diagnostics(pass_on(), d, id));
}

/// A refused command is named by its two digits and what the tool said.
pub proof fn a_refusal_names_its_command(cmd: u8, code: u8, expect: u8, r: SetupVerdict)
    requires
        setup_verdict_of(FrameView::Error { cmd, code }, expect, cmd, r),
    ensures
        r is Failed,
        ({
            let t = r->Failed_0@;
            let n = "DVI error on "@.len() as int;
            &&& t.take(n) == "DVI error on "@
            &&& t.subrange(n, n + 2).len() == 2
            &&& text::hex_number(t.subrange(n, n + 2)) == cmd
            &&& t.skip(n + 2) == ": "@ + codec::error_name_of(code)
        }),
{
    let t = r->Failed_0@;
    let h = text::hex_padded(cmd as nat, 2);
    let n = "DVI error on "@.len() as int;
    addressing::lemma_byte_width(cmd as nat);
    text::lemma_hex_padded(cmd as nat, 2);
    assert(t =~= "DVI error on "@ + h + (": "@ + codec::error_name_of(code)));
    assert(t.take(n) =~= "DVI error on "@);
    assert(t.subrange(n, n + 2) =~= h);
    assert(t.skip(n + 2) =~= ": "@ + codec::error_name_of(code));
}

/// The binary mode is confirmed by the two bytes six and one, and by nothing
/// else.
pub proof fn what_confirms_the_binary_mode(reply: Seq<u8>)
    ensures
        confirms(reply) <==> reply.len() == 2 && reply[0] == 6 && reply[1] == 1,
{
    if reply.len() == 2 && reply[0] == 6 && reply[1] == 1 {
        assert(reply =~= seq![0x06u8, 0x01u8]);
    }
}

/// A probe goes to the addressing in turn at the rate of the round; it switches
/// the rate where the tool has another one, and a miss is noted in the first
/// round and at the slow rate.
pub proof fn how_a_probe_is_made(baud_now: u8, slow: bool, second: bool, first_round: bool)
    ensures
        ({
            let p = probe_action(baud_now, slow, second, first_round);
            &&& p is Probe
            &&& p->Probe_baud == (if slow {
                5u8
            } else {
                6u8
            })
            &&& p->Probe_switch_baud <==> baud_now != p->Probe_baud
            &&& p->Probe_log_miss <==> slow || first_round
            &&& second <==> p->Probe_addressing is Can29
            &&& second ==> p->Probe_addressing->tester == 0xF1
        }),
{
}

/// A capture with filters of its own parks the standing filter, one without
/// does not; when it has ended nothing of it is left.
pub proof fn a_capture_parks_the_standing_filter(
    s: SessionView,
    slots: Seq<(u8, bool)>,
    listen: bool,
)
    ensures
        capturing(s, slots, listen).pass_all_disabled <==> slots.len() != 0,
        capturing(s, slots, listen).listen_only == listen,
        capturing(s, slots, listen).capture_slots == slots,
        !capture_ended(capturing(s, slots, listen)).pass_all_disabled,
        !capture_ended(capturing(s, slots, listen)).listen_only,
        capture_ended(capturing(s, slots, listen)).capture_slots.len() == 0,
{
}

/// Every responder above eleven bits has one pair, behind those that answered
/// before it; an 11-bit one has none.
pub proof fn each_29bit_responder_has_one_pair(responders: Seq<u32>, rx: u32, tester: u8)
    ensures
        ({
            let before = responder_pairs(responders, tester);
            let now = responder_pairs(responders.push(rx), tester);
            &&& rx <= 0x7FF || is_paired(before, rx) ==> now == before
            &&& rx >= 0x800 && !is_paired(before, rx) ==> now == before.push(
                (rx, request_of_response(rx, tester)),
            )
            &&& rx >= 0x800 ==> is_paired(now, rx)
            &&& responder_pairs(Seq::empty(), tester).len() == 0
        }),
{
    let before = responder_pairs(responders, tester);
    let now = responder_pairs(responders.push(rx), tester);
    assert(responders.push(rx).drop_last() =~= responders);
    if rx >= 0x800 && !is_paired(before, rx) {
        assert(now[before.len() as int].0 == rx);
    }
}

/// Whether a frame sets a filter that passes exactly the physical 29-bit answers
/// to the usual tester.
pub open spec fn passes_29bit_answers(frame: Seq<u8>, d: Seq<u8>, id: u32) -> bool {
    &&& frame == codec::frame_bytes(codec::cmd::CAN, d)
    &&& d.len() == 17 && d[2] == 1 && d[3] == 0 && d[4] == 1
    &&& lets_through(d, id) <==> 0x18DAF100 <= id <= 0x18DAF1FF
}

/// Behind the flow filters a connect sets the standing filter and one that lets
/// through the 29-bit answers to the tester, and no other 29-bit id.
pub proof fn a_connect_opens_both_widths(id: u32)
    requires
        id <= 0x1FFF_FFFF,
    ensures
        connect_script()[13].bytes == pass_on(),
        exists|d: Seq<u8>| #[trigger] passes_29bit_answers(connect_script()[14].bytes, d, id),
{
    let v = connect_script();
    assert(connect_head().len() == 5 && standard_flow_steps().len() == 8);
    assert(v[13] == connect_tail()[0]);
    assert(v[14] == connect_tail()[1]);
    let d = codec::filter_data(9, true, FilterType::Pass, true, 0x18DAF100, 0x1FFFFF00, 0);
    codec::a_filter_on_the_wire(9, true, FilterType::Pass, true, 0x18DAF100, 0x1FFFFF00, 0);
    assert(id & 0x1FFFFF00 == 0x18DAF100u32 & 0x1FFFFF00 <==> 0x18DAF100 <= id <= 0x18DAF1FF)
        by (bit_vector)
        requires
            id <= 0x1FFF_FFFF,
    ;
    assert(passes_29bit_answers(v[14].bytes, d, id));
}

/// Before the filters a connect switches padding and software filters on.
pub proof fn a_connect_pads_and_filters()
    ensures
        connect_script()[3].bytes.subrange(0, 4) == seq![0x34u8, 0x02u8, 0x0Eu8, 0x01u8],
        connect_script()[4].bytes.subrange(0, 4) == seq![0x34u8, 0x02u8, 0x06u8, 0x01u8],
{
    let v = connect_script();
    assert(v[3] == connect_head()[3]);
    assert(v[4] == connect_head()[4]);
    assert(v[3].bytes.subrange(0, 4) =~= seq![0x34u8, 0x02u8, 0x0Eu8, 0x01u8]);
    assert(v[4].bytes.subrange(0, 4) =~= seq![0x34u8, 0x02u8, 0x06u8, 0x01u8]);
}

/// The width of the first id that answers tells the width of the bus.
pub proof fn the_width_of_an_answer_is_that_of_the_bus(id: u32)
    ensures
        probe_hit(Some(StatusView::Data), Some(id)) is Some,
        id <= 0x7FF ==> (probe_hit(Some(StatusView::Data), Some(id))->0).0 == Addressing::Can11,
        id >= 0x800 ==> (probe_hit(Some(StatusView::Data), Some(id))->0).0 is Can29,
{
}

} // verus!
