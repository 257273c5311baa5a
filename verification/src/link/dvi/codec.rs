//! DVI codec. A frame is `CMD LEN DATA.. YY`: LEN counts the data bytes and not
//! the checksum, and is two bytes wide in the large forms. A reply carries
//! `CMD + 0x10`, an error is `7F LEN CMD ERR YY`, and the checksum is `0xFF`
//! minus the low byte of the sum of everything before it.
use crate::bytes;
use vstd::prelude::*;

pub mod cmd;
pub mod info;

verus! {

/// Protocols of the `31 02 01 XX` request.
#[derive(Debug, Clone, Copy, PartialEq, Eq, Structural)]
pub enum ObdProtocol {
    Aldl,
    Vpw,
    HsCan,
    GmCan,
    MsCan,
}

impl ObdProtocol {
    /// The byte that stands for the protocol on the wire.
    pub open spec fn spec_code(self) -> u8 {
        match self {
            ObdProtocol::Aldl => 0x00,
            ObdProtocol::Vpw => 0x01,
            ObdProtocol::HsCan => 0x02,
            ObdProtocol::GmCan => 0x03,
            ObdProtocol::MsCan => 0x04,
        }
    }

    /// The byte that stands for the protocol on the wire.
    pub fn code(self) -> (r: u8)
        ensures
            r == self.spec_code(),
    {
        match self {
            ObdProtocol::Aldl => 0x00,
            ObdProtocol::Vpw => 0x01,
            ObdProtocol::HsCan => 0x02,
            ObdProtocol::GmCan => 0x03,
            ObdProtocol::MsCan => 0x04,
        }
    }
}

/// Network communication of the `31 02 02 XX` request.
#[derive(Debug, Clone, Copy, PartialEq, Eq, Structural)]
pub enum Comm {
    Off,
    On,
    ListenOnly,
}

impl Comm {
    /// The byte that stands for the mode on the wire.
    pub open spec fn spec_code(self) -> u8 {
        match self {
            Comm::Off => 0x00,
            Comm::On => 0x01,
            Comm::ListenOnly => 0x02,
        }
    }

    /// The byte that stands for the mode on the wire.
    pub fn code(self) -> (r: u8)
        ensures
            r == self.spec_code(),
    {
        match self {
            Comm::Off => 0x00,
            Comm::On => 0x01,
            Comm::ListenOnly => 0x02,
        }
    }
}

/// Filter type of the `34 11 00` request.
#[derive(Debug, Clone, Copy, PartialEq, Eq, Structural)]
pub enum FilterType {
    Pass,
    Flow,
    Block,
}

impl FilterType {
    /// The byte that stands for the type on the wire.
    pub open spec fn spec_code(self) -> u8 {
        match self {
            FilterType::Pass => 0x00,
            FilterType::Flow => 0x01,
            FilterType::Block => 0x02,
        }
    }

    /// The byte that stands for the type on the wire.
    pub fn code(self) -> (r: u8)
        ensures
            r == self.spec_code(),
    {
        match self {
            FilterType::Pass => 0x00,
            FilterType::Flow => 0x01,
            FilterType::Block => 0x02,
        }
    }
}

/// The name of a configuration error code.
pub open spec fn error_name_of(code: u8) -> Seq<char> {
    if code == 1 {
        "InvalidCommand"@
    } else if code == 2 {
        "RecvTooLong"@
    } else if code == 3 {
        "ByteWaitTimeout"@
    } else if code == 4 {
        "InvalidSerialChksum"@
    } else if code == 5 {
        "SubCommandIncorrectSize"@
    } else if code == 6 {
        "InvalidSubCommand"@
    } else if code == 7 {
        "SubCommandInvalidData"@
    } else {
        "Unknown"@
    }
}

/// The name of a configuration error code (`7F LEN CMD ERR`).
pub fn error_name(code: u8) -> (r: &'static str)
    ensures
        r@ == error_name_of(code),
{
    match code {
        1 => "InvalidCommand",
        2 => "RecvTooLong",
        3 => "ByteWaitTimeout",
        4 => "InvalidSerialChksum",
        5 => "SubCommandIncorrectSize",
        6 => "InvalidSubCommand",
        7 => "SubCommandInvalidData",
        _ => "Unknown",
    }
}

/// `0xFF` minus the low byte of the sum of `s`.
pub open spec fn checksum_of(s: Seq<u8>) -> u8 {
    (0xFF - bytes::byte_sum(s) % 256) as u8
}

/// `0xFF - (sum & 0xFF)` over every byte before the checksum.
pub fn checksum(bytes: &[u8]) -> (r: u8)
    ensures
        r == checksum_of(bytes@),
{
    assert(bytes@.subrange(0, bytes@.len() as int) =~= bytes@);
    0xFF - bytes::sum_mod(bytes, 0, bytes.len())
}

/// Whether a frame built for this command carries a two-byte length.
pub open spec fn builds_large(c: u8) -> bool {
    c == cmd::RX_LARGE || c == cmd::TX_LARGE
}

/// A frame up to its checksum.
pub open spec fn frame_body(c: u8, data: Seq<u8>) -> Seq<u8> {
    if builds_large(c) {
        seq![c, (data.len() / 256 % 256) as u8, (data.len() % 256) as u8] + data
    } else {
        seq![c, data.len() as u8] + data
    }
}

/// The frame `CMD LEN DATA.. YY`.
pub open spec fn frame_bytes(c: u8, data: Seq<u8>) -> Seq<u8> {
    frame_body(c, data).push(checksum_of(frame_body(c, data)))
}

/// Builds `CMD LEN DATA.. YY`; the large forms carry two length bytes.
pub fn frame(cmd: u8, data: &[u8]) -> (r: Vec<u8>)
    requires
        builds_large(cmd) || data@.len() <= 0xFF,
    ensures
        r@ == frame_bytes(cmd, data@),
{
    let n: usize = data.len();
    let mut out: Vec<u8> = Vec::new();
    out.push(cmd);
    if cmd == cmd::RX_LARGE || cmd == cmd::TX_LARGE {
        out.push((n / 256 % 256) as u8);
        out.push((n % 256) as u8);
    } else {
        out.push(n as u8);
    }
    bytes::extend(&mut out, data);
    assert(out@ =~= frame_body(cmd, data@));
    let yy = checksum(out.as_slice());
    out.push(yy);
    out
}

/// A received CAN frame: `[ts_us?] ID(4) data..`.
#[derive(Debug, Clone, PartialEq, Eq)]
pub struct RxFrame {
    pub id: u32,
    /// Microsecond timestamp, where the tool sends one.
    pub ts_us: Option<u32>,
    pub data: Vec<u8>,
}

/// A decoded frame from the tool.
#[derive(Debug, Clone, PartialEq, Eq)]
pub enum DviFrame {
    /// A network frame, CAN layout decoded.
    Rx(RxFrame),
    /// `7F LEN CMD ERR`: `cmd` is the failing command (`0xFF` is a bus read fault).
    Error { cmd: u8, code: u8 },
    /// Any other reply: raw data bytes.
    Reply { cmd: u8, data: Vec<u8> },
}

/// A received CAN frame as a mathematical value.
#[verifier::ext_equal]
pub struct RxView {
    pub id: u32,
    pub ts_us: Option<u32>,
    pub data: Seq<u8>,
}

/// A decoded frame as a mathematical value.
#[verifier::ext_equal]
pub enum FrameView {
    Rx(RxView),
    Error { cmd: u8, code: u8 },
    Reply { cmd: u8, data: Seq<u8> },
}

impl View for RxFrame {
    type V = RxView;

    open spec fn view(&self) -> RxView {
        RxView { id: self.id, ts_us: self.ts_us, data: self.data@ }
    }
}

impl View for DviFrame {
    type V = FrameView;

    open spec fn view(&self) -> FrameView {
        match *self {
            DviFrame::Rx(f) => FrameView::Rx(f@),
            DviFrame::Error { cmd, code } => FrameView::Error { cmd, code },
            DviFrame::Reply { cmd, data } => FrameView::Reply { cmd, data: data@ },
        }
    }
}

impl RxFrame {
    /// A copy of the frame.
    pub fn duplicate(&self) -> (r: RxFrame)
        ensures
            r@ == self@,
    {
        RxFrame {
            id: self.id,
            ts_us: self.ts_us,
            data: bytes::range(self.data.as_slice(), 0, self.data.len()),
        }
    }
}

/// The views of a sequence of decoded frames.
pub open spec fn frame_views(v: Seq<DviFrame>) -> Seq<FrameView> {
    Seq::new(v.len(), |i: int| v[i]@)
}

/// The views of a sequence of received frames.
pub open spec fn rx_views(v: Seq<RxFrame>) -> Seq<RxView> {
    Seq::new(v.len(), |i: int| v[i]@)
}

/// Command bytes that can start a frame: the tool's replies, RX and error
/// frames, and the requests sent to it.
pub open spec fn known_head(b: u8) -> bool {
    ||| b == 0x08
    ||| b == 0x09
    ||| b == 0x10
    ||| b == 0x11
    ||| b == 0x20
    ||| b == 0x21
    ||| b == 0x22
    ||| b == 0x24
    ||| b == 0x25
    ||| b == 0x31
    ||| b == 0x32
    ||| b == 0x33
    ||| b == 0x34
    ||| b == 0x35
    ||| b == 0x41
    ||| b == 0x42
    ||| b == 0x43
    ||| b == 0x44
    ||| b == 0x7F
}

/// Whether a frame read with this command byte carries a two-byte length.
pub open spec fn reads_large(b: u8) -> bool {
    b == cmd::RX_LARGE || b == cmd::TX_LARGE || b == 0x21
}

/// The length of the frame at the head of `buf`, checksum counted, once enough
/// of it is there to tell.
pub open spec fn total_len(buf: Seq<u8>) -> Option<nat> {
    if buf.len() == 0 {
        None
    } else if reads_large(buf[0]) {
        if buf.len() < 3 {
            None
        } else {
            Some((3 + (buf[1] * 256 + buf[2]) + 1) as nat)
        }
    } else if buf.len() < 2 {
        None
    } else {
        Some((2 + buf[1] + 1) as nat)
    }
}

/// The data bytes of a frame without its checksum.
pub open spec fn body_data(body: Seq<u8>) -> Seq<u8> {
    if reads_large(body[0]) {
        body.skip(3)
    } else {
        body.skip(2)
    }
}

/// What a frame without its checksum says; nothing where it is too short to
/// say anything.
pub open spec fn decode_body(body: Seq<u8>, timestamps: bool) -> Option<FrameView> {
    let c = body[0];
    let data = body_data(body);
    if c == cmd::ERROR {
        if data.len() < 2 {
            None
        } else {
            Some(FrameView::Error { cmd: data[0], code: data[1] })
        }
    } else if c == cmd::RX_NORMAL || c == cmd::RX_LARGE {
        let stamped = timestamps && data.len() >= 4;
        let rest = if stamped {
            data.skip(4)
        } else {
            data
        };
        if rest.len() < 4 {
            None
        } else {
            Some(
                FrameView::Rx(
                    RxView {
                        id: bytes::be_value(rest),
                        ts_us: if stamped {
                            Some(bytes::be_value(data))
                        } else {
                            None
                        },
                        data: rest.skip(4),
                    },
                ),
            )
        }
    } else {
        Some(FrameView::Reply { cmd: c, data })
    }
}

/// `f` before `fs`, where there is an `f`.
pub open spec fn prepend(f: Option<FrameView>, fs: Seq<FrameView>) -> Seq<FrameView> {
    match f {
        Some(x) => seq![x] + fs,
        None => fs,
    }
}

/// The frames of a byte stream, and the bytes that wait for more. A byte that
/// starts no frame is skipped, and so is the head of a frame whose checksum is
/// wrong.
pub open spec fn parse_stream(buf: Seq<u8>, timestamps: bool) -> (Seq<FrameView>, Seq<u8>)
    decreases buf.len(),
{
    if buf.len() == 0 {
        (Seq::empty(), buf)
    } else if !known_head(buf[0]) {
        parse_stream(buf.skip(1), timestamps)
    } else {
        match total_len(buf) {
            None => (Seq::empty(), buf),
            Some(total) => if buf.len() < total {
                (Seq::empty(), buf)
            } else if checksum_of(buf.take(total - 1)) != buf[total - 1] {
                parse_stream(buf.skip(1), timestamps)
            } else {
                let later = parse_stream(buf.skip(total as int), timestamps);
                (prepend(decode_body(buf.take(total - 1), timestamps), later.0), later.1)
            },
        }
    }
}

/// Incremental frame splitter over a byte stream.
pub struct FrameParser {
    /// The bytes that wait for more.
    pub buf: Vec<u8>,
    /// RX frames carry a four-byte microsecond timestamp.
    pub timestamps: bool,
}

impl Default for FrameParser {
    fn default() -> (r: FrameParser)
        ensures
            r.pending() == Seq::<u8>::empty(),
            !r.timestamps,
    {
        FrameParser { buf: Vec::new(), timestamps: false }
    }
}

impl FrameParser {
    /// The bytes that wait for more.
    pub open spec fn pending(&self) -> Seq<u8> {
        self.buf@
    }

    /// A parser with nothing pending, for frames without timestamps.
    pub fn new() -> (r: FrameParser)
        ensures
            r.pending() == Seq::<u8>::empty(),
            !r.timestamps,
    {
        FrameParser { buf: Vec::new(), timestamps: false }
    }

    /// Forgets the pending bytes.
    pub fn reset(&mut self)
        ensures
            final(self).pending() == Seq::<u8>::empty(),
            final(self).timestamps == old(self).timestamps,
    {
        self.buf.clear();
    }

    /// Whether a byte can start a frame.
    fn starts_frame(b: u8) -> (r: bool)
        ensures
            r == known_head(b),
    {
        b == 0x08 || b == 0x09 || b == 0x10 || b == 0x11 || b == 0x20 || b == 0x21 || b == 0x22
            || b == 0x24 || b == 0x25 || b == 0x31 || b == 0x32 || b == 0x33 || b == 0x34 || b
            == 0x35 || b == 0x41 || b == 0x42 || b == 0x43 || b == 0x44 || b == 0x7F
    }

    /// Feeds bytes; returns every complete frame in order.
    pub fn feed(&mut self, bytes: &[u8]) -> (r: Vec<DviFrame>)
        ensures
            (frame_views(r@), final(self).pending()) == parse_stream(
                old(self).pending() + bytes@,
                old(self).timestamps,
            ),
            final(self).timestamps == old(self).timestamps,
    {
        let ghost start = self.buf@ + bytes@;
        let ts = self.timestamps;
        bytes::extend(&mut self.buf, bytes);
        let mut out: Vec<DviFrame> = Vec::new();
        let mut pos: usize = 0;
        assert(self.buf@.skip(0) =~= start);
        assert(frame_views(out@) + parse_stream(start, ts).0 =~= parse_stream(start, ts).0);
        while pos < self.buf.len()
            invariant_except_break
                pos <= self.buf@.len(),
                self.timestamps == ts,
                parse_stream(start, ts) == (
                    frame_views(out@) + parse_stream(self.buf@.skip(pos as int), ts).0,
                    parse_stream(self.buf@.skip(pos as int), ts).1,
                ),
            ensures
                pos <= self.buf@.len(),
                self.timestamps == ts,
                parse_stream(start, ts) == (frame_views(out@), self.buf@.skip(pos as int)),
            decreases self.buf@.len() - pos,
        {
            let ghost cur = self.buf@.skip(pos as int);
            let ghost later = parse_stream(cur, ts);
            if !Self::starts_frame(self.buf[pos]) {
                assert(cur.skip(1) =~= self.buf@.skip(pos + 1));
                pos += 1;
                continue ;
            }
            let total: usize = match Self::frame_len(&self.buf, pos) {
                Some(n) => n,
                None => {
                    assert(frame_views(out@) + Seq::<FrameView>::empty() =~= frame_views(out@));
                    break;
                },
            };
            if self.buf.len() - pos < total {
                assert(frame_views(out@) + Seq::<FrameView>::empty() =~= frame_views(out@));
                break;
            }
            let end: usize = pos + total - 1;
            assert(cur.take(total - 1) =~= self.buf@.subrange(pos as int, end as int));
            if 0xFF - bytes::sum_mod(self.buf.as_slice(), pos, end) != self.buf[end] {
                assert(cur.skip(1) =~= self.buf@.skip(pos + 1));
                pos += 1;
                continue ;
            }
            let ghost rest = parse_stream(cur.skip(total as int), ts);
            assert(cur.skip(total as int) =~= self.buf@.skip(pos + total));
            let ghost before = frame_views(out@);
            if let Some(f) = Self::decode(self.buf.as_slice(), pos, end, ts) {
                out.push(f);
                assert(frame_views(out@) =~= before.push(f@));
                assert(before + (seq![f@] + rest.0) =~= frame_views(out@) + rest.0);
            }
            pos += total;
        }
        let tail = bytes::range(self.buf.as_slice(), pos, self.buf.len());
        assert(tail@ =~= self.buf@.skip(pos as int));
        self.buf = tail;
        out
    }

    /// The length of the frame that starts at `pos`, checksum counted.
    fn frame_len(buf: &Vec<u8>, pos: usize) -> (r: Option<usize>)
        requires
            pos < buf@.len(),
        ensures
            r is Some <==> total_len(buf@.skip(pos as int)) is Some,
            r matches Some(n) ==> total_len(buf@.skip(pos as int)) == Some(n as nat) && n >= 3
                && (reads_large(buf@[pos as int]) ==> n >= 4),
    {
        let c = buf[pos];
        if c == cmd::RX_LARGE || c == cmd::TX_LARGE || c == 0x21 {
            if buf.len() - pos < 3 {
                return None;
            }
            let len: usize = buf[pos + 1] as usize * 256 + buf[pos + 2] as usize;
            Some(3 + len + 1)
        } else {
            if buf.len() - pos < 2 {
                return None;
            }
            Some(2 + buf[pos + 1] as usize + 1)
        }
    }

    /// What the frame at `v[pos..end]`, checksum left out, says.
    fn decode(v: &[u8], pos: usize, end: usize, timestamps: bool) -> (r: Option<DviFrame>)
        requires
            pos + 2 <= end <= v@.len(),
            reads_large(v@[pos as int]) ==> pos + 3 <= end,
        ensures
            r is Some <==> decode_body(v@.subrange(pos as int, end as int), timestamps) is Some,
            r matches Some(f) ==> decode_body(v@.subrange(pos as int, end as int), timestamps)
                == Some(f@),
    {
        let ghost body = v@.subrange(pos as int, end as int);
        let len: usize = v.len();
        let c = v[pos];
        let at: usize = if c == cmd::RX_LARGE || c == cmd::TX_LARGE || c == 0x21 {
            pos + 3
        } else {
            pos + 2
        };
        assert(body_data(body) =~= v@.subrange(at as int, end as int));
        let n: usize = end - at;
        if c == cmd::ERROR {
            if n < 2 {
                None
            } else {
                Some(DviFrame::Error { cmd: v[at], code: v[at + 1] })
            }
        } else if c == cmd::RX_NORMAL || c == cmd::RX_LARGE {
            let stamped = timestamps && n >= 4;
            let rest: usize = if stamped {
                at + 4
            } else {
                at
            };
            if end - rest < 4 {
                return None;
            }
            let ts_us: Option<u32> = if stamped {
                Some(bytes::be_at(v, at))
            } else {
                None
            };
            let id = bytes::be_at(v, rest);
            let data = bytes::range(v, rest + 4, end);
            assert(stamped ==> body_data(body).skip(4) =~= v@.subrange(rest as int, end as int));
            assert(data@ =~= v@.subrange(rest as int, end as int).skip(4));
            Some(DviFrame::Rx(RxFrame { id, ts_us, data }))
        } else {
            let data = bytes::range(v, at, end);
            Some(DviFrame::Reply { cmd: c, data })
        }
    }
}

// ---- request builders ----

/// A flag as the byte that stands for it.
pub open spec fn flag_byte(on: bool) -> u8 {
    if on {
        1
    } else {
        0
    }
}

fn flag(on: bool) -> (r: u8)
    ensures
        r == flag_byte(on),
{
    if on {
        1
    } else {
        0
    }
}

/// `22 01 XX` scantool information.
pub fn info_request(sub: u8) -> (r: Vec<u8>)
    ensures
        r@ == frame_bytes(cmd::INFO, seq![sub]),
{
    let d: Vec<u8> = vec![sub];
    assert(d@ =~= seq![sub]);
    frame(cmd::INFO, d.as_slice())
}

/// `31 02 01 XX` set OBD protocol.
pub fn set_protocol(p: ObdProtocol) -> (r: Vec<u8>)
    ensures
        r@ == frame_bytes(cmd::PROTOCOL, seq![0x01u8, p.spec_code()]),
{
    let d: Vec<u8> = vec![0x01, p.code()];
    assert(d@ =~= seq![0x01u8, p.spec_code()]);
    frame(cmd::PROTOCOL, d.as_slice())
}

/// `31 02 02 XX` network communication.
pub fn set_comm(c: Comm) -> (r: Vec<u8>)
    ensures
        r@ == frame_bytes(cmd::PROTOCOL, seq![0x02u8, c.spec_code()]),
{
    let d: Vec<u8> = vec![0x02, c.code()];
    assert(d@ =~= seq![0x02u8, c.spec_code()]);
    frame(cmd::PROTOCOL, d.as_slice())
}

/// `31 02 06 01` stay in DVI.
pub fn set_api_dvi() -> (r: Vec<u8>)
    ensures
        r@ == frame_bytes(cmd::PROTOCOL, seq![0x06u8, 0x01u8]),
{
    let d: Vec<u8> = vec![0x06, 0x01];
    assert(d@ =~= seq![0x06u8, 0x01u8]);
    frame(cmd::PROTOCOL, d.as_slice())
}

/// `24 02 03 XX` RX timestamps on or off.
pub fn set_timestamps(on: bool) -> (r: Vec<u8>)
    ensures
        r@ == frame_bytes(cmd::SETTINGS, seq![0x03u8, flag_byte(on)]),
{
    let d: Vec<u8> = vec![0x03, flag(on)];
    assert(d@ =~= seq![0x03u8, flag_byte(on)]);
    frame(cmd::SETTINGS, d.as_slice())
}

/// `34 02 0E XX` CAN padding on or off: every written frame padded to eight
/// bytes, which many controllers insist on.
pub fn set_padding(on: bool) -> (r: Vec<u8>)
    ensures
        r@ == frame_bytes(cmd::CAN, seq![0x0Eu8, flag_byte(on)]),
{
    let d: Vec<u8> = vec![0x0E, flag(on)];
    assert(d@ =~= seq![0x0Eu8, flag_byte(on)]);
    frame(cmd::CAN, d.as_slice())
}

/// `34 02 06 XX` hardware or software filters.
pub fn set_software_filters(on: bool) -> (r: Vec<u8>)
    ensures
        r@ == frame_bytes(cmd::CAN, seq![0x06u8, flag_byte(on)]),
{
    let d: Vec<u8> = vec![0x06, flag(on)];
    assert(d@ =~= seq![0x06u8, flag_byte(on)]);
    frame(cmd::CAN, d.as_slice())
}

/// `34 02 15 XX` predefined CAN baud rate.
pub fn set_baud(code: u8) -> (r: Vec<u8>)
    ensures
        r@ == frame_bytes(cmd::CAN, seq![0x15u8, code]),
{
    let d: Vec<u8> = vec![0x15, code];
    assert(d@ =~= seq![0x15u8, code]);
    frame(cmd::CAN, d.as_slice())
}

/// The baud code for 500 kbit/s.
pub const BAUD_500K: u8 = 6;

/// The baud code for 250 kbit/s.
pub const BAUD_250K: u8 = 5;

/// `34 04 1A slot NN XX` periodic-frame interval in milliseconds.
pub fn periodic_interval(slot: u8, ms: u16) -> (r: Vec<u8>)
    ensures
        r@ == frame_bytes(
            cmd::CAN,
            seq![0x1Au8, slot, (ms / 256) as u8, (ms % 256) as u8],
        ),
{
    let d: Vec<u8> = vec![0x1A, slot, (ms / 256) as u8, (ms % 256) as u8];
    assert(d@ =~= seq![0x1Au8, slot, (ms / 256) as u8, (ms % 256) as u8]);
    frame(cmd::CAN, d.as_slice())
}

/// `34 LEN 1B slot <4-byte id> <payload>` periodic-frame data.
pub fn periodic_data(slot: u8, id: u32, payload: &[u8]) -> (r: Vec<u8>)
    requires
        payload@.len() <= 0xF9,
    ensures
        r@ == frame_bytes(cmd::CAN, seq![0x1Bu8, slot] + bytes::be_bytes(id) + payload@),
{
    let mut d: Vec<u8> = vec![0x1B, slot];
    assert(d@ =~= seq![0x1Bu8, slot]);
    bytes::push_be(&mut d, id);
    bytes::extend(&mut d, payload);
    frame(cmd::CAN, d.as_slice())
}

/// `34 03 1C slot XX` periodic-frame enable.
pub fn periodic_enable(slot: u8, on: bool) -> (r: Vec<u8>)
    ensures
        r@ == frame_bytes(cmd::CAN, seq![0x1Cu8, slot, flag_byte(on)]),
{
    let d: Vec<u8> = vec![0x1C, slot, flag(on)];
    assert(d@ =~= seq![0x1Cu8, slot, flag_byte(on)]);
    frame(cmd::CAN, d.as_slice())
}

/// The data bytes of a whole CAN filter.
pub open spec fn filter_data(
    number: u8,
    extended: bool,
    kind: FilterType,
    on: bool,
    id: u32,
    mask: u32,
    flow_id: u32,
) -> Seq<u8> {
    seq![0x00u8, number, flag_byte(extended), kind.spec_code(), flag_byte(on)] + bytes::be_bytes(id)
        + bytes::be_bytes(mask) + bytes::be_bytes(flow_id)
}

/// `34 11 00 ..` entire CAN filter.
pub fn can_filter(
    number: u8,
    extended: bool,
    kind: FilterType,
    on: bool,
    id: u32,
    mask: u32,
    flow_id: u32,
) -> (r: Vec<u8>)
    ensures
        r@ == frame_bytes(cmd::CAN, filter_data(number, extended, kind, on, id, mask, flow_id)),
{
    let mut d: Vec<u8> = vec![0x00, number, flag(extended), kind.code(), flag(on)];
    assert(d@ =~= seq![0x00u8, number, flag_byte(extended), kind.spec_code(), flag_byte(on)]);
    bytes::push_be(&mut d, id);
    bytes::push_be(&mut d, mask);
    bytes::push_be(&mut d, flow_id);
    frame(cmd::CAN, d.as_slice())
}

/// `34 04 05 MM NN XX` filter enable status.
pub fn can_filter_status(number: u8, extended: bool, on: bool) -> (r: Vec<u8>)
    ensures
        r@ == frame_bytes(cmd::CAN, seq![0x05u8, number, flag_byte(extended), flag_byte(on)]),
{
    let d: Vec<u8> = vec![0x05, number, flag(extended), flag(on)];
    assert(d@ =~= seq![0x05u8, number, flag_byte(extended), flag_byte(on)]);
    frame(cmd::CAN, d.as_slice())
}

/// The request that sends one CAN frame.
pub open spec fn tx_bytes(id: u32, payload: Seq<u8>) -> Seq<u8> {
    let d = bytes::be_bytes(id) + payload;
    if d.len() > 0xFF {
        frame_bytes(cmd::TX_LARGE, d)
    } else {
        frame_bytes(cmd::TX_NORMAL, d)
    }
}

/// `10 ..` send one CAN frame: four-byte id and payload; above 255 bytes the
/// large form. A 29-bit id is simply the four-byte value.
pub fn tx_can(id: u32, extended: bool, payload: &[u8]) -> (r: Vec<u8>)
    ensures
        r@ == tx_bytes(id, payload@),
{
    let mut d: Vec<u8> = Vec::new();
    bytes::push_be(&mut d, id);
    assert(d@ =~= bytes::be_bytes(id));
    bytes::extend(&mut d, payload);
    if d.len() > 0xFF {
        frame(cmd::TX_LARGE, d.as_slice())
    } else {
        frame(cmd::TX_NORMAL, d.as_slice())
    }
}

// ---- laws ----

/// How a byte stream is cut into chunks does not change the frames: feeding
/// `a` and then `b` gives what feeding them at once gives.
pub proof fn chunks_do_not_matter(a: Seq<u8>, b: Seq<u8>, timestamps: bool)
    ensures
        parse_stream(a + b, timestamps) == ({
            let first = parse_stream(a, timestamps);
            let second = parse_stream(first.1 + b, timestamps);
            (first.0 + second.0, second.1)
        }),
    decreases a.len(),
{
    let first = parse_stream(a, timestamps);
    let second = parse_stream(first.1 + b, timestamps);
    if a.len() == 0 {
        assert(first.0 + second.0 =~= second.0);
    } else {
        assert((a + b)[0] == a[0]);
        if !known_head(a[0]) {
            assert((a + b).skip(1) =~= a.skip(1) + b);
            chunks_do_not_matter(a.skip(1), b, timestamps);
        } else {
            match total_len(a) {
                None => {
                    assert(first.0 + second.0 =~= second.0);
                },
                Some(total) => {
                    assert(total_len(a + b) == Some(total));
                    if a.len() < total {
                        assert(first.0 + second.0 =~= second.0);
                    } else {
                        assert((a + b).take(total - 1) =~= a.take(total - 1));
                        if checksum_of(a.take(total - 1)) != a[total - 1] {
                            assert((a + b).skip(1) =~= a.skip(1) + b);
                            chunks_do_not_matter(a.skip(1), b, timestamps);
                        } else {
                            assert((a + b).skip(total as int) =~= a.skip(total as int) + b);
                            chunks_do_not_matter(a.skip(total as int), b, timestamps);
                            let d = decode_body(a.take(total - 1), timestamps);
                            let l = parse_stream(a.skip(total as int), timestamps);
                            assert(prepend(d, l.0) + second.0 =~= prepend(d, l.0 + second.0));
                        }
                    }
                },
            }
        }
    }
}

/// A built frame is read back whole, whatever follows it: its body is decoded
/// and the parser goes on right behind it. (The large reply is built with a
/// one-byte length and read with two, so it is left out.)
pub proof fn frame_reads_back(c: u8, data: Seq<u8>, tail: Seq<u8>, timestamps: bool)
    requires
        known_head(c),
        c != 0x21,
        builds_large(c) ==> data.len() <= 0xFFFF,
        !builds_large(c) ==> data.len() <= 0xFF,
    ensures
        parse_stream(frame_bytes(c, data) + tail, timestamps) == ({
            let later = parse_stream(tail, timestamps);
            (prepend(decode_body(frame_body(c, data), timestamps), later.0), later.1)
        }),
{
    let buf = frame_bytes(c, data) + tail;
    let body = frame_body(c, data);
    let total = frame_bytes(c, data).len();
    assert(buf[0] == c);
    assert(total_len(buf) == Some(total)) by {
        assert(buf[1] == body[1]);
        if builds_large(c) {
            assert(buf[2] == body[2]);
        }
    }
    assert(buf.take(total - 1) =~= body);
    assert(buf[total - 1] == checksum_of(body));
    assert(buf.skip(total as int) =~= tail);
}

/// The data of a reply frame comes back as it was put in, in the normal and in
/// the large form. (Error and RX frames are read apart; the large reply is
/// built with a one-byte length and read with two, so it is left out.)
pub proof fn reply_data_reads_back(c: u8, data: Seq<u8>, timestamps: bool)
    requires
        c != cmd::ERROR,
        c != cmd::RX_NORMAL,
        c != cmd::RX_LARGE,
        c != 0x21,
        builds_large(c) ==> data.len() <= 0xFFFF,
        !builds_large(c) ==> data.len() <= 0xFF,
    ensures
        decode_body(frame_body(c, data), timestamps) == Some(FrameView::Reply { cmd: c, data }),
{
    if builds_large(c) {
        assert(frame_body(c, data).skip(3) =~= data);
    } else {
        assert(frame_body(c, data).skip(2) =~= data);
    }
}

/// The bytes of a received frame: the timestamp where there is one, the id and
/// the data.
pub open spec fn rx_bytes(rx: RxView) -> Seq<u8> {
    match rx.ts_us {
        Some(t) => bytes::be_bytes(t) + (bytes::be_bytes(rx.id) + rx.data),
        None => bytes::be_bytes(rx.id) + rx.data,
    }
}

/// A received frame comes back with the timestamp, the id and the bytes it was
/// built from, in the normal and in the large form.
pub proof fn rx_reads_back(rx: RxView, large: bool)
    requires
        large ==> rx_bytes(rx).len() <= 0xFFFF,
        !large ==> rx_bytes(rx).len() <= 0xFF,
    ensures
        decode_body(
            frame_body(
                if large {
                    cmd::RX_LARGE
                } else {
                    cmd::RX_NORMAL
                },
                rx_bytes(rx),
            ),
            rx.ts_us is Some,
        ) == Some(FrameView::Rx(rx)),
{
    let d = rx_bytes(rx);
    let rest = bytes::be_bytes(rx.id) + rx.data;
    bytes::be_reads_back(rx.id, rx.data);
    if large {
        assert(frame_body(cmd::RX_LARGE, d).skip(3) =~= d);
    } else {
        assert(frame_body(cmd::RX_NORMAL, d).skip(2) =~= d);
    }
    if let Some(t) = rx.ts_us {
        bytes::be_reads_back(t, rest);
        assert(d.skip(4) =~= rest);
    }
    assert(rest.skip(4) =~= rx.data);
}

/// The sum of bytes that are put together is the sum of their sums.
proof fn lemma_sum_of_parts(a: Seq<u8>, b: Seq<u8>)
    ensures
        bytes::byte_sum(a + b) == bytes::byte_sum(a) + bytes::byte_sum(b),
    decreases b.len(),
{
    if b.len() == 0 {
        assert(a + b =~= a);
    } else {
        lemma_sum_of_parts(a, b.drop_last());
        assert((a + b).drop_last() =~= a + b.drop_last());
        assert((a + b).last() == b.last());
    }
}

/// A frame on the wire: the command byte; the number of data bytes, in two bytes
/// with the high one first for `09` and `11` and in one for all others; the data;
/// and a last byte that brings the sum of all bytes to `FF`.
pub proof fn a_frame_adds_up(c: u8, data: Seq<u8>)
    requires
        c == 0x09 || c == 0x11 ==> data.len() <= 0xFFFF,
        c != 0x09 && c != 0x11 ==> data.len() <= 0xFF,
    ensures
        ({
            let f = frame_bytes(c, data);
            &&& f[0] == c
            &&& c == 0x09 || c == 0x11 ==> f.len() == data.len() + 4 && f[1] * 256 + f[2]
                == data.len() && f.subrange(3, 3 + data.len() as int) == data
            &&& c != 0x09 && c != 0x11 ==> f.len() == data.len() + 3 && f[1] == data.len()
                && f.subrange(2, 2 + data.len() as int) == data
            &&& bytes::byte_sum(f) % 256 == 0xFF
        }),
        forall|b: u8| bytes::byte_sum(#[trigger] seq![b]) == b,
{
    let body = frame_body(c, data);
    let f = frame_bytes(c, data);
    assert(f.drop_last() =~= body);
    let n = data.len();
    if builds_large(c) {
        assert(n / 256 % 256 == n / 256);
        assert(f.subrange(3, 3 + n as int) =~= data);
    } else {
        assert(f.subrange(2, 2 + n as int) =~= data);
    }
    assert forall|b: u8| bytes::byte_sum(#[trigger] seq![b]) == b by {
        assert(seq![b].drop_last() =~= Seq::<u8>::empty());
        assert(bytes::byte_sum(seq![b].drop_last()) == 0);
    }
}

/// A damaged byte is noticed: two frames that differ in one byte before the
/// checksum have different checksums.
pub proof fn a_damaged_byte_is_noticed(before: Seq<u8>, x: u8, y: u8, after: Seq<u8>)
    requires
        x != y,
    ensures
        checksum_of(before + seq![x] + after) != checksum_of(before + seq![y] + after),
{
    lemma_sum_of_parts(before + seq![x], after);
    lemma_sum_of_parts(before + seq![y], after);
    lemma_sum_of_parts(before, seq![x]);
    lemma_sum_of_parts(before, seq![y]);
    a_frame_adds_up(0, Seq::empty());
    assert(bytes::byte_sum(seq![x]) == x);
    assert(bytes::byte_sum(seq![y]) == y);
    let s = bytes::byte_sum(before) + bytes::byte_sum(after);
    assert((s + x) % 256 != (s + y) % 256);
}

/// The commands that are sent to the tool.
pub open spec fn is_request(b: u8) -> bool {
    b == 0x10 || b == 0x11 || b == 0x22 || b == 0x24 || b == 0x25 || (0x31 <= b <= 0x34)
}

/// A frame starts with a request, with a reply, which is a request plus `10`, with
/// a network frame (`08`, `09`) or with an error (`7F`); any other byte starts
/// none.
pub proof fn which_bytes_start_a_frame(b: u8)
    ensures
        known_head(b) <==> is_request(b) || (b >= 0x10 && is_request((b - 0x10) as u8)) || b == 0x08
            || b == 0x09 || b == 0x7F,
{
}

/// Bytes that start no frame are skipped: what follows them is read as if they
/// were not there.
pub proof fn noise_before_a_frame_is_skipped(noise: Seq<u8>, rest: Seq<u8>, timestamps: bool)
    requires
        forall|i: int| 0 <= i < noise.len() ==> !known_head(#[trigger] noise[i]),
    ensures
        parse_stream(noise + rest, timestamps) == parse_stream(rest, timestamps),
    decreases noise.len(),
{
    if noise.len() == 0 {
        assert(noise + rest =~= rest);
    } else {
        let n = noise.skip(1);
        assert forall|i: int| 0 <= i < n.len() implies !known_head(#[trigger] n[i]) by {
            assert(n[i] == noise[i + 1]);
        }
        noise_before_a_frame_is_skipped(n, rest, timestamps);
        assert(!known_head(noise[0]));
        assert((noise + rest)[0] == noise[0]);
        assert((noise + rest).skip(1) =~= n + rest);
    }
}

/// A frame whose checksum is wrong is dropped, where nothing in it looks like the
/// start of another, and the parser goes on behind it.
pub proof fn a_damaged_frame_is_dropped(
    c: u8,
    data: Seq<u8>,
    yy: u8,
    rest: Seq<u8>,
    timestamps: bool,
)
    requires
        known_head(c),
        c != 0x09,
        c != 0x11,
        c != 0x21,
        data.len() <= 0xFF,
        yy != checksum_of(frame_body(c, data)),
        !known_head(data.len() as u8),
        !known_head(yy),
        forall|i: int| 0 <= i < data.len() ==> !known_head(#[trigger] data[i]),
    ensures
        parse_stream(seq![c, data.len() as u8] + data + seq![yy] + rest, timestamps)
            == parse_stream(rest, timestamps),
{
    let buf = seq![c, data.len() as u8] + data + seq![yy] + rest;
    let body = frame_body(c, data);
    let total = data.len() + 3;
    assert(buf[0] == c && buf[1] == data.len());
    assert(total_len(buf) == Some(total as nat));
    assert(buf.take(total - 1) =~= body);
    assert(buf[total - 1] == yy);
    let noise = seq![data.len() as u8] + data + seq![yy];
    assert forall|i: int| 0 <= i < noise.len() implies !known_head(#[trigger] noise[i]) by {
        if 1 <= i <= data.len() {
            assert(noise[i] == data[i - 1]);
        }
    }
    assert(buf.skip(1) =~= noise + rest);
    noise_before_a_frame_is_skipped(noise, rest, timestamps);
}

/// An error frame names the failing command and the error; what follows is left
/// out, and one that is too short says nothing.
pub proof fn an_error_names_command_and_code(
    failing: u8,
    code: u8,
    more: Seq<u8>,
    timestamps: bool,
)
    requires
        more.len() <= 0xFD,
    ensures
        decode_body(frame_body(0x7F, seq![failing, code] + more), timestamps) == Some(
            FrameView::Error { cmd: failing, code },
        ),
        decode_body(frame_body(0x7F, seq![failing]), timestamps) is None,
{
    let d = seq![failing, code] + more;
    assert(frame_body(0x7F, d).skip(2) =~= d);
    assert(frame_body(0x7F, seq![failing]).skip(2) =~= seq![failing]);
}

/// A whole CAN filter takes seventeen bytes: a zero, the slot, whether the id is
/// 29-bit, the kind (pass 0, flow 1, block 2), whether it is on, then the id, the
/// mask and the id that flow control goes to, four bytes each with the highest
/// first.
pub proof fn a_filter_on_the_wire(
    number: u8,
    extended: bool,
    kind: FilterType,
    on: bool,
    id: u32,
    mask: u32,
    flow_id: u32,
)
    ensures
        ({
            let d = filter_data(number, extended, kind, on, id, mask, flow_id);
            &&& d.len() == 0x11
            &&& d[0] == 0 && d[1] == number
            &&& d[2] == 1 <==> extended
            &&& d[2] <= 1 && d[4] <= 1
            &&& kind is Pass <==> d[3] == 0
            &&& kind is Flow <==> d[3] == 1
            &&& kind is Block <==> d[3] == 2
            &&& d[4] == 1 <==> on
            &&& bytes::be_value(d.skip(5)) == id
            &&& bytes::be_value(d.skip(9)) == mask
            &&& bytes::be_value(d.skip(13)) == flow_id
        }),
{
    let d = filter_data(number, extended, kind, on, id, mask, flow_id);
    let a = bytes::be_bytes(id);
    let b = bytes::be_bytes(mask);
    let c = bytes::be_bytes(flow_id);
    assert(d.skip(5) =~= a + (b + c));
    assert(d.skip(9) =~= b + c);
    assert(d.skip(13) =~= c + Seq::<u8>::empty());
    bytes::be_reads_back(id, b + c);
    bytes::be_reads_back(mask, c);
    bytes::be_reads_back(flow_id, Seq::empty());
}

/// A CAN frame is sent as command `10`, or `11` where id and payload take more
/// than 255 bytes: the id in four bytes, the highest first, then the payload. A
/// reader of the tool's side gets both back.
pub proof fn a_sent_frame_is_read_back(id: u32, payload: Seq<u8>, tail: Seq<u8>)
    requires
        payload.len() <= 0xFFFB,
    ensures
        ({
            let c: u8 = if payload.len() > 0xFB {
                0x11
            } else {
                0x10
            };
            let d = bytes::be_bytes(id) + payload;
            &&& tx_bytes(id, payload)[0] == c
            &&& parse_stream(tx_bytes(id, payload) + tail, false) == (
                seq![FrameView::Reply { cmd: c, data: d }] + parse_stream(tail, false).0,
                parse_stream(tail, false).1,
            )
            &&& bytes::be_value(d) == id && d.skip(4) == payload
        }),
{
    let d = bytes::be_bytes(id) + payload;
    let c: u8 = if payload.len() > 0xFB {
        0x11
    } else {
        0x10
    };
    bytes::be_reads_back(id, payload);
    assert(d.skip(4) =~= payload);
    frame_reads_back(c, d, tail, false);
    reply_data_reads_back(c, d, false);
    assert(tx_bytes(id, payload)[0] == c);
}

/// The protocols and the modes of the network are numbered in their order.
pub proof fn protocols_are_numbered(p: ObdProtocol, m: Comm)
    ensures
        p is Aldl <==> p.spec_code() == 0,
        p is Vpw <==> p.spec_code() == 1,
        p is HsCan <==> p.spec_code() == 2,
        p is GmCan <==> p.spec_code() == 3,
        p is MsCan <==> p.spec_code() == 4,
        m is Off <==> m.spec_code() == 0,
        m is On <==> m.spec_code() == 1,
        m is ListenOnly <==> m.spec_code() == 2,
{
}

/// Every error code has one name: the seven that the tool knows in the order of
/// its manual, and `Unknown` for all others.
pub proof fn errors_have_their_names(code: u8)
    ensures
        code == 1 <==> error_name_of(code) == "InvalidCommand"@,
        code == 2 <==> error_name_of(code) == "RecvTooLong"@,
        code == 3 <==> error_name_of(code) == "ByteWaitTimeout"@,
        code == 4 <==> error_name_of(code) == "InvalidSerialChksum"@,
        code == 5 <==> error_name_of(code) == "SubCommandIncorrectSize"@,
        code == 6 <==> error_name_of(code) == "InvalidSubCommand"@,
        code == 7 <==> error_name_of(code) == "SubCommandInvalidData"@,
        code == 0 || code > 7 <==> error_name_of(code) == "Unknown"@,
{
    reveal_strlit("InvalidCommand");
    reveal_strlit("RecvTooLong");
    reveal_strlit("ByteWaitTimeout");
    reveal_strlit("InvalidSerialChksum");
    reveal_strlit("SubCommandIncorrectSize");
    reveal_strlit("InvalidSubCommand");
    reveal_strlit("SubCommandInvalidData");
    reveal_strlit("Unknown");
    assert("InvalidCommand"@.len() == 14);
    assert("RecvTooLong"@.len() == 11);
    assert("ByteWaitTimeout"@.len() == 15);
    assert("InvalidSerialChksum"@.len() == 19);
    assert("SubCommandIncorrectSize"@.len() == 23);
    assert("InvalidSubCommand"@.len() == 17);
    assert("SubCommandInvalidData"@.len() == 21);
    assert("Unknown"@.len() == 7);
}

} // verus!
