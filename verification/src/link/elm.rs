//! The ELM327 / STN text dialect: wire encoding, reply decoding, monitor lines
//! and the decisions of the adapter handshake.
use crate::addressing;
use crate::addressing::{Addressing, Bus, Controller};
use crate::bytes;
use crate::link;
use crate::link::dvi::codec::RxView;
use crate::link::dvi::framing;
use crate::link::{
    AddressingFail, ConnectFail, Frame, FrameValue, LinkEvent, LinkEventView, LinkReply, Payload,
    WireReply,
};
use crate::text;
use vstd::prelude::*;

verus! {

// ---- monitor lines ----

/// Whether `t` is two hexadecimal digits.
pub open spec fn is_byte(t: Seq<char>) -> bool {
    t.len() == 2 && text::all_hex(t)
}

/// Whether all of `t[from..]` are bytes.
pub open spec fn all_bytes(t: Seq<Seq<char>>, from: int, to: int) -> bool {
    forall|i: int| from <= i < to ==> is_byte(#[trigger] t[i])
}

/// A monitor line without the prompt that may be glued to it.
pub open spec fn bare_line(line: Seq<char>) -> Seq<char> {
    text::trim(text::trim_start(text::trim(line), text::Blank::One('>')))
}

/// The id of a monitor line, whether it is 29-bit, and the tokens it takes.
pub open spec fn line_header(a: Addressing, t: Seq<Seq<char>>) -> Option<(Seq<char>, bool, int)> {
    if a is Can29 && t.len() >= 4 && all_bytes(t, 0, 4) {
        Some((text::upper(t[0] + t[1] + t[2] + t[3]), true, 4))
    } else if a is Can11 && t.len() > 0 && t[0].len() == 3 && text::all_hex(t[0]) {
        Some((text::upper(t[0]), false, 1))
    } else if t.len() > 0 && t[0].len() == 8 && text::all_hex(t[0]) {
        Some((text::upper(t[0]), true, 1))
    } else {
        None
    }
}

/// The bytes that `t[from..]` write.
pub open spec fn bytes_from(t: Seq<Seq<char>>, from: int) -> Seq<u8> {
    Seq::new((t.len() - from) as nat, |i: int| text::hex_number(t[from + i]) as u8)
}

/// What a monitor line says.
pub open spec fn monitor_event(line: Seq<char>, a: Addressing, now_us: u64) -> Option<
    LinkEventView,
> {
    let bare = bare_line(line);
    if bare.len() == 0 {
        None
    } else if text::contains(text::upper(bare), "STOPPED"@) {
        Some(LinkEventView::Stopped)
    } else {
        let t = text::words(bare);
        match line_header(a, t) {
            Some((id, extended, n)) => if t.len() > n && all_bytes(t, n, t.len() as int) {
                Some(
                    LinkEventView::Frame(
                        FrameValue { id, extended, ts_us: now_us, data: bytes_from(t, n), raw: bare },
                    ),
                )
            } else {
                Some(LinkEventView::Text(bare))
            },
            None => Some(LinkEventView::Text(bare)),
        }
    }
}

fn is_byte_text(s: &str) -> (r: bool)
    ensures
        r == is_byte(s@),
{
    let v = text::chars_of(s);
    v.len() == 2 && text::is_all_hex(s)
}

/// Whether `t[from..]` are all bytes.
fn are_bytes(t: &Vec<String>, from: usize, to: usize) -> (r: bool)
    requires
        from <= to <= t@.len(),
    ensures
        r == all_bytes(text::views(t@), from as int, to as int),
{
    let mut i: usize = from;
    while i < to
        invariant
            from <= i <= to <= t@.len(),
            all_bytes(text::views(t@), from as int, i as int),
        decreases to - i,
    {
        assert(text::views(t@)[i as int] == t@[i as int]@);
        if !is_byte_text(t[i].as_str()) {
            return false;
        }
        i += 1;
    }
    true
}

proof fn lemma_byte_value(s: Seq<char>)
    requires
        is_byte(s),
    ensures
        text::hex_number(s) <= 255,
        s[0] != '+',
        text::hex_within(s, 255) == Some(text::hex_number(s)),
{
    assert(text::is_hex_digit(s[0]) && text::is_hex_digit(s[1]));
    assert(s.drop_last().drop_last() =~= Seq::<char>::empty());
    reveal_with_fuel(text::hex_number, 3);
    assert(s.drop_last().last() == s[0]);
}

/// The bytes that `t[from..]` write.
fn read_bytes(t: &Vec<String>, from: usize) -> (r: Vec<u8>)
    requires
        from <= t@.len(),
        all_bytes(text::views(t@), from as int, t@.len() as int),
    ensures
        r@ == bytes_from(text::views(t@), from as int),
{
    let mut out: Vec<u8> = Vec::new();
    let mut i: usize = from;
    while i < t.len()
        invariant
            from <= i <= t@.len(),
            all_bytes(text::views(t@), from as int, t@.len() as int),
            out@.len() == i - from,
            forall|j: int|
                0 <= j < out@.len() ==> #[trigger] out@[j] == bytes_from(
                    text::views(t@),
                    from as int,
                )[j],
        decreases t@.len() - i,
    {
        assert(text::views(t@)[i as int] == t@[i as int]@);
        proof {
            lemma_byte_value(t@[i as int]@);
        }
        if let Some(b) = text::parse_hex_text(t[i].as_str(), 255) {
            out.push(b as u8);
        }
        i += 1;
    }
    assert(out@ =~= bytes_from(text::views(t@), from as int));
    out
}

/// Parses one monitor line: the one place where monitor text is read. Nothing
/// for a blank line. A prompt glued to the line is taken off. A line is a frame
/// where it starts with a CAN id in the shape of the bus (11-bit: three digits;
/// 29-bit: four bytes; on either, a 29-bit id glued to eight digits) and goes on
/// with bytes only; `now_us` is the time of arrival.
pub fn parse_monitor_line(line: &str, bus: Bus, now_us: u64) -> (r: Option<LinkEvent>)
    ensures
        r is Some <==> monitor_event(line@, bus.addressing, now_us) is Some,
        r matches Some(ev) ==> monitor_event(line@, bus.addressing, now_us) == Some(ev@),
{
    let outer = text::trim_text(line, text::Blank::White);
    let unglued = text::trim_front(outer.as_str(), text::Blank::One('>'));
    let bare = text::trim_text(unglued.as_str(), text::Blank::White);
    if bare.as_str().is_empty() {
        return None;
    }
    let up = text::to_upper(bare.as_str());
    if text::has_part(up.as_str(), "STOPPED") {
        return Some(LinkEvent::Stopped);
    }
    let t = text::split_words(bare.as_str());
    let ghost w = text::words(bare@);
    let (id, extended, n): (String, bool, usize) = match header_of(bus.addressing, &t) {
        Some(h) => h,
        None => {
            return Some(LinkEvent::Text(bare));
        },
    };
    if t.len() > n && are_bytes(&t, n, t.len()) {
        let data = read_bytes(&t, n);
        Some(LinkEvent::Frame(Frame { id, extended, ts_us: now_us, data, raw: bare }))
    } else {
        Some(LinkEvent::Text(bare))
    }
}

fn header_of(a: Addressing, t: &Vec<String>) -> (r: Option<(String, bool, usize)>)
    ensures
        r is Some <==> line_header(a, text::views(t@)) is Some,
        r matches Some(h) ==> line_header(a, text::views(t@)) == Some((h.0@, h.1, h.2 as int)) && (
        h.2 == 1 || h.2 == 4) && h.2 <= t@.len(),
{
    let ghost w = text::views(t@);
    if matches!(a, Addressing::Can29 { .. }) && t.len() >= 4 && are_bytes(t, 0, 4) {
        let mut id = t[0].clone();
        id.append(t[1].as_str());
        id.append(t[2].as_str());
        id.append(t[3].as_str());
        return Some((text::to_upper(id.as_str()), true, 4));
    }
    if t.len() == 0 {
        return None;
    }
    let first = t[0].as_str();
    let n: usize = text::chars_of(first).len();
    assert(w[0] == first@);
    if matches!(a, Addressing::Can11) && n == 3 && text::is_all_hex(first) {
        Some((text::to_upper(first), false, 1))
    } else if n == 8 && text::is_all_hex(first) {
        Some((text::to_upper(first), true, 1))
    } else {
        None
    }
}

// ---- wire encoding ----

/// How many leading characters of `s` take exactly two bytes, where that is a
/// whole number of characters.
pub open spec fn mode_chars(s: Seq<char>) -> Option<int> {
    if s.len() >= 2 && (s[0] as u32) < 0x80 && (s[1] as u32) < 0x80 {
        Some(2)
    } else if s.len() >= 1 && 0x80 <= (s[0] as u32) < 0x800 {
        Some(1)
    } else {
        None
    }
}

/// Whether the members of a chunk can be joined: one member, or more with a
/// two-byte mode in front of the first.
pub open spec fn joinable(members: Seq<Seq<char>>) -> bool {
    members.len() == 1 || (members.len() > 1 && mode_chars(members[0]) is Some)
}

/// `p` without the mode in front, where it has it.
pub open spec fn without_mode(p: Seq<char>, mode: Seq<char>) -> Seq<char> {
    if text::starts_with(p, mode) {
        p.skip(mode.len() as int)
    } else {
        p
    }
}

/// The members without the mode in front, one after the other.
pub open spec fn suffixes(members: Seq<Seq<char>>, mode: Seq<char>) -> Seq<char>
    decreases members.len(),
{
    if members.len() == 0 {
        Seq::empty()
    } else {
        suffixes(members.drop_last(), mode) + without_mode(members.last(), mode)
    }
}

/// The wire payload of a chunk: a single member is itself; several share the
/// mode of the first.
pub open spec fn chunk_wire(members: Seq<Seq<char>>) -> Seq<char> {
    if members.len() == 1 {
        members[0]
    } else {
        let mode = members[0].take(mode_chars(members[0])->0);
        mode + suffixes(members, mode)
    }
}

/// Assembles one chunk's wire payload from its members: the mode once, then
/// what follows it in each member. The mode is taken off once only, so that an
/// identifier that repeats it stays whole.
pub fn join_chunk_wire(members: &[String]) -> (r: String)
    requires
        joinable(text::views(members@)),
    ensures
        r@ == chunk_wire(text::views(members@)),
{
    let ghost all = text::views(members@);
    if members.len() == 1 {
        return members[0].clone();
    }
    let first = text::chars_of(members[0].as_str());
    assert(first@ == all[0]);
    let n: usize = if first.len() >= 2 && (first[0] as u32) < 0x80 && (first[1] as u32) < 0x80 {
        2
    } else {
        1
    };
    let mode = text::substring(first.as_slice(), 0, n);
    assert(mode@ =~= all[0].take(n as int));
    let mut out = mode.clone();
    let mut i: usize = 0;
    assert(out@ =~= mode@ + suffixes(all.take(0), mode@));
    while i < members.len()
        invariant
            i <= members@.len(),
            all == text::views(members@),
            out@ == mode@ + suffixes(all.take(i as int), mode@),
        decreases members@.len() - i,
    {
        assert(all.take(i + 1).drop_last() =~= all.take(i as int));
        let p = members[i].as_str();
        assert(all[i as int] == p@);
        let ghost before = out@;
        match text::strip_prefix(p, mode.as_str()) {
            Some(rest) => out.append(rest.as_str()),
            None => out.append(p),
        }
        assert(out@ =~= mode@ + suffixes(all.take(i + 1), mode@));
        i += 1;
    }
    assert(all.take(i as int) =~= all);
    out
}

/// The views of the members of each segment.
pub open spec fn segment_views(segments: Seq<Vec<String>>) -> Seq<Seq<Seq<char>>> {
    Seq::new(segments.len(), |i: int| text::views(segments[i]@))
}

/// The wire of each segment.
pub open spec fn segment_wires(segments: Seq<Seq<Seq<char>>>) -> Seq<Seq<char>> {
    Seq::new(segments.len(), |i: int| chunk_wire(segments[i]))
}

/// The wire of a request group: the wires of its segments with pipes between.
pub open spec fn wire_of(segments: Seq<Seq<Seq<char>>>) -> Seq<char> {
    text::join(segment_wires(segments), "|"@)
}

/// Turns a request group (member pids per segment) into its wire. A single
/// segment of one member is the bare pid.
pub fn encode_wire(segments: &[Vec<String>]) -> (r: String)
    requires
        forall|i: int|
            0 <= i < segments@.len() ==> joinable(#[trigger] segment_views(segments@)[i]),
    ensures
        r@ == wire_of(segment_views(segments@)),
{
    let ghost all = segment_views(segments@);
    let mut wires: Vec<String> = Vec::new();
    let mut i: usize = 0;
    while i < segments.len()
        invariant
            i <= segments@.len(),
            all == segment_views(segments@),
            forall|j: int| 0 <= j < segments@.len() ==> joinable(#[trigger] all[j]),
            wires@.len() == i,
            forall|j: int| 0 <= j < i ==> #[trigger] wires@[j]@ == chunk_wire(all[j]),
        decreases segments@.len() - i,
    {
        assert(all[i as int] == text::views(segments@[i as int]@));
        let w = join_chunk_wire(segments[i].as_slice());
        wires.push(w);
        i += 1;
    }
    assert(text::views(wires@) =~= segment_wires(all));
    text::join_text(&wires, "|")
}

/// The pieces of a piped reply, each trimmed of line ends and other blanks.
pub open spec fn piped(blob: Seq<char>) -> Seq<Seq<char>> {
    let p = text::pieces(blob, text::Blank::One('|'));
    Seq::new(p.len(), |i: int| text::trim(p[i]))
}

/// Splits a piped reply by the position of its pipes; a segment keeps its
/// inner line ends. There is one segment more than there are pipes, and
/// splitting the joined segments gives them back.
pub fn split_pipe_segments(blob: &str) -> (r: Vec<String>)
    ensures
        text::views(r@) == piped(blob@),
        r@.len() == blob@.to_multiset().count('|') + 1,
        piped(text::join(text::views(r@), "|"@)) == text::views(r@),
{
    let parts = text::split_text(blob, text::Blank::One('|'));
    let ghost p = text::pieces(blob@, text::Blank::One('|'));
    let mut out: Vec<String> = Vec::new();
    let mut i: usize = 0;
    while i < parts.len()
        invariant
            i <= parts@.len(),
            p == text::views(parts@),
            out@.len() == i,
            forall|j: int|
                0 <= j < i ==> #[trigger] out@[j]@ == text::trim(p[j]),
        decreases parts@.len() - i,
    {
        assert(p[i as int] == parts@[i as int]@);
        out.push(text::trim_text(parts[i].as_str(), text::Blank::White));
        i += 1;
    }
    assert(text::views(out@) =~= piped(blob@));
    proof {
        splitting_the_joined_segments(blob@);
    }
    out
}

// ---- reply decoding ----

/// Whether `frame`, called on `wire` and `text`, may have given these payloads
/// and this parse.
pub open spec fn framed_by<P, F: Fn(&str, &str, Bus) -> (Vec<Payload>, Option<P>)>(
    frame: F,
    wire: Seq<char>,
    reply: Seq<char>,
    bus: Bus,
    r: LinkReply<P>,
) -> bool {
    exists|w: &str, t: &str|
        w@ == wire && t@ == reply && #[trigger] call_ensures(
            frame,
            (w, t, bus),
            (r.payloads, r.parsed),
        )
}

/// Whether `r` is the reply that a segment's text stands for.
pub open spec fn decoded<P, F: Fn(&str, &str, Bus) -> (Vec<Payload>, Option<P>)>(
    frame: F,
    wire: Seq<char>,
    reply: Seq<char>,
    bus: Bus,
    r: LinkReply<P>,
) -> bool {
    &&& r.status@ == link::text_status(Some(reply))
    &&& r.faulted == (text::contains(reply, "NO DATA"@) || text::contains(reply, "ERROR"@))
    &&& r.raw@ == reply
    &&& framed_by(frame, wire, reply, bus, r)
}

/// One segment of adapter text as a typed reply. The first line that is not
/// noise gives the status; an error token on any line vetoes the reply; `frame`
/// takes the framing off and parses.
pub fn decode_segment<P, F: Fn(&str, &str, Bus) -> (Vec<Payload>, Option<P>)>(
    wire: &str,
    reply: &str,
    bus: Bus,
    frame: &F,
) -> (r: LinkReply<P>)
    requires
        forall|w: &str, t: &str| #[trigger] call_requires(*frame, (w, t, bus)),
    ensures
        decoded(*frame, wire@, reply@, bus, r),
{
    let status = link::classify_text(Some(reply));
    let faulted = text::has_part(reply, "NO DATA") || text::has_part(reply, "ERROR");
    let (payloads, parsed) = frame(wire, reply, bus);
    let r = LinkReply::from_payloads(status, faulted, payloads, parsed, reply.to_owned());
    assert(call_ensures(*frame, (wire, reply, bus), (r.payloads, r.parsed)));
    r
}

/// The wires and the reply texts of a command's segments, by position. A piped
/// command pairs its segments with those of the reply as far as both go.
pub open spec fn reply_pairs(command: Seq<char>, reply: Seq<char>) -> Seq<(Seq<char>, Seq<char>)> {
    if command.contains('|') {
        let wires = text::pieces(command, text::Blank::One('|'));
        let texts = piped(reply);
        let n = if wires.len() < texts.len() {
            wires.len()
        } else {
            texts.len()
        };
        Seq::new(n, |i: int| (wires[i], texts[i]))
    } else {
        seq![(command, reply)]
    }
}

/// A whole wire's text as a reply: a piped wire is split by the position of its
/// pipes; anything else is one segment.
pub fn decode_wire<P, F: Fn(&str, &str, Bus) -> (Vec<Payload>, Option<P>)>(
    command: &str,
    reply: &str,
    bus: Bus,
    frame: &F,
) -> (r: WireReply<P>)
    requires
        forall|w: &str, t: &str| #[trigger] call_requires(*frame, (w, t, bus)),
    ensures
        r.raw@ == reply@,
        r.segments@.len() == reply_pairs(command@, reply@).len(),
        forall|i: int|
            0 <= i < r.segments@.len() ==> decoded(
                *frame,
                reply_pairs(command@, reply@)[i].0,
                reply_pairs(command@, reply@)[i].1,
                bus,
                #[trigger] r.segments@[i],
            ),
{
    let mut segments: Vec<LinkReply<P>> = Vec::new();
    let ghost pairs = reply_pairs(command@, reply@);
    if has_pipe(command) {
        let wires = text::split_text(command, text::Blank::One('|'));
        let texts = split_pipe_segments(reply);
        let mut i: usize = 0;
        while i < wires.len() && i < texts.len()
            invariant
                i <= wires@.len(),
                i <= texts@.len(),
                command@.contains('|'),
                pairs == reply_pairs(command@, reply@),
                text::views(wires@) == text::pieces(command@, text::Blank::One('|')),
                text::views(texts@) == piped(reply@),
                forall|w: &str, t: &str| #[trigger] call_requires(*frame, (w, t, bus)),
                segments@.len() == i,
                forall|j: int|
                    0 <= j < i ==> decoded(
                        *frame,
                        pairs[j].0,
                        pairs[j].1,
                        bus,
                        #[trigger] segments@[j],
                    ),
            decreases wires@.len() - i,
        {
            assert(text::views(wires@)[i as int] == wires@[i as int]@);
            assert(text::views(texts@)[i as int] == texts@[i as int]@);
            let seg = decode_segment(wires[i].as_str(), texts[i].as_str(), bus, frame);
            segments.push(seg);
            i += 1;
        }
        assert(text::views(wires@).len() == wires@.len());
        assert(text::views(texts@).len() == texts@.len());
    } else {
        let seg = decode_segment(command, reply, bus, frame);
        segments.push(seg);
    }
    WireReply { raw: reply.to_owned(), segments }
}

fn has_pipe(s: &str) -> (r: bool)
    ensures
        r == s@.contains('|'),
{
    let v = text::chars_of(s);
    let mut i: usize = 0;
    while i < v.len()
        invariant
            i <= v@.len(),
            v@ == s@,
            forall|j: int| 0 <= j < i ==> #[trigger] v@[j] != '|',
        decreases v@.len() - i,
    {
        if v[i] == '|' {
            assert(s@[i as int] == '|');
            return true;
        }
        i += 1;
    }
    false
}

// ---- handshake ----

/// What became of a command that was run to completion: nothing where it could
/// not be queued or never finished, else the reply text or a failure code.
pub type RunOutcome = Option<Result<String, String>>;

/// What running one command gives: nothing where it was not queued or the
/// queue never went idle with nothing landed; a timeout where the queue went
/// idle and nothing landed.
pub fn run_outcome(queued: bool, landed: RunOutcome, idle: bool) -> (r: RunOutcome)
    ensures
        !queued ==> r is None,
        queued && landed is Some ==> r == landed,
        queued && landed is None && !idle ==> r is None,
        queued && landed is None && idle ==> (r matches Some(Err(e)) && e@ == "TIMEOUT"@),
{
    if !queued {
        return None;
    }
    match landed {
        Some(o) => Some(o),
        None => if idle {
            Some(Err("TIMEOUT".to_owned()))
        } else {
            None
        },
    }
}

/// The reply text of a run; a failure code gives nothing.
pub fn exchange_text(outcome: RunOutcome) -> (r: Option<String>)
    ensures
        r == (match outcome {
            Some(Ok(s)) => Some(s),
            _ => None,
        }),
{
    match outcome {
        Some(Ok(s)) => Some(s),
        _ => None,
    }
}

/// Whether the adapter acknowledged.
pub open spec fn is_acked(outcome: RunOutcome) -> bool {
    match outcome {
        Some(Ok(s)) => text::contains(text::upper(s@), "OK"@),
        _ => false,
    }
}

/// Whether the adapter acknowledged (`OK` anywhere in the reply text).
pub fn acked(outcome: &RunOutcome) -> (r: bool)
    ensures
        r == is_acked(*outcome),
{
    match outcome {
        Some(Ok(s)) => {
            let up = text::to_upper(s.as_str());
            text::has_part(up.as_str(), "OK")
        },
        _ => false,
    }
}

/// Where the handshake stands.
#[derive(Debug, Clone, Copy, PartialEq, Eq, Structural)]
pub enum ConnectPhase {
    /// Init commands are being queued; this one is next.
    Queueing(usize),
    /// All init commands are queued and are being worked off.
    Draining,
    /// The echo switch is run again.
    RetryingEcho,
    /// Stale periodic slots are being cleared.
    Purging,
    /// Batched commands are being probed.
    ProbingPipe,
    /// The output format of batched commands is being set.
    SettingPipeFormat,
    /// Nothing is left to do.
    Finished,
}

/// What came of the last action.
#[derive(Debug)]
pub enum ConnectEvent {
    /// Whether the queue took the init command.
    Queued(bool),
    /// Whether the queue went idle in time, and what landed for the echo switch.
    Drained { idle: bool, echo: RunOutcome },
    /// What became of the command that was run.
    Ran(RunOutcome),
}

/// What the handshake does next.
#[derive(Debug, PartialEq, Eq)]
pub enum ConnectAction {
    /// Queue the init command at this index.
    Queue(usize),
    /// Wait at most this many seconds for the queue to go idle.
    Drain { seconds: u64 },
    /// Run this command to completion.
    Run(&'static str),
    /// The handshake is over; whether batched commands are accepted.
    Done { pipe_capable: bool },
    /// The handshake failed.
    Fail(ConnectFail),
}

/// Whether some init command switches the echo off.
pub open spec fn has_echo_switch(init: Seq<Seq<char>>) -> bool {
    exists|i: int| 0 <= i < init.len() && text::ascii_upper(#[trigger] init[i]) == "ATE0"@
}

/// An action as a mathematical value.
#[verifier::ext_equal]
pub enum ConnectActionView {
    Queue(int),
    Drain(int),
    Run(Seq<char>),
    Done(bool),
    Refused(Seq<char>),
    TimedOut,
}

impl View for ConnectAction {
    type V = ConnectActionView;

    open spec fn view(&self) -> ConnectActionView {
        match *self {
            ConnectAction::Queue(i) => ConnectActionView::Queue(i as int),
            ConnectAction::Drain { seconds } => ConnectActionView::Drain(seconds as int),
            ConnectAction::Run(c) => ConnectActionView::Run(c@),
            ConnectAction::Done { pipe_capable } => ConnectActionView::Done(pipe_capable),
            ConnectAction::Fail(ConnectFail::QueueRefused(c)) => ConnectActionView::Refused(c@),
            ConnectAction::Fail(ConnectFail::InitTimeout) => ConnectActionView::TimedOut,
        }
    }
}

/// The first move of the handshake: without init commands there is nothing to
/// send, and no capability is claimed.
pub open spec fn connect_start(init: Seq<Seq<char>>) -> (ConnectPhase, ConnectActionView) {
    if init.len() == 0 {
        (ConnectPhase::Finished, ConnectActionView::Done(false))
    } else {
        (ConnectPhase::Queueing(0), ConnectActionView::Queue(0))
    }
}

/// The next move of the handshake.
pub open spec fn connect_step(
    init: Seq<Seq<char>>,
    pipe_enabled: bool,
    phase: ConnectPhase,
    event: ConnectEvent,
) -> (ConnectPhase, ConnectActionView) {
    match (phase, event) {
        (ConnectPhase::Queueing(i), ConnectEvent::Queued(ok)) => if !ok {
            (ConnectPhase::Finished, ConnectActionView::Refused(init[i as int]))
        } else if i + 1 < init.len() {
            (ConnectPhase::Queueing((i + 1) as usize), ConnectActionView::Queue(i + 1))
        } else {
            (ConnectPhase::Draining, ConnectActionView::Drain((10 * init.len()) as int))
        },
        (ConnectPhase::Draining, ConnectEvent::Drained { idle, echo }) => if !idle {
            (ConnectPhase::Finished, ConnectActionView::TimedOut)
        } else if has_echo_switch(init) && !is_acked(echo) {
            (ConnectPhase::RetryingEcho, ConnectActionView::Run("ATE0"@))
        } else {
            (ConnectPhase::Purging, ConnectActionView::Run("STPPMC"@))
        },
        (ConnectPhase::RetryingEcho, ConnectEvent::Ran(outcome)) => if outcome is None {
            (ConnectPhase::Finished, ConnectActionView::TimedOut)
        } else {
            (ConnectPhase::Purging, ConnectActionView::Run("STPPMC"@))
        },
        (ConnectPhase::Purging, ConnectEvent::Ran(_)) => if pipe_enabled {
            (ConnectPhase::ProbingPipe, ConnectActionView::Run("STBC 1"@))
        } else {
            (ConnectPhase::Finished, ConnectActionView::Done(false))
        },
        (ConnectPhase::ProbingPipe, ConnectEvent::Ran(outcome)) => if is_acked(outcome) {
            (ConnectPhase::SettingPipeFormat, ConnectActionView::Run("STBCOF 0"@))
        } else {
            (ConnectPhase::Finished, ConnectActionView::Done(false))
        },
        (ConnectPhase::SettingPipeFormat, ConnectEvent::Ran(outcome)) => (
            ConnectPhase::Finished,
            ConnectActionView::Done(is_acked(outcome)),
        ),
        _ => (ConnectPhase::Finished, ConnectActionView::TimedOut),
    }
}

/// Whether an event answers what the phase waits for.
pub open spec fn answers(phase: ConnectPhase, event: ConnectEvent) -> bool {
    match phase {
        ConnectPhase::Queueing(_) => event is Queued,
        ConnectPhase::Draining => event is Drained,
        ConnectPhase::Finished => false,
        _ => event is Ran,
    }
}

/// The adapter handshake: queue the init commands, wait for them, make sure the
/// echo is off (an adapter that is still restarting swallows the switch), clear
/// stale periodic slots, and probe for batched commands. The caller performs
/// each action and hands back what came of it.
pub struct ElmConnect {
    init: Vec<String>,
    pipe_enabled: bool,
    phase: ConnectPhase,
}

/// Milliseconds a handshake command may take.
pub const RUN_TIMEOUT_MS: u32 = 5000;

/// Seconds to wait for the queue to go idle behind a handshake command.
pub const RUN_IDLE_SECONDS: u64 = 10;

impl ElmConnect {
    /// The init commands.
    pub closed spec fn init_commands(&self) -> Seq<Seq<char>> {
        text::views(self.init@)
    }

    /// Whether batched commands are to be probed.
    pub closed spec fn probes_pipe(&self) -> bool {
        self.pipe_enabled
    }

    /// Where the handshake stands.
    pub closed spec fn spec_phase(&self) -> ConnectPhase {
        self.phase
    }

    /// The index of the init command that is being queued is in range.
    pub open spec fn wf(&self) -> bool {
        (self.spec_phase() matches ConnectPhase::Queueing(i) ==> i < self.init_commands().len())
            && 10 * self.init_commands().len() <= u64::MAX
    }

    /// Starts the handshake.
    pub fn start(init: Vec<String>, pipe_enabled: bool) -> (r: (Self, ConnectAction))
        requires
            10 * init@.len() <= u64::MAX,
        ensures
            r.0.wf(),
            r.0.init_commands() == text::views(init@),
            r.0.probes_pipe() == pipe_enabled,
            (r.0.spec_phase(), r.1@) == connect_start(text::views(init@)),
    {
        if init.len() == 0 {
            (
                ElmConnect { init, pipe_enabled, phase: ConnectPhase::Finished },
                ConnectAction::Done { pipe_capable: false },
            )
        } else {
            (
                ElmConnect { init, pipe_enabled, phase: ConnectPhase::Queueing(0) },
                ConnectAction::Queue(0),
            )
        }
    }

    /// Goes on with what came of the last action.
    pub fn step(&mut self, event: ConnectEvent) -> (r: ConnectAction)
        requires
            old(self).wf(),
            answers(old(self).spec_phase(), event),
        ensures
            final(self).wf(),
            final(self).init_commands() == old(self).init_commands(),
            final(self).probes_pipe() == old(self).probes_pipe(),
            (final(self).spec_phase(), r@) == connect_step(
                old(self).init_commands(),
                old(self).probes_pipe(),
                old(self).spec_phase(),
                event,
            ),
    {
        match (self.phase, event) {
            (ConnectPhase::Queueing(i), ConnectEvent::Queued(ok)) => {
                let n: usize = self.init.len();
                if !ok {
                    self.phase = ConnectPhase::Finished;
                    ConnectAction::Fail(ConnectFail::QueueRefused(self.init[i].clone()))
                } else if i < n - 1 {
                    self.phase = ConnectPhase::Queueing(i + 1);
                    ConnectAction::Queue(i + 1)
                } else {
                    self.phase = ConnectPhase::Draining;
                    ConnectAction::Drain { seconds: self.init.len() as u64 * 10 }
                }
            },
            (ConnectPhase::Draining, ConnectEvent::Drained { idle, echo }) => {
                if !idle {
                    self.phase = ConnectPhase::Finished;
                    ConnectAction::Fail(ConnectFail::InitTimeout)
                } else if self.switches_echo() && !acked(&echo) {
                    self.phase = ConnectPhase::RetryingEcho;
                    ConnectAction::Run("ATE0")
                } else {
                    self.phase = ConnectPhase::Purging;
                    ConnectAction::Run("STPPMC")
                }
            },
            (ConnectPhase::RetryingEcho, ConnectEvent::Ran(outcome)) => {
                if outcome.is_none() {
                    self.phase = ConnectPhase::Finished;
                    ConnectAction::Fail(ConnectFail::InitTimeout)
                } else {
                    self.phase = ConnectPhase::Purging;
                    ConnectAction::Run("STPPMC")
                }
            },
            (ConnectPhase::Purging, ConnectEvent::Ran(_)) => {
                if self.pipe_enabled {
                    self.phase = ConnectPhase::ProbingPipe;
                    ConnectAction::Run("STBC 1")
                } else {
                    self.phase = ConnectPhase::Finished;
                    ConnectAction::Done { pipe_capable: false }
                }
            },
            (ConnectPhase::ProbingPipe, ConnectEvent::Ran(outcome)) => {
                if acked(&outcome) {
                    self.phase = ConnectPhase::SettingPipeFormat;
                    ConnectAction::Run("STBCOF 0")
                } else {
                    self.phase = ConnectPhase::Finished;
                    ConnectAction::Done { pipe_capable: false }
                }
            },
            (ConnectPhase::SettingPipeFormat, ConnectEvent::Ran(outcome)) => {
                self.phase = ConnectPhase::Finished;
                ConnectAction::Done { pipe_capable: acked(&outcome) }
            },
            _ => {
                self.phase = ConnectPhase::Finished;
                ConnectAction::Fail(ConnectFail::InitTimeout)
            },
        }
    }

    /// Whether some init command switches the echo off.
    pub fn switches_echo(&self) -> (r: bool)
        ensures
            r == has_echo_switch(self.init_commands()),
    {
        let ghost all = text::views(self.init@);
        let mut i: usize = 0;
        while i < self.init.len()
            invariant
                i <= self.init@.len(),
                all == text::views(self.init@),
                forall|j: int| 0 <= j < i ==> text::ascii_upper(#[trigger] all[j]) != "ATE0"@,
            decreases self.init@.len() - i,
        {
            assert(all[i as int] == self.init@[i as int]@);
            let up = text::ascii_up_text(self.init[i].as_str());
            if text::same(up.as_str(), "ATE0") {
                return true;
            }
            i += 1;
        }
        false
    }
}

// ---- bus negotiation ----

/// The addressing that the reply to the first request shows, and the
/// controller that sent it.
pub open spec fn sniffed_reply(raw: Option<Seq<char>>) -> Option<(Addressing, Option<Controller>)> {
    match raw {
        None => None,
        Some(s) => match link::telling_line(s) {
            None => None,
            Some(line) => {
                let t = text::words(line);
                match addressing::sniffed(t) {
                    None => None,
                    Some(a) => Some(
                        (
                            a,
                            match addressing::header_read(a, t) {
                                Some(h) => Some(h.0),
                                None => None,
                            },
                        ),
                    ),
                }
            },
        },
    }
}

/// The text of an optional reply.
pub open spec fn text_of(s: Option<&str>) -> Option<Seq<char>> {
    match s {
        Some(t) => Some(t@),
        None => None,
    }
}

/// Reads the addressing off the reply to the first functional request: the
/// tester is learned, and the first responder is the engine controller.
pub fn sniff_reply(raw: Option<&str>) -> (r: Option<(Addressing, Option<Controller>)>)
    ensures
        r == sniffed_reply(text_of(raw)),
{
    let raw = match raw {
        Some(s) => s,
        None => {
            return None;
        },
    };
    let line = match link::telling_text(raw) {
        Some(l) => l,
        None => {
            return None;
        },
    };
    let t = text::split_words(line.as_str());
    let refs = token_refs(&t);
    assert(addressing::token_views(refs@) =~= text::views(t@));
    match Addressing::sniff(refs.as_slice()) {
        None => None,
        Some(a) => {
            let primary = match Bus::new(a).read(refs.as_slice()) {
                Some(h) => Some(h.0),
                None => None,
            };
            Some((a, primary))
        },
    }
}

/// Borrowed tokens.
pub fn token_refs(t: &Vec<String>) -> (r: Vec<&str>)
    ensures
        addressing::token_views(r@) == text::views(t@),
{
    let mut out: Vec<&str> = Vec::new();
    let mut i: usize = 0;
    while i < t.len()
        invariant
            i <= t@.len(),
            out@.len() == i,
            forall|j: int| 0 <= j < i ==> #[trigger] out@[j]@ == t@[j]@,
        decreases t@.len() - i,
    {
        out.push(t[i].as_str());
        i += 1;
    }
    assert(addressing::token_views(out@) =~= text::views(t@));
    out
}

/// The negotiated addressing: what the first reply shows, else what the
/// adapter names; a bus that did not answer is told apart from one that is not
/// CAN.
pub open spec fn negotiated(first: Option<Seq<char>>, protocol: Option<Seq<char>>) -> Result<
    (Addressing, Option<Controller>),
    AddressingFail,
> {
    match sniffed_reply(first) {
        Some(d) => Ok(d),
        None => match protocol {
            Some(n) if addressing::addressing_of_protocol(n) is Some => Ok(
                (addressing::addressing_of_protocol(n)->0, None),
            ),
            _ => if link::text_status(first).no_response() {
                Err(AddressingFail::NoResponse)
            } else {
                Err(AddressingFail::NonCan)
            },
        },
    }
}

/// Negotiates the addressing from the reply to the first functional request
/// and, where that shows none, from the adapter's protocol number (`protocol`
/// is nothing where it was not asked for or not answered).
pub fn detect_addressing(first: Option<&str>, protocol: Option<&str>) -> (r: Result<
    (Addressing, Option<Controller>),
    AddressingFail,
>)
    ensures
        r == negotiated(text_of(first), text_of(protocol)),
{
    if let Some(d) = sniff_reply(first) {
        return Ok(d);
    }
    if let Some(n) = protocol {
        if let Some(a) = Addressing::from_atdpn(n) {
            return Ok((a, None));
        }
    }
    if link::classify_text(first).is_no_response() {
        Err(AddressingFail::NoResponse)
    } else {
        Err(AddressingFail::NonCan)
    }
}

/// The facts after a negotiation: the addressing is taken over, and the
/// engine controller where one was learned.
pub fn learn_addressing(
    facts: link::AdapterFacts,
    found: (Addressing, Option<Controller>),
) -> (r: link::AdapterFacts)
    ensures
        r == (link::AdapterFacts {
            addressing: found.0,
            primary_ecu: if found.1 is Some {
                found.1
            } else {
                facts.primary_ecu
            },
            ..facts
        }),
{
    let mut f = facts;
    f.addressing = found.0;
    if found.1.is_some() {
        f.primary_ecu = found.1;
    }
    f
}

// ---- laws ----

/// A group of one pid is that pid on the wire.
pub proof fn single_pid_is_itself(pid: Seq<char>)
    ensures
        wire_of(seq![seq![pid]]) == pid,
{
    let w = segment_wires(seq![seq![pid]]);
    assert(w.len() == 1);
    assert(w[0] == pid);
}

/// Splitting at pipes gives back the parts that were joined with pipes, as many
/// and in the same order.
pub proof fn pipes_mirror(parts: Seq<Seq<char>>)
    requires
        parts.len() > 0,
        forall|i: int| 0 <= i < parts.len() ==> !(#[trigger] parts[i]).contains('|'),
    ensures
        text::pieces(text::join(parts, "|"@), text::Blank::One('|')) == parts,
    decreases parts.len(),
{
    reveal_strlit("|");
    let k = text::Blank::One('|');
    let last = parts.last();
    assert(last == parts[parts.len() - 1]);
    if parts.len() == 1 {
        lemma_no_pipe(Seq::empty(), last);
        assert(Seq::<char>::empty() + last =~= last);
        assert(text::pieces(Seq::<char>::empty(), k) == seq![Seq::<char>::empty()]);
        assert(parts =~= seq![last]);
        let base = seq![Seq::<char>::empty()];
        assert(base.drop_last() =~= Seq::<Seq<char>>::empty());
        assert(base.last() + last =~= last);
        assert(base.drop_last().push(base.last() + last) =~= seq![last]);
    } else {
        let head = parts.drop_last();
        assert forall|i: int| 0 <= i < head.len() implies !(#[trigger] head[i]).contains('|') by {
            assert(head[i] == parts[i]);
        }
        pipes_mirror(head);
        let j = text::join(head, "|"@);
        let with = j + "|"@;
        assert(with =~= j.push('|'));
        assert(with.drop_last() =~= j);
        assert(text::pieces(with, k) == head.push(Seq::<char>::empty()));
        lemma_no_pipe(with, last);
        let p = head.push(Seq::<char>::empty());
        assert(p.drop_last() =~= head);
        assert(p.last() + last =~= last);
        assert(parts =~= head.push(last));
    }
}

/// A split reply joined with pipes splits into the same segments: there is one
/// segment more than there are pipes, none holds a pipe, and each keeps its
/// position.
pub proof fn splitting_the_joined_segments(blob: Seq<char>)
    ensures
        piped(blob).len() == blob.to_multiset().count('|') + 1,
        forall|i: int| 0 <= i < piped(blob).len() ==> !(#[trigger] piped(blob)[i]).contains('|'),
        text::pieces(text::join(piped(blob), "|"@), text::Blank::One('|')) == piped(blob),
        piped(text::join(piped(blob), "|"@)) == piped(blob),
{
    let p = text::pieces(blob, text::Blank::One('|'));
    let t = piped(blob);
    text::pieces_hold_no_separator(blob, '|');
    assert forall|i: int| 0 <= i < t.len() implies !(#[trigger] t[i]).contains('|') && text::trim(
        t[i],
    ) == t[i] by {
        assert(t[i] == text::trim(p[i]));
        text::trimming_settles(p[i], text::Blank::White, '|');
    }
    pipes_mirror(t);
    assert(piped(text::join(t, "|"@)) =~= t);
}

/// Text without a pipe extends the last piece.
proof fn lemma_no_pipe(s: Seq<char>, more: Seq<char>)
    requires
        !more.contains('|'),
    ensures
        text::pieces(s + more, text::Blank::One('|')) == ({
            let p = text::pieces(s, text::Blank::One('|'));
            p.drop_last().push(p.last() + more)
        }),
    decreases more.len(),
{
    let k = text::Blank::One('|');
    let p = text::pieces(s, k);
    text::lemma_pieces_len(s, k);
    if more.len() == 0 {
        assert(s + more =~= s);
        assert(p.last() + more =~= p.last());
        assert(p.drop_last().push(p.last()) =~= p);
    } else {
        let m = more.drop_last();
        assert(more.contains(more.last())) by {
            assert(more[more.len() - 1] == more.last());
        }
        assert(!m.contains('|')) by {
            if m.contains('|') {
                let i = choose|i: int| 0 <= i < m.len() && m[i] == '|';
                assert(more[i] == '|');
            }
        }
        lemma_no_pipe(s, m);
        assert((s + more).drop_last() =~= s + m);
        assert((s + more).last() == more.last());
        let q = p.drop_last().push(p.last() + m);
        assert(q.drop_last() =~= p.drop_last());
        assert(q.last().push(more.last()) =~= p.last() + more);
    }
}

/// The members of a chunk that share a two-character mode follow each other
/// without it: two members give the mode, then both remainders.
pub proof fn chunk_of_two(mode: Seq<char>, a: Seq<char>, b: Seq<char>)
    requires
        mode.len() == 2,
        (mode[0] as u32) < 0x80,
        (mode[1] as u32) < 0x80,
    ensures
        chunk_wire(seq![mode + a, mode + b]) == mode + a + b,
{
    let m = seq![mode + a, mode + b];
    let p = mode + a;
    assert(p[0] == mode[0] && p[1] == mode[1]);
    assert(p.take(2) =~= mode);
    assert((mode + b).take(2) =~= mode);
    assert((mode + a).skip(2) =~= a);
    assert((mode + b).skip(2) =~= b);
    assert(m.drop_last() =~= seq![mode + a]);
    assert(seq![mode + a].drop_last() =~= Seq::<Seq<char>>::empty());
    reveal_with_fuel(suffixes, 3);
    assert(suffixes(m, mode) =~= a + b);
    assert(mode + (a + b) =~= mode + a + b);
}

/// A handshake claims batched commands only where both probes were
/// acknowledged; a refusal ends it at once.
pub proof fn pipes_need_both_probes(
    init: Seq<Seq<char>>,
    pipe_enabled: bool,
    phase: ConnectPhase,
    event: ConnectEvent,
)
    requires
        connect_step(init, pipe_enabled, phase, event).1 == ConnectActionView::Done(true),
    ensures
        phase == ConnectPhase::SettingPipeFormat,
        event matches ConnectEvent::Ran(o) && is_acked(o),
{
}

/// The phase in which the output format is set is reached only from an
/// acknowledged probe, and only where probing was asked for.
pub proof fn format_follows_an_acknowledged_probe(
    init: Seq<Seq<char>>,
    pipe_enabled: bool,
    phase: ConnectPhase,
    event: ConnectEvent,
)
    requires
        connect_step(init, pipe_enabled, phase, event).0 == ConnectPhase::SettingPipeFormat,
    ensures
        phase == ConnectPhase::ProbingPipe,
        event matches ConnectEvent::Ran(o) && is_acked(o),
{
}

/// A line of digits and spaces that neither begins nor ends with a space is
/// bare, also behind a prompt, and says no word.
proof fn lemma_bare_digits(line: Seq<char>)
    requires
        line.len() > 0,
        text::is_hex_digit(line[0]),
        text::is_hex_digit(line.last()),
        forall|i: int| 0 <= i < line.len() ==> text::is_hex_digit(#[trigger] line[i]) || line[i] == ' ',
    ensures
        bare_line(line) == line,
        bare_line(seq!['>'] + line) == line,
        !text::contains(text::upper(line), "STOPPED"@),
{
    let k = text::Blank::White;
    let gt = text::Blank::One('>');
    let glued = seq!['>'] + line;
    assert(text::trim(line) == line);
    assert(text::trim_start(line, gt) == line);
    assert(glued.last() == line.last());
    assert(text::trim(glued) == glued);
    assert(glued.skip(1) =~= line);
    assert(text::trim_start(glued, gt) == text::trim_start(line, gt));
    let u = text::upper(line);
    assert(text::all_ascii(line));
    reveal_strlit("STOPPED");
    if text::contains(u, "STOPPED"@) {
        let i = choose|i: int| text::holds_at(u, "STOPPED"@, i);
        assert(u.subrange(i, i + 7)[0] == u[i]);
        assert("STOPPED"@[0] == 'S');
        assert(text::is_hex_digit(line[i]) || line[i] == ' ');
    }
}

proof fn lemma_rendered_chars(f: RxView)
    requires
        f.data.len() > 0,
    ensures
        ({
            let line = framing::rendered(f);
            &&& line.len() > 0
            &&& text::is_hex_digit(line[0])
            &&& text::is_hex_digit(line.last())
            &&& forall|i: int|
                0 <= i < line.len() ==> text::is_hex_digit(#[trigger] line[i]) || line[i] == ' '
        }),
{
    let t = framing::id_tokens(f.id);
    let head = text::join(t, " "@);
    lemma_id_chars(f.id);
    lemma_spaced_chars(f.data);
    let line = framing::rendered(f);
    assert(line.last() == framing::spaced_hex(f.data).last());
    assert forall|i: int| 0 <= i < line.len() implies text::is_hex_digit(#[trigger] line[i])
        || line[i] == ' ' by {
        if i < head.len() {
            assert(line[i] == head[i]);
        } else {
            assert(line[i] == framing::spaced_hex(f.data)[i - head.len()]);
        }
    }
}

proof fn lemma_id_chars(id: u32)
    ensures
        ({
            let head = text::join(framing::id_tokens(id), " "@);
            &&& head.len() > 0
            &&& text::is_hex_digit(head[0])
            &&& forall|i: int|
                0 <= i < head.len() ==> text::is_hex_digit(#[trigger] head[i]) || head[i] == ' '
        }),
{
    let t = framing::id_tokens(id);
    let head = text::join(t, " "@);
    reveal_strlit(" ");
    reveal_with_fuel(text::join, 5);
    if id > 0x7FF {
        let b = bytes::be_bytes(id);
        text::lemma_hex_padded(b[0] as nat, 2);
        text::lemma_hex_padded(b[1] as nat, 2);
        text::lemma_hex_padded(b[2] as nat, 2);
        text::lemma_hex_padded(b[3] as nat, 2);
        let one = text::join(t.drop_last().drop_last().drop_last(), " "@);
        let two = text::join(t.drop_last().drop_last(), " "@);
        let three = text::join(t.drop_last(), " "@);
        assert(one =~= t[0]);
        assert(two =~= t[0] + " "@ + t[1]);
        assert(three =~= t[0] + " "@ + t[1] + " "@ + t[2]);
        assert(head =~= t[0] + " "@ + t[1] + " "@ + t[2] + " "@ + t[3]);
    } else {
        text::lemma_hex_padded(id as nat, 3);
        assert(head =~= t[0]);
    }
}

proof fn lemma_spaced_chars(data: Seq<u8>)
    ensures
        ({
            let s = framing::spaced_hex(data);
            &&& data.len() > 0 ==> s.len() > 0 && text::is_hex_digit(s.last())
            &&& forall|i: int|
                0 <= i < s.len() ==> text::is_hex_digit(#[trigger] s[i]) || s[i] == ' '
        }),
    decreases data.len(),
{
    if data.len() > 0 {
        lemma_spaced_chars(data.drop_last());
        let h = text::hex_padded(data.last() as nat, 2);
        text::lemma_hex_padded(data.last() as nat, 2);
        let s = framing::spaced_hex(data);
        let front = framing::spaced_hex(data.drop_last()).push(' ');
        assert(s == front + h);
        lemma_widths(data.last() as nat);
        assert(s.last() == h[1]);
        assert forall|i: int| 0 <= i < s.len() implies text::is_hex_digit(#[trigger] s[i])
            || s[i] == ' ' by {
            if i >= front.len() {
                assert(s[i] == h[i - front.len()]);
            } else if i < front.len() - 1 {
                assert(s[i] == framing::spaced_hex(data.drop_last())[i]);
            }
        }
    }
}

/// A frame that the adapter shows while monitoring is read as that frame: its
/// id in the width of the bus, its bytes, and the time of arrival, with or
/// without a prompt glued to the line.
#[verifier::rlimit(40)]
pub proof fn a_shown_frame_is_read(f: RxView, a: Addressing, now_us: u64)
    requires
        f.data.len() > 0,
        a is Can11 ==> f.id <= 0x7FF,
        a is Can29 ==> f.id > 0x7FF,
    ensures
        ({
            let line = framing::rendered(f);
            let read = Some(
                LinkEventView::Frame(
                    FrameValue {
                        id: text::hex_padded(
                            f.id as nat,
                            if a is Can11 {
                                3
                            } else {
                                8
                            },
                        ),
                        extended: a is Can29,
                        ts_us: now_us,
                        data: f.data,
                        raw: line,
                    },
                ),
            );
            &&& monitor_event(line, a, now_us) == read
            &&& monitor_event(seq!['>'] + line, a, now_us) == read
        }),
{
    let line = framing::rendered(f);
    lemma_rendered_chars(f);
    lemma_bare_digits(line);
    framing::a_rendered_frame_is_read_back(f);
    let t = text::words(line);
    let ids = framing::id_tokens(f.id);
    let n = ids.len() as int;
    assert forall|i: int| n <= i < t.len() implies is_byte(#[trigger] t[i]) && text::hex_number(
        t[i],
    ) == f.data[i - n] by {
        text::lemma_hex_padded(f.data[i - n] as nat, 2);
        lemma_widths(f.data[i - n] as nat);
    }
    assert(t.len() == n + f.data.len());
    if a is Can11 {
        text::lemma_hex_padded(f.id as nat, 3);
        lemma_widths(f.id as nat);
        assert(t[0] == text::hex_padded(f.id as nat, 3));
        lemma_written_is_upper(f.id as nat, 3);
        assert(line_header(a, t) == Some((text::hex_padded(f.id as nat, 3), false, 1int)));
    } else {
        let b = bytes::be_bytes(f.id);
        assert forall|i: int| 0 <= i < 4 implies is_byte(#[trigger] t[i]) && t[i]
            == text::hex_padded(b[i] as nat, 2) by {
            text::lemma_hex_padded(b[i] as nat, 2);
            lemma_widths(b[i] as nat);
            assert(t[i] == ids[i]);
        }
        lemma_eight_digits(f.id);
        lemma_written_is_upper(f.id as nat, 8);
        assert(line_header(a, t) == Some((text::hex_padded(f.id as nat, 8), true, 4int)));
    }
    assert(bytes_from(t, n) =~= f.data);
}

/// Four bytes one after the other are the number in eight digits.
#[verifier::rlimit(60)]
#[verifier::spinoff_prover]
proof fn lemma_eight_digits(id: u32)
    ensures
        ({
            let b = bytes::be_bytes(id);
            text::hex_padded(b[0] as nat, 2) + text::hex_padded(b[1] as nat, 2) + text::hex_padded(
                b[2] as nat,
                2,
            ) + text::hex_padded(b[3] as nat, 2) == text::hex_padded(id as nat, 8)
        }),
{
    let b = bytes::be_bytes(id);
    let one = b[0] as nat;
    let two = one * 256 + b[1] as nat;
    let three = two * 256 + b[2] as nat;
    text::lemma_hex_behind(one, 2, b[1] as nat);
    text::lemma_hex_behind(two, 4, b[2] as nat);
    text::lemma_hex_behind(three, 6, b[3] as nat);
    bytes::a_number_is_its_four_bytes(id);
    assert(id == three * 256 + b[3]);
}

/// How many digits small numbers take.
proof fn lemma_widths(n: nat)
    ensures
        n < 0x100 ==> text::hex_padded(n, 2).len() == 2,
        n < 0x1000 ==> text::hex_padded(n, 3).len() == 3,
{
    reveal_with_fuel(text::hex_padded, 5);
    if n < 0x100 {
        assert(n / 16 / 16 == 0);
    }
    if n < 0x1000 {
        assert(n / 16 / 16 / 16 == 0);
    }
}

/// Written digits hold no small letter.
proof fn lemma_written_is_upper(n: nat, width: nat)
    ensures
        text::upper(text::hex_padded(n, width)) == text::hex_padded(n, width),
    decreases n + width,
{
    let s = text::hex_padded(n, width);
    text::lemma_hex_padded(n, width);
    assert(text::all_ascii(s)) by {
        assert forall|i: int| 0 <= i < s.len() implies (#[trigger] s[i] as u32) < 128 by {
            assert(text::is_hex_digit(s[i]));
        }
    }
    if n > 0 || width > 0 {
        let w = if width > 0 {
            (width - 1) as nat
        } else {
            0
        };
        let h = text::hex_padded(n / 16, w);
        lemma_written_is_upper(n / 16, w);
        text::lemma_hex_padded(n / 16, w);
        assert(s == h.push(text::digit_char(n % 16)));
        assert(text::all_ascii(h)) by {
            assert forall|i: int| 0 <= i < h.len() implies (#[trigger] h[i] as u32) < 128 by {
                assert(text::is_hex_digit(h[i]));
            }
        }
        assert forall|i: int| 0 <= i < s.len() implies text::ascii_up(#[trigger] s[i]) == s[i] by {
            if i < h.len() {
                assert(text::upper(h)[i] == text::ascii_up(h[i]));
                assert(s[i] == h[i]);
            }
        }
    }
    assert(text::upper(s) =~= s);
}

/// A line in which the adapter says that it stopped ends the stream, whatever
/// stands around the word; a line that is blank, or a prompt alone, says
/// nothing; and what is no frame is handed on as it reads.
pub proof fn what_is_no_frame(line: Seq<char>, a: Addressing, now_us: u64)
    ensures
        ({
            let e = monitor_event(line, a, now_us);
            let bare = bare_line(line);
            &&& e is None <==> bare.len() == 0
            &&& e == Some(LinkEventView::Stopped) <==> bare.len() > 0 && text::contains(
                text::upper(bare),
                "STOPPED"@,
            )
            &&& e is Some && e->0 is Text ==> e->0->Text_0 == bare
            &&& e is Some && e->0 is Frame ==> e->0->Frame_0.data.len() > 0 && e->0->Frame_0.ts_us
                == now_us && e->0->Frame_0.raw == bare && (e->0->Frame_0.extended
                <==> e->0->Frame_0.id.len() == 8)
        }),
{
    let bare = bare_line(line);
    let t = text::words(bare);
    if line_header(a, t) is Some {
        if a is Can29 && t.len() >= 4 && all_bytes(t, 0, 4) {
            assert(is_byte(t[0]) && is_byte(t[1]) && is_byte(t[2]) && is_byte(t[3]));
            lemma_upper_len(t[0] + t[1] + t[2] + t[3]);
        } else {
            lemma_upper_len(t[0]);
        }
    }
}

proof fn lemma_upper_len(s: Seq<char>)
    requires
        text::all_hex(s),
    ensures
        text::upper(s).len() == s.len(),
{
    assert(text::all_ascii(s)) by {
        assert forall|i: int| 0 <= i < s.len() implies (#[trigger] s[i] as u32) < 128 by {
            assert(text::is_hex_digit(s[i]));
        }
    }
}

/// The segments of a piped reply answer the wires of a piped command one for
/// one, by position, as far as both go.
pub proof fn replies_answer_by_position(wires: Seq<Seq<char>>, texts: Seq<Seq<char>>, i: int)
    requires
        wires.len() > 1,
        texts.len() > 0,
        forall|j: int| 0 <= j < wires.len() ==> !(#[trigger] wires[j]).contains('|'),
        forall|j: int| 0 <= j < texts.len() ==> !(#[trigger] texts[j]).contains('|'),
        0 <= i < wires.len(),
        i < texts.len(),
    ensures
        ({
            let pairs = reply_pairs(text::join(wires, "|"@), text::join(texts, "|"@));
            &&& pairs.len() <= wires.len() && pairs.len() <= texts.len()
            &&& pairs.len() == wires.len() || pairs.len() == texts.len()
            &&& pairs[i].0 == wires[i]
            &&& pairs[i].1 == text::trim(texts[i])
        }),
{
    let command = text::join(wires, "|"@);
    pipes_mirror(wires);
    pipes_mirror(texts);
    reveal_strlit("|");
    assert(command.contains('|')) by {
        let head = text::join(wires.drop_last(), "|"@);
        assert(command =~= head + "|"@ + wires.last());
        assert(command[head.len() as int] == '|');
    }
}

/// An error token on any line vetoes the whole reply, whatever stands before
/// and after it; a reply of digits alone is never vetoed.
pub proof fn an_error_token_vetoes<P, F: Fn(&str, &str, Bus) -> (Vec<Payload>, Option<P>)>(
    frame: F,
    wire: Seq<char>,
    before: Seq<char>,
    after: Seq<char>,
    digits: Seq<char>,
    bus: Bus,
    r: LinkReply<P>,
)
    requires
        link::is_data_text(digits),
    ensures
        decoded(frame, wire, before + "NO DATA"@ + after, bus, r) ==> r.faulted,
        decoded(frame, wire, before + "ERROR"@ + after, bus, r) ==> r.faulted,
        decoded(frame, wire, digits, bus, r) ==> !r.faulted && r.raw@ == digits,
{
    let n = before + "NO DATA"@ + after;
    let e = before + "ERROR"@ + after;
    let b = before.len() as int;
    assert(n.subrange(b, b + "NO DATA"@.len()) =~= "NO DATA"@);
    assert(text::holds_at(n, "NO DATA"@, b));
    assert(e.subrange(b, b + "ERROR"@.len()) =~= "ERROR"@);
    assert(text::holds_at(e, "ERROR"@, b));
    reveal_strlit("NO DATA");
    reveal_strlit("ERROR");
    if text::contains(digits, "NO DATA"@) {
        let i = choose|i: int| text::holds_at(digits, "NO DATA"@, i);
        assert(digits.subrange(i, i + 7)[0] == digits[i]);
        assert("NO DATA"@[0] == 'N');
        assert(link::is_data_char(digits[i]));
    }
    if text::contains(digits, "ERROR"@) {
        let i = choose|i: int| text::holds_at(digits, "ERROR"@, i);
        assert(digits.subrange(i, i + 5)[1] == digits[i + 1]);
        assert("ERROR"@[1] == 'R');
        assert(link::is_data_char(digits[i + 1]));
    }
}

/// A command is acknowledged where its reply holds `OK` in any case, whatever
/// stands around it; digits are no acknowledgement, nor is a failure.
pub proof fn what_acknowledges(before: Seq<char>, after: Seq<char>, reply: String, code: String)
    requires
        text::all_ascii(before),
        text::all_ascii(after),
    ensures
        reply@ == before + "OK"@ + after || reply@ == before + "ok"@ + after ==> is_acked(
            Some(Ok(reply)),
        ),
        link::is_data_text(reply@) ==> !is_acked(Some(Ok(reply))),
        !is_acked(Some(Err(code))),
        !is_acked(None),
{
    reveal_strlit("OK");
    reveal_strlit("ok");
    let s = reply@;
    let b = before.len() as int;
    assert("OK"@[0] == 'O' && "OK"@[1] == 'K' && "ok"@[0] == 'o' && "ok"@[1] == 'k');
    if s == before + "OK"@ + after || s == before + "ok"@ + after {
        assert forall|i: int| 0 <= i < s.len() implies (#[trigger] s[i] as u32) < 128 by {
            if i < b {
                assert(s[i] == before[i]);
            } else if i >= b + 2 {
                assert(s[i] == after[i - b - 2]);
            }
        }
        assert(text::all_ascii(s));
        assert(text::upper(s).subrange(b, b + 2) =~= "OK"@);
        assert(text::holds_at(text::upper(s), "OK"@, b));
    }
    if link::is_data_text(s) {
        assert forall|i: int| 0 <= i < s.len() implies (#[trigger] s[i] as u32) < 128 by {
            assert(link::is_data_char(s[i]));
        }
        assert(text::all_ascii(s));
        if text::contains(text::upper(s), "OK"@) {
            let i = choose|i: int| text::holds_at(text::upper(s), "OK"@, i);
            assert(text::upper(s).subrange(i, i + 2)[0] == text::upper(s)[i]);
            assert(link::is_data_char(s[i]));
        }
    }
}

/// The handshake takes its steps in order: every init command once, one after
/// the other; ten seconds for each; the echo switch again only where it was
/// sent and not acknowledged; then the clearing, and the probe where it is asked
/// for. A refusal or an unfinished step ends it.
pub proof fn the_handshake_is_in_order(
    init: Seq<Seq<char>>,
    pipe_enabled: bool,
    phase: ConnectPhase,
    event: ConnectEvent,
)
    requires
        answers(phase, event),
        phase is Queueing ==> phase->0 < init.len(),
        init.len() < usize::MAX,
    ensures
        ({
            let (next, act) = connect_step(init, pipe_enabled, phase, event);
            &&& act is Queue ==> phase is Queueing && act->Queue_0 == phase->0 + 1 && next
                == ConnectPhase::Queueing((phase->0 + 1) as usize) && act->Queue_0 < init.len()
            &&& act is Drain <==> phase is Queueing && phase->0 + 1 == init.len() && event == (
            ConnectEvent::Queued(true))
            &&& act is Drain ==> act->Drain_0 == 10 * init.len() && next is Draining
            &&& act is Refused <==> event == ConnectEvent::Queued(false)
            &&& act is Refused ==> act->Refused_0 == init[phase->0 as int]
            &&& act == ConnectActionView::Run("ATE0"@) <==> phase is Draining && event->idle
                && has_echo_switch(init) && !is_acked(event->echo)
            &&& act == ConnectActionView::Run("STPPMC"@) <==> (phase is Draining && event->idle && (
            !has_echo_switch(init) || is_acked(event->echo))) || (phase is RetryingEcho
                && event->Ran_0 is Some)
            &&& act == ConnectActionView::Run("STBC 1"@) <==> phase is Purging && pipe_enabled
            &&& act == ConnectActionView::Run("STBCOF 0"@) <==> phase is ProbingPipe && is_acked(
                event->Ran_0,
            )
            &&& act is TimedOut <==> (phase is Draining && !event->idle) || (phase is RetryingEcho
                && event->Ran_0 is None)
            &&& act is Done || act is Refused || act is TimedOut <==> next is Finished
        }),
{
    reveal_strlit("ATE0");
    reveal_strlit("STPPMC");
    reveal_strlit("STBC 1");
    reveal_strlit("STBCOF 0");
    assert("ATE0"@.len() == 4 && "STPPMC"@.len() == 6 && "STBC 1"@.len() == 6 && "STBCOF 0"@.len()
        == 8);
    assert("STPPMC"@[2] == 'P' && "STBC 1"@[2] == 'B');
}

/// The switch is known in any case of its letters, anywhere among the init
/// commands.
pub proof fn an_echo_switch_is_known(init: Seq<Seq<char>>, i: int)
    requires
        0 <= i < init.len(),
    ensures
        init[i] == "ATE0"@ || init[i] == "ate0"@ ==> has_echo_switch(init),
        has_echo_switch(init) ==> exists|j: int|
            0 <= j < init.len() && (#[trigger] init[j]).len() == 4 && text::digit_value(init[j][3])
                == 0 && init[j][3] == '0',
{
    reveal_strlit("ATE0");
    reveal_strlit("ate0");
    assert(text::ascii_upper("ATE0"@) =~= "ATE0"@);
    assert(text::ascii_upper("ate0"@) =~= "ATE0"@);
    if has_echo_switch(init) {
        let j = choose|j: int|
            0 <= j < init.len() && text::ascii_upper(#[trigger] init[j]) == "ATE0"@;
        assert(text::ascii_upper(init[j])[3] == text::ascii_up(init[j][3]));
        assert("ATE0"@[3] == '0');
        assert(text::ascii_upper(init[j]).len() == 4);
    }
}

/// The first reply decides on the addressing; the adapter's own word counts
/// only where the reply shows none; and a bus that gave an answer without a
/// header is not a silent one.
pub proof fn how_the_bus_is_found(first: Option<Seq<char>>, protocol: Option<Seq<char>>)
    ensures
        sniffed_reply(first) is Some ==> negotiated(first, protocol) == Ok::<
            (Addressing, Option<Controller>),
            AddressingFail,
        >(sniffed_reply(first)->0),
        first is None ==> sniffed_reply(first) is None && negotiated(first, None) == Err::<
            (Addressing, Option<Controller>),
            AddressingFail,
        >(AddressingFail::NoResponse),
        sniffed_reply(first) is None && protocol is Some && addressing::addressing_of_protocol(
            protocol->0,
        ) is Some ==> negotiated(first, protocol) is Ok && (negotiated(first, protocol)->Ok_0).0
            == addressing::addressing_of_protocol(protocol->0)->0 && (negotiated(
            first,
            protocol,
        )->Ok_0).1 is None,
        negotiated(first, protocol) == Err::<(Addressing, Option<Controller>), AddressingFail>(
            AddressingFail::NonCan,
        ) ==> first is Some && (link::text_status(first) is Data || link::text_status(
            first,
        ) is Chatter),
        negotiated(first, protocol) == Err::<(Addressing, Option<Controller>), AddressingFail>(
            AddressingFail::NoResponse,
        ) ==> !(link::text_status(first) is Data || link::text_status(first) is Chatter),
{
}

/// The key of a shown frame is its id in the width of the bus.
pub proof fn a_shown_frame_has_its_key(f: RxView, a: Addressing)
    requires
        f.data.len() > 0,
        a is Can11 ==> f.id <= 0x7FF,
        a is Can29 ==> f.id > 0x7FF,
    ensures
        addressing::monitor_key(a, framing::rendered(f)) == Some(
            text::hex_padded(
                f.id as nat,
                if a is Can11 {
                    3
                } else {
                    8
                },
            ),
        ),
        addressing::monitor_key(a, Seq::empty()) is None,
{
    framing::a_rendered_frame_is_read_back(f);
    let t = text::words(framing::rendered(f));
    let ids = framing::id_tokens(f.id);
    if a is Can11 {
        assert(t[0] == text::hex_padded(f.id as nat, 3));
        lemma_written_is_upper(f.id as nat, 3);
    } else {
        let b = bytes::be_bytes(f.id);
        assert forall|i: int| 0 <= i < 4 implies (#[trigger] t[i]).len() == 2 && text::all_hex(
            t[i],
        ) && t[i] == text::hex_padded(b[i] as nat, 2) by {
            text::lemma_hex_padded(b[i] as nat, 2);
            lemma_widths(b[i] as nat);
            assert(t[i] == ids[i]);
        }
        lemma_eight_digits(f.id);
        lemma_written_is_upper(f.id as nat, 8);
    }
    let none = Seq::<Seq<char>>::empty();
    text::spaced_words_are_read_back(none);
    assert(text::join(none, " "@) =~= Seq::<char>::empty());
}

} // verus!
