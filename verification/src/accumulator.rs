//! Response accumulator: the place where the bytes of any transport become
//! adapter text or binary frames.
//!
//! - **Prompt** (request and response): buffer until the `>` prompt and deliver
//!   everything before the last `>` as one response. Search lines stay in the
//!   text; a prompt with nothing before it is reported and not delivered.
//! - **Line** (monitor): lines end at CR or LF, the unfinished tail is carried,
//!   blank lines and a bare `>` are skipped.
//! - **Dvi**: checksum-valid binary frames.
//!
//! Switching modes clears the buffer.
use crate::bytes;
use crate::link::dvi::codec;
use crate::text;
use vstd::prelude::*;

verus! {

/// What the accumulator produces from a chunk of bytes.
#[derive(Debug, Clone, PartialEq, Eq)]
pub enum AccEvent {
    /// Prompt mode: one complete response (text before the last `>`).
    Response(String),
    /// Line mode: one monitor line.
    Line(String),
    /// Prompt mode: a prompt arrived with nothing before it. Nothing completes.
    Dropped(String),
    /// Binary mode: one complete, checksum-valid frame.
    Dvi(codec::DviFrame),
}

/// How bytes are cut into events.
#[derive(Debug, Clone, Copy, PartialEq, Eq, Structural)]
pub enum Mode {
    Prompt,
    Line,
    Dvi,
}

/// An event as a mathematical value.
#[verifier::ext_equal]
pub enum EventView {
    Response(Seq<char>),
    Line(Seq<char>),
    Dropped(Seq<char>),
    Dvi(codec::FrameView),
}

impl View for AccEvent {
    type V = EventView;

    open spec fn view(&self) -> EventView {
        match *self {
            AccEvent::Response(s) => EventView::Response(s@),
            AccEvent::Line(s) => EventView::Line(s@),
            AccEvent::Dropped(s) => EventView::Dropped(s@),
            AccEvent::Dvi(f) => EventView::Dvi(f@),
        }
    }
}

/// The views of a sequence of events.
pub open spec fn event_views(v: Seq<AccEvent>) -> Seq<EventView> {
    Seq::new(v.len(), |i: int| v[i]@)
}

/// Adapter bytes as text: ASCII stays, any other byte reads as `?`, so that a
/// corrupt byte cannot hold up a response.
pub open spec fn ascii_text(s: Seq<u8>) -> Seq<char> {
    Seq::new(
        s.len(),
        |i: int|
            if s[i] < 128 {
                s[i] as char
            } else {
                '?'
            },
    )
}

/// Where the last `>` stands; -1 where there is none.
pub open spec fn last_prompt(s: Seq<u8>) -> int
    decreases s.len(),
{
    if s.len() == 0 {
        -1
    } else if s.last() == 0x3E {
        s.len() - 1
    } else {
        last_prompt(s.drop_last())
    }
}

/// What the buffered bytes deliver in prompt mode, and what stays buffered.
pub open spec fn prompt_events(buf: Seq<u8>) -> (Seq<EventView>, Seq<u8>) {
    let p = last_prompt(buf);
    if p < 0 {
        (Seq::empty(), buf)
    } else {
        let response = text::trim(ascii_text(buf.take(p)));
        if response.len() == 0 {
            (seq![EventView::Dropped("Empty response — stale > prompt"@)], Seq::empty())
        } else {
            (seq![EventView::Response(response)], Seq::empty())
        }
    }
}

/// Whether a byte ends a line.
pub open spec fn ends_line(b: u8) -> bool {
    b == 13 || b == 10
}

/// What a line made of these bytes delivers: nothing where it is blank or a
/// bare prompt.
pub open spec fn line_event(s: Seq<u8>) -> Seq<EventView> {
    let line = text::trim_by(ascii_text(s), text::Blank::SpaceTab);
    if line.len() == 0 || line == ">"@ {
        Seq::empty()
    } else {
        seq![EventView::Line(line)]
    }
}

/// What the buffered bytes deliver in line mode, and the unfinished line that
/// stays: every line end closes the line made of the bytes since the last one.
pub open spec fn line_events(buf: Seq<u8>) -> (Seq<EventView>, Seq<u8>)
    decreases buf.len(),
{
    if buf.len() == 0 {
        (Seq::empty(), Seq::empty())
    } else {
        let before = line_events(buf.drop_last());
        if ends_line(buf.last()) {
            (before.0 + line_event(before.1), Seq::empty())
        } else {
            (before.0, before.1.push(buf.last()))
        }
    }
}

/// Bytes as text: ASCII stays, any other byte reads as `?`.
fn to_text(v: &[u8], to: usize) -> (r: String)
    requires
        to <= v@.len(),
    ensures
        r@ == ascii_text(v@.take(to as int)),
{
    let mut out = String::new();
    let mut i: usize = 0;
    while i < to
        invariant
            i <= to <= v@.len(),
            out@ == ascii_text(v@.take(i as int)),
        decreases to - i,
    {
        let b = v[i];
        let c = if b < 128 {
            b as char
        } else {
            '?'
        };
        let ghost before = out@;
        out.push(c);
        assert(out@ =~= ascii_text(v@.take(i + 1)));
        i += 1;
    }
    out
}

/// What buffered bytes deliver in prompt mode, and the bytes that stay.
fn drain_prompt(buffer: Vec<u8>) -> (r: (Vec<AccEvent>, Vec<u8>))
    ensures
        (event_views(r.0@), r.1@) == prompt_events(buffer@),
{
    let ghost buf = buffer@;
    let mut n: usize = buffer.len();
    assert(buf.take(n as int) =~= buf);
    while n > 0 && buffer[n - 1] != 0x3E
        invariant
            n <= buffer@.len(),
            buffer@ == buf,
            last_prompt(buf) == last_prompt(buf.take(n as int)),
        decreases n,
    {
        assert(buf.take(n as int).drop_last() =~= buf.take(n - 1));
        n -= 1;
    }
    let mut out: Vec<AccEvent> = Vec::new();
    if n == 0 {
        assert(event_views(out@) =~= Seq::<EventView>::empty());
        return (out, buffer);
    }
    let raw = to_text(buffer.as_slice(), n - 1);
    let response = text::trim_text(raw.as_str(), text::Blank::White);
    if response.as_str().is_empty() {
        out.push(AccEvent::Dropped("Empty response — stale > prompt".to_owned()));
    } else {
        out.push(AccEvent::Response(response));
    }
    assert(event_views(out@) =~= prompt_events(buf).0);
    let rest: Vec<u8> = Vec::new();
    assert(rest@ =~= Seq::<u8>::empty());
    (out, rest)
}

/// What buffered bytes deliver in line mode, and the unfinished line.
fn drain_lines(buffer: Vec<u8>) -> (r: (Vec<AccEvent>, Vec<u8>))
    ensures
        (event_views(r.0@), r.1@) == line_events(buffer@),
{
    let ghost buf = buffer@;
    let mut out: Vec<AccEvent> = Vec::new();
    let mut carry: Vec<u8> = Vec::new();
    let mut i: usize = 0;
    assert(event_views(out@) =~= Seq::<EventView>::empty());
    while i < buffer.len()
        invariant
            i <= buffer@.len(),
            buffer@ == buf,
            (event_views(out@), carry@) == line_events(buf.take(i as int)),
        decreases buffer@.len() - i,
    {
        assert(buf.take(i + 1).drop_last() =~= buf.take(i as int));
        let b = buffer[i];
        let ghost before = event_views(out@);
        if b == 13 || b == 10 {
            assert(carry@.take(carry@.len() as int) =~= carry@);
            let raw = to_text(carry.as_slice(), carry.len());
            let line = text::trim_text(raw.as_str(), text::Blank::SpaceTab);
            if !line.as_str().is_empty() && !text::same(line.as_str(), ">") {
                out.push(AccEvent::Line(line));
                assert(event_views(out@) =~= before + line_event(carry@));
            } else {
                assert(event_views(out@) =~= before + line_event(carry@));
            }
            carry = Vec::new();
            assert(carry@ =~= Seq::<u8>::empty());
        } else {
            carry.push(b);
        }
        i += 1;
    }
    assert(buf.take(i as int) =~= buf);
    (out, carry)
}

/// Accumulates adapter bytes until a complete response, line or binary frame.
/// Its type invariant: bytes wait in the buffer of the mode in force only.
pub struct ResponseAccumulator {
    buffer: Vec<u8>,
    mode: Mode,
    dvi: codec::FrameParser,
}

/// The accumulator as a mathematical value.
#[verifier::ext_equal]
pub struct AccView {
    pub buffered: Seq<u8>,
    pub mode: Mode,
    pub dvi_pending: Seq<u8>,
    pub dvi_timestamps: bool,
}

impl View for ResponseAccumulator {
    type V = AccView;

    open spec fn view(&self) -> AccView {
        AccView {
            buffered: self.buffered(),
            mode: self.spec_mode(),
            dvi_pending: self.dvi_pending(),
            dvi_timestamps: self.dvi_timestamps(),
        }
    }
}

/// Whether only the buffer of the mode in force holds bytes: no binary bytes
/// wait in a text mode, and no text waits in binary mode.
pub open spec fn one_buffer(a: AccView) -> bool {
    &&& a.mode != Mode::Dvi ==> a.dvi_pending.len() == 0
    &&& a.mode == Mode::Dvi ==> a.buffered.len() == 0
}

/// The accumulator in a mode, with nothing buffered.
pub open spec fn cleared(a: AccView, mode: Mode) -> AccView {
    AccView { buffered: Seq::empty(), mode, dvi_pending: Seq::empty(), ..a }
}

/// The events that a chunk completes, and the accumulator after it.
pub open spec fn fed(a: AccView, data: Seq<u8>) -> (Seq<EventView>, AccView) {
    match a.mode {
        Mode::Prompt => {
            let (e, rest) = prompt_events(a.buffered + data);
            (e, AccView { buffered: rest, ..a })
        },
        Mode::Line => {
            let (e, rest) = line_events(a.buffered + data);
            (e, AccView { buffered: rest, ..a })
        },
        Mode::Dvi => {
            let (f, rest) = codec::parse_stream(a.dvi_pending + data, a.dvi_timestamps);
            (f.map_values(|x| EventView::Dvi(x)), AccView { dvi_pending: rest, ..a })
        },
    }
}

impl ResponseAccumulator {
    /// Bytes wait in the buffer of the mode in force only.
    #[verifier::type_invariant]
    pub open spec fn keeps_one_buffer(self) -> bool {
        one_buffer(self@)
    }

    /// The text bytes that wait for more.
    pub closed spec fn buffered(&self) -> Seq<u8> {
        self.buffer@
    }

    /// The mode the bytes are read in.
    pub closed spec fn spec_mode(&self) -> Mode {
        self.mode
    }

    /// The binary bytes that wait for more.
    pub closed spec fn dvi_pending(&self) -> Seq<u8> {
        self.dvi.pending()
    }

    /// Whether binary receive frames carry a timestamp.
    pub closed spec fn dvi_timestamps(&self) -> bool {
        self.dvi.timestamps
    }

    /// An empty accumulator in prompt mode.
    pub fn new() -> (r: Self)
        ensures
            r.buffered() == Seq::<u8>::empty(),
            r.spec_mode() == Mode::Prompt,
            r.dvi_pending() == Seq::<u8>::empty(),
            !r.dvi_timestamps(),
    {
        ResponseAccumulator {
            buffer: Vec::new(),
            mode: Mode::Prompt,
            dvi: codec::FrameParser::new(),
        }
    }

    /// Binary mode: whether receive frames carry a microsecond timestamp.
    pub fn set_dvi_timestamps(&mut self, on: bool)
        ensures
            final(self).dvi_timestamps() == on,
            final(self).buffered() == old(self).buffered(),
            final(self).spec_mode() == old(self).spec_mode(),
            final(self).dvi_pending() == old(self).dvi_pending(),
    {
        proof {
            use_type_invariant(&*self);
        }
        self.dvi.timestamps = on;
    }

    /// The mode the bytes are read in.
    pub fn mode(&self) -> (r: Mode)
        ensures
            r == self.spec_mode(),
    {
        self.mode
    }

    /// Switches modes and clears any half-formed buffer, so that a command
    /// buffer never leaks into the monitor and the other way round.
    pub fn set_mode(&mut self, mode: Mode)
        ensures
            final(self).spec_mode() == mode,
            final(self).buffered() == Seq::<u8>::empty(),
            final(self).dvi_pending() == Seq::<u8>::empty(),
            final(self).dvi_timestamps() == old(self).dvi_timestamps(),
    {
        proof {
            use_type_invariant(&*self);
        }
        let timestamps = self.dvi.timestamps;
        self.buffer = Vec::new();
        self.dvi = codec::FrameParser { buf: Vec::new(), timestamps };
        self.mode = mode;
    }

    /// Feeds raw transport bytes; returns every event that the chunk
    /// completes, in order.
    pub fn feed_bytes(&mut self, data: &[u8]) -> (r: Vec<AccEvent>)
        ensures
            (event_views(r@), final(self)@) == fed(old(self)@, data@),
            final(self).spec_mode() == old(self).spec_mode(),
            final(self).dvi_timestamps() == old(self).dvi_timestamps(),
            old(self).spec_mode() == Mode::Prompt ==> (event_views(r@), final(self).buffered())
                == prompt_events(old(self).buffered() + data@),
            old(self).spec_mode() == Mode::Line ==> (event_views(r@), final(self).buffered())
                == line_events(old(self).buffered() + data@),
            old(self).spec_mode() != Mode::Dvi ==> final(self).dvi_pending() == Seq::<u8>::empty(),
            old(self).spec_mode() == Mode::Dvi ==> final(self).buffered() == Seq::<u8>::empty() && ({
                let parsed = codec::parse_stream(
                    old(self).dvi_pending() + data@,
                    old(self).dvi_timestamps(),
                );
                &&& event_views(r@) == parsed.0.map_values(|f| EventView::Dvi(f))
                &&& final(self).dvi_pending() == parsed.1
            }),
    {
        proof {
            use_type_invariant(&*self);
        }
        match self.mode {
            Mode::Dvi => {
                let mut parser = codec::FrameParser::new();
                std::mem::swap(&mut parser, &mut self.dvi);
                let frames = parser.feed(data);
                self.dvi = parser;
                let ghost all = codec::frame_views(frames@);
                let r = dvi_events(frames);
                assert(event_views(r@) =~= all.map_values(|f| EventView::Dvi(f)));
                r
            },
            Mode::Prompt => {
                let mut buffer: Vec<u8> = Vec::new();
                std::mem::swap(&mut buffer, &mut self.buffer);
                bytes::extend(&mut buffer, data);
                let (r, rest) = drain_prompt(buffer);
                self.buffer = rest;
                r
            },
            Mode::Line => {
                let mut buffer: Vec<u8> = Vec::new();
                std::mem::swap(&mut buffer, &mut self.buffer);
                bytes::extend(&mut buffer, data);
                let (r, rest) = drain_lines(buffer);
                self.buffer = rest;
                r
            },
        }
    }

    /// Forgets whatever is buffered.
    pub fn reset(&mut self)
        ensures
            final(self).buffered() == Seq::<u8>::empty(),
            final(self).dvi_pending() == Seq::<u8>::empty(),
            final(self).spec_mode() == old(self).spec_mode(),
            final(self).dvi_timestamps() == old(self).dvi_timestamps(),
    {
        proof {
            use_type_invariant(&*self);
        }
        let timestamps = self.dvi.timestamps;
        self.buffer = Vec::new();
        self.dvi = codec::FrameParser { buf: Vec::new(), timestamps };
    }

    /// Whether partial data is buffered: text that waits for its end, or the
    /// bytes of a frame that is not whole yet.
    pub fn has_pending(&self) -> (r: bool)
        ensures
            r == (self.buffered().len() > 0 || self.dvi_pending().len() > 0),
            self.spec_mode() != Mode::Dvi ==> r == (self.buffered().len() > 0),
            self.spec_mode() == Mode::Dvi ==> r == (self.dvi_pending().len() > 0),
    {
        proof {
            use_type_invariant(self);
        }
        self.buffer.len() > 0 || self.dvi.buf.len() > 0
    }

    /// Delivers whatever text is buffered, trimmed (a timeout gives up on the
    /// prompt).
    pub fn flush(&mut self) -> (r: Option<String>)
        ensures
            r is Some <==> old(self).buffered().len() > 0,
            r matches Some(s) ==> s@ == text::trim(ascii_text(old(self).buffered())),
            final(self).buffered() == Seq::<u8>::empty(),
            final(self).spec_mode() == old(self).spec_mode(),
            final(self).dvi_pending() == old(self).dvi_pending(),
            final(self).dvi_timestamps() == old(self).dvi_timestamps(),
            old(self).spec_mode() == Mode::Dvi ==> r is None,
    {
        proof {
            use_type_invariant(&*self);
        }
        if self.buffer.len() == 0 {
            assert(self.buffer@ =~= Seq::<u8>::empty());
            return None;
        }
        assert(self.buffer@.take(self.buffer@.len() as int) =~= self.buffer@);
        let raw = to_text(self.buffer.as_slice(), self.buffer.len());
        self.buffer = Vec::new();
        Some(text::trim_text(raw.as_str(), text::Blank::White))
    }
}

/// Wraps decoded frames as events.
fn dvi_events(frames: Vec<codec::DviFrame>) -> (r: Vec<AccEvent>)
    ensures
        r@.len() == frames@.len(),
        forall|i: int| 0 <= i < r@.len() ==> #[trigger] r@[i]@ == EventView::Dvi(frames@[i]@),
{
    let mut out: Vec<AccEvent> = Vec::new();
    for f in it: frames
        invariant
            it.seq() == frames@,
            out@.len() == it.index(),
            forall|i: int|
                0 <= i < out@.len() ==> #[trigger] out@[i]@ == EventView::Dvi(frames@[i]@),
    {
        out.push(AccEvent::Dvi(f));
    }
    out
}

impl Default for ResponseAccumulator {
    fn default() -> (r: Self)
        ensures
            r.buffered() == Seq::<u8>::empty(),
            r.spec_mode() == Mode::Prompt,
            r.dvi_pending() == Seq::<u8>::empty(),
            !r.dvi_timestamps(),
    {
        ResponseAccumulator::new()
    }
}

// ---- laws ----

/// Every operation keeps bytes in the buffer of the mode in force only, so that
/// a text mode never sees half a binary frame, and the other way round.
pub proof fn modes_never_share_a_buffer(a: AccView, data: Seq<u8>, mode: Mode)
    requires
        one_buffer(a),
    ensures
        one_buffer(fed(a, data).1),
        one_buffer(cleared(a, mode)),
        a.mode != Mode::Dvi ==> fed(a, data).1.dvi_pending == a.dvi_pending,
        a.mode == Mode::Dvi ==> fed(a, data).1.buffered == a.buffered,
{
}

/// In line mode what stays buffered is an unfinished line: it holds no line
/// end, and by itself it delivers nothing and stays as it is.
pub proof fn carry_is_unfinished(buf: Seq<u8>)
    ensures
        forall|i: int|
            0 <= i < line_events(buf).1.len() ==> !ends_line(#[trigger] line_events(buf).1[i]),
        line_events(line_events(buf).1) == (Seq::<EventView>::empty(), line_events(buf).1),
    decreases buf.len(),
{
    if buf.len() > 0 {
        let before = line_events(buf.drop_last());
        carry_is_unfinished(buf.drop_last());
        if !ends_line(buf.last()) {
            let c = before.1.push(buf.last());
            assert(c.drop_last() =~= before.1);
        }
    }
}

/// In line mode how the bytes are cut into chunks does not change the lines.
pub proof fn line_chunks_do_not_matter(a: Seq<u8>, b: Seq<u8>)
    ensures
        line_events(a + b) == ({
            let first = line_events(a);
            let second = line_events(first.1 + b);
            (first.0 + second.0, second.1)
        }),
    decreases b.len(),
{
    let first = line_events(a);
    if b.len() == 0 {
        assert(a + b =~= a);
        assert(first.1 + b =~= first.1);
        carry_is_unfinished(a);
        assert(first.0 + Seq::<EventView>::empty() =~= first.0);
    } else {
        line_chunks_do_not_matter(a, b.drop_last());
        assert((a + b).drop_last() =~= a + b.drop_last());
        assert((first.1 + b).drop_last() =~= first.1 + b.drop_last());
        assert((a + b).last() == b.last());
        assert((first.1 + b).last() == b.last());
        let s = line_events(first.1 + b.drop_last());
        assert(first.0 + (s.0 + line_event(s.1)) =~= (first.0 + s.0) + line_event(s.1));
    }
}

/// In prompt mode bytes without a prompt are kept: nothing is delivered before
/// the prompt is there.
pub proof fn nothing_before_the_prompt(buf: Seq<u8>)
    requires
        forall|i: int| 0 <= i < buf.len() ==> #[trigger] buf[i] != 0x3E,
    ensures
        prompt_events(buf) == (Seq::<EventView>::empty(), buf),
    decreases buf.len(),
{
    if buf.len() > 0 {
        let head = buf.drop_last();
        assert forall|i: int| 0 <= i < head.len() implies #[trigger] head[i] != 0x3E by {
            assert(head[i] == buf[i]);
        }
        nothing_before_the_prompt(head);
        assert(buf.last() == buf[buf.len() - 1]);
    }
}

/// In prompt mode a response may come in any number of chunks: what is fed
/// before the prompt waits, and the chunk with the prompt delivers what feeding
/// everything at once would deliver.
pub proof fn prompt_chunks_do_not_matter(a: AccView, x: Seq<u8>, y: Seq<u8>)
    requires
        a.mode == Mode::Prompt,
        forall|i: int| 0 <= i < (a.buffered + x).len() ==> #[trigger] (a.buffered + x)[i] != 0x3E,
    ensures
        fed(a, x).0 == Seq::<EventView>::empty(),
        fed(fed(a, x).1, y) == fed(a, x + y),
{
    nothing_before_the_prompt(a.buffered + x);
    assert((a.buffered + x) + y =~= a.buffered + (x + y));
}

/// A prompt at the end of the bytes always delivers exactly one event and
/// leaves nothing buffered.
pub proof fn prompt_closes_the_buffer(buf: Seq<u8>)
    requires
        buf.len() > 0,
        buf.last() == 0x3E,
    ensures
        prompt_events(buf).0.len() == 1,
        prompt_events(buf).1 == Seq::<u8>::empty(),
{
}

/// A response is the text before the last prompt, trimmed; what follows the
/// prompt is thrown away with it, and text that is blank is told as an empty
/// response.
pub proof fn a_response_stands_before_its_prompt(body: Seq<u8>, stale: Seq<u8>)
    requires
        forall|i: int| 0 <= i < stale.len() ==> #[trigger] stale[i] != 0x3E,
    ensures
        ({
            let r = prompt_events(body + seq![0x3Eu8] + stale);
            let said = text::trim(ascii_text(body));
            &&& r.0.len() == 1 && r.1.len() == 0
            &&& said.len() > 0 ==> r.0[0] == EventView::Response(said)
            &&& said.len() == 0 ==> r.0[0] is Dropped
        }),
    decreases stale.len(),
{
    let buf = body + seq![0x3Eu8] + stale;
    lemma_prompt_at(body, stale);
    assert(buf.take(body.len() as int) =~= body);
}

proof fn lemma_prompt_at(body: Seq<u8>, stale: Seq<u8>)
    requires
        forall|i: int| 0 <= i < stale.len() ==> #[trigger] stale[i] != 0x3E,
    ensures
        last_prompt(body + seq![0x3Eu8] + stale) == body.len(),
    decreases stale.len(),
{
    let buf = body + seq![0x3Eu8] + stale;
    if stale.len() == 0 {
        assert(buf =~= body + seq![0x3Eu8]);
        assert(buf.last() == 0x3E);
    } else {
        let head = stale.drop_last();
        assert(buf.last() == stale[stale.len() - 1]);
        assert(buf.drop_last() =~= body + seq![0x3Eu8] + head);
        lemma_prompt_at(body, head);
    }
}

/// Bytes below 128 read as their characters, one for one; any other byte reads
/// as a question mark.
pub proof fn bytes_read_as_ascii(s: Seq<u8>, i: int)
    requires
        0 <= i < s.len(),
    ensures
        ascii_text(s).len() == s.len(),
        s[i] < 128 ==> ascii_text(s)[i] as u32 == s[i],
        s[i] >= 128 ==> ascii_text(s)[i] == '?',
{
}

/// A line is delivered when a carriage return or a line feed ends it, without
/// the blanks around it; a blank line and a bare prompt are not.
pub proof fn a_line_is_delivered_at_its_end(body: Seq<u8>, end: u8)
    requires
        end == 13 || end == 10,
        forall|i: int| 0 <= i < body.len() ==> #[trigger] body[i] != 13 && body[i] != 10,
    ensures
        ({
            let line = text::trim_by(ascii_text(body), text::Blank::SpaceTab);
            let r = line_events(body.push(end));
            &&& r.1.len() == 0
            &&& line.len() > 0 && line != seq!['>'] ==> r.0 == seq![EventView::Line(line)]
            &&& line.len() == 0 || line == seq!['>'] ==> r.0.len() == 0
            &&& line_events(body) == (Seq::<EventView>::empty(), body)
        }),
{
    reveal_strlit(">");
    assert(">"@ =~= seq!['>']);
    lemma_open_line(body);
    assert(body.push(end).drop_last() =~= body);
    let e = line_event(body);
    assert(Seq::<EventView>::empty() + e =~= e);
}

proof fn lemma_open_line(body: Seq<u8>)
    requires
        forall|i: int| 0 <= i < body.len() ==> #[trigger] body[i] != 13 && body[i] != 10,
    ensures
        line_events(body) == (Seq::<EventView>::empty(), body),
    decreases body.len(),
{
    if body.len() > 0 {
        let head = body.drop_last();
        assert forall|i: int| 0 <= i < head.len() implies #[trigger] head[i] != 13 && head[i]
            != 10 by {
            assert(head[i] == body[i]);
        }
        lemma_open_line(head);
        assert(body.last() == body[body.len() - 1]);
        assert(head.push(body.last()) =~= body);
    } else {
        assert(body =~= Seq::<u8>::empty());
    }
}

/// Feeding keeps the mode; a text mode leaves the binary side alone, and the
/// other way round; clearing keeps neither text nor binary bytes.
pub proof fn feeding_stays_in_its_mode(a: AccView, data: Seq<u8>, mode: Mode)
    ensures
        fed(a, data).1.mode == a.mode,
        fed(a, data).1.dvi_timestamps == a.dvi_timestamps,
        cleared(a, mode).mode == mode,
        cleared(a, mode).buffered.len() == 0,
        cleared(a, mode).dvi_pending.len() == 0,
        cleared(a, mode).dvi_timestamps == a.dvi_timestamps,
        a.mode == Mode::Prompt ==> fed(a, data).0 == prompt_events(a.buffered + data).0,
        a.mode == Mode::Line ==> fed(a, data).0 == line_events(a.buffered + data).0,
        a.mode == Mode::Dvi ==> fed(a, data).0.len() == codec::parse_stream(
            a.dvi_pending + data,
            a.dvi_timestamps,
        ).0.len(),
{
}

} // verus!
