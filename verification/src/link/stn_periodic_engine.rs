//! Periodic messages that an STN chip sends by itself: installing a plan,
//! arming the monitor and taking everything down again. Each function decides
//! the next step from what the chip said.
use crate::addressing;
use crate::addressing::Addressing;
use crate::link;
use crate::link::{
    Frame, FrameValue, LinkEvent, LinkEventView, MessageView, PeriodicError, PeriodicInstall,
    PeriodicMessage, PeriodicStats,
};
use crate::table::Table;
use crate::text;
use vstd::prelude::*;

verus! {

/// What the chip said to a periodic message.
#[derive(Debug, Clone, Copy, PartialEq, Eq, Structural)]
pub enum InstallVerdict {
    /// The table is full: no further message is sent, what took stays.
    OutOfMemory,
    Refused,
    Accepted,
}

/// Whether some word of `s` is a 16-bit number in hexadecimal digits.
pub open spec fn has_handle(s: Seq<char>) -> bool {
    exists|i: int|
        0 <= i < text::words(s).len() && text::bare_hex(#[trigger] text::words(s)[i], 0xFFFF)
            is Some
}

/// What the chip said to a periodic message.
pub open spec fn verdict_of(reply: Seq<char>) -> InstallVerdict {
    let r = text::upper(reply);
    if text::contains(r, "OUT OF MEMORY"@) {
        InstallVerdict::OutOfMemory
    } else if has_handle(r) {
        InstallVerdict::Accepted
    } else {
        InstallVerdict::Refused
    }
}

/// Reads the chip's reply to a periodic message: a hexadecimal handle accepts
/// it.
pub fn install_verdict(reply: &str) -> (r: InstallVerdict)
    ensures
        r == verdict_of(reply@),
{
    let up = text::to_upper(reply);
    if text::has_part(up.as_str(), "OUT OF MEMORY") {
        return InstallVerdict::OutOfMemory;
    }
    let words = text::split_words(up.as_str());
    let mut i: usize = 0;
    while i < words.len()
        invariant
            i <= words@.len(),
            up@ == text::upper(reply@),
            !text::contains(up@, "OUT OF MEMORY"@),
            text::views(words@) == text::words(up@),
            forall|j: int|
                0 <= j < i ==> text::bare_hex(#[trigger] text::words(up@)[j], 0xFFFF) is None,
        decreases words@.len() - i,
    {
        assert(text::views(words@)[i as int] == words@[i as int]@);
        if text::bare_hex_text(words[i].as_str(), 0xFFFF).is_some() {
            assert(text::bare_hex(text::words(up@)[i as int], 0xFFFF) is Some);
            return InstallVerdict::Accepted;
        }
        i += 1;
    }
    assert(text::views(words@).len() == words@.len());
    InstallVerdict::Refused
}

/// The messages of a plan that the chip has accepted so far.
pub struct StnInstall {
    /// Response id and members with lengths, one per message.
    pub decoders: Vec<(String, Vec<(String, u8)>)>,
    pub response_ids: Vec<String>,
    pub served_pids: Vec<String>,
    pub fast_period_ms: u32,
}

/// Accepted messages as a mathematical value.
#[verifier::ext_equal]
pub struct InstallView {
    pub decoders: Seq<(Seq<char>, Seq<(Seq<char>, u8)>)>,
    pub response_ids: Seq<Seq<char>>,
    pub served_pids: Seq<Seq<char>>,
    pub fast_period_ms: u32,
}

/// Members by view.
pub open spec fn member_views(v: Seq<(String, u8)>) -> Seq<(Seq<char>, u8)> {
    Seq::new(v.len(), |i: int| (v[i].0@, v[i].1))
}

/// Decoders by view.
pub open spec fn decoder_views(v: Seq<(String, Vec<(String, u8)>)>) -> Seq<
    (Seq<char>, Seq<(Seq<char>, u8)>),
> {
    Seq::new(v.len(), |i: int| (v[i].0@, member_views(v[i].1@)))
}

impl View for StnInstall {
    type V = InstallView;

    open spec fn view(&self) -> InstallView {
        InstallView {
            decoders: decoder_views(self.decoders@),
            response_ids: text::views(self.response_ids@),
            served_pids: text::views(self.served_pids@),
            fast_period_ms: self.fast_period_ms,
        }
    }
}

/// The response id of a message.
pub open spec fn message_response(m: MessageView) -> Seq<char> {
    addressing::response_of_upper(text::upper(text::trim(m.header)))
}

/// The members of a message with their lengths; one where a length was never
/// learned.
pub open spec fn message_members(m: MessageView, lengths: Map<Seq<char>, u8>) -> Seq<
    (Seq<char>, u8),
> {
    Seq::new(
        m.pids.len(),
        |i: int|
            (
                m.pids[i],
                if lengths.contains_key(m.pids[i]) {
                    lengths[m.pids[i]]
                } else {
                    1
                },
            ),
    )
}

/// The accepted messages with one more.
pub open spec fn with_message(
    s: InstallView,
    m: MessageView,
    lengths: Map<Seq<char>, u8>,
) -> InstallView {
    let id = message_response(m);
    InstallView {
        decoders: s.decoders.push((id, message_members(m, lengths))),
        response_ids: if s.response_ids.contains(id) {
            s.response_ids
        } else {
            s.response_ids.push(id)
        },
        served_pids: s.served_pids + m.pids,
        fast_period_ms: if m.period_ms < s.fast_period_ms {
            m.period_ms
        } else {
            s.fast_period_ms
        },
    }
}

/// What follows the chip's reply to a message.
#[derive(Debug, Clone, Copy, PartialEq, Eq, Structural)]
pub enum InstallStep {
    /// The message took: send the next one.
    Taken,
    /// The message did not take: send the next one.
    Skipped,
    /// The table is full: send no further one.
    Stop,
}

/// What follows a verdict.
pub open spec fn step_of(v: InstallVerdict) -> InstallStep {
    match v {
        InstallVerdict::Accepted => InstallStep::Taken,
        InstallVerdict::Refused => InstallStep::Skipped,
        InstallVerdict::OutOfMemory => InstallStep::Stop,
    }
}

/// The accepted messages after the chip's reply to one.
pub open spec fn settled(
    s: InstallView,
    m: MessageView,
    lengths: Map<Seq<char>, u8>,
    reply: Seq<char>,
) -> InstallView {
    if step_of(verdict_of(reply)) is Taken {
        with_message(s, m, lengths)
    } else {
        s
    }
}

/// The accepted messages of a plan, given the chip's replies: messages are sent
/// in order until the table is full.
pub open spec fn installed(
    s: InstallView,
    messages: Seq<MessageView>,
    lengths: Map<Seq<char>, u8>,
    replies: Seq<Seq<char>>,
) -> InstallView
    decreases messages.len(),
{
    if messages.len() == 0 || replies.len() == 0 || step_of(verdict_of(replies[0])) is Stop {
        s
    } else {
        installed(
            settled(s, messages[0], lengths, replies[0]),
            messages.skip(1),
            lengths,
            replies.skip(1),
        )
    }
}

impl StnInstall {
    /// Nothing is accepted yet.
    pub fn new() -> (r: Self)
        ensures
            r@ == (InstallView {
                decoders: Seq::empty(),
                response_ids: Seq::empty(),
                served_pids: Seq::empty(),
                fast_period_ms: u32::MAX,
            }),
    {
        let r = StnInstall {
            decoders: Vec::new(),
            response_ids: Vec::new(),
            served_pids: Vec::new(),
            fast_period_ms: u32::MAX,
        };
        assert(r@.decoders =~= Seq::empty());
        assert(r@.response_ids =~= Seq::empty());
        assert(r@.served_pids =~= Seq::empty());
        r
    }

    /// The chip has replied to a message: it is accepted or skipped, or the
    /// installing stops there.
    pub fn settle(&mut self, m: &PeriodicMessage, lengths: &Table<u8>, reply: &str) -> (r:
        InstallStep)
        ensures
            r == step_of(verdict_of(reply@)),
            final(self)@ == settled(old(self)@, m@, lengths@, reply@),
    {
        match install_verdict(reply) {
            InstallVerdict::Accepted => {
                self.accept(m, lengths);
                InstallStep::Taken
            },
            InstallVerdict::Refused => InstallStep::Skipped,
            InstallVerdict::OutOfMemory => InstallStep::Stop,
        }
    }

    /// The chip has accepted a message.
    pub fn accept(&mut self, m: &PeriodicMessage, lengths: &Table<u8>)
        ensures
            final(self)@ == with_message(old(self)@, m@, lengths@),
    {
        let ghost s0 = self@;
        let id = addressing::periodic_response_id(m.header.as_str());
        let ghost idv = id@;
        proof {
            text::lemma_contains_view(self.response_ids@, id@);
        }
        if !text::has_text(&self.response_ids, id.as_str()) {
            self.response_ids.push(id.clone());
            assert(text::views(self.response_ids@) =~= s0.response_ids.push(idv));
        }
        let mut members: Vec<(String, u8)> = Vec::new();
        let mut i: usize = 0;
        while i < m.pids.len()
            invariant
                i <= m.pids@.len(),
                members@.len() == i,
                forall|j: int|
                    0 <= j < i ==> ((#[trigger] members@[j]).0@, members@[j].1) == message_members(
                        m@,
                        lengths@,
                    )[j],
            decreases m.pids@.len() - i,
        {
            let p = m.pids[i].as_str();
            let len: u8 = match lengths.get(p) {
                Some(n) => *n,
                None => 1,
            };
            members.push((m.pids[i].clone(), len));
            i += 1;
        }
        assert(member_views(members@) =~= message_members(m@, lengths@));
        let ghost mv = member_views(members@);
        self.decoders.push((id, members));
        assert(self@.decoders =~= s0.decoders.push((idv, mv)));
        let mut pids = text::clone_strings(&m.pids);
        self.served_pids.append(&mut pids);
        assert(text::views(self.served_pids@) =~= s0.served_pids + m@.pids);
        if m.period_ms < self.fast_period_ms {
            self.fast_period_ms = m.period_ms;
        }
    }

    /// What was installed; an error where no message took.
    pub fn finish(&self) -> (r: Result<PeriodicInstall, PeriodicError>)
        ensures
            self@.decoders.len() == 0 ==> (r matches Err(e) && e is NoneAccepted),
            self@.decoders.len() > 0 ==> (r matches Ok(p) && p.accepted == self@.decoders.len()
                && text::views(p.response_ids@) == self@.response_ids && text::views(p.served_pids@)
                == self@.served_pids && p.fast_period_ms == (if self.fast_period_ms == u32::MAX {
                25
            } else {
                self.fast_period_ms
            })),
    {
        if self.decoders.len() == 0 {
            return Err(PeriodicError::NoneAccepted);
        }
        Ok(
            PeriodicInstall {
                accepted: self.decoders.len(),
                response_ids: text::clone_strings(&self.response_ids),
                fast_period_ms: if self.fast_period_ms == u32::MAX {
                    25
                } else {
                    self.fast_period_ms
                },
                served_pids: text::clone_strings(&self.served_pids),
            },
        )
    }
}

// ---- arming ----

/// The mask that covers every id bit of a protocol.
pub open spec fn monitor_mask(a: Addressing) -> Seq<char> {
    match a {
        Addressing::Can11 => "7FF"@,
        Addressing::Can29 { .. } => "1FFFFFFF"@,
    }
}

/// The setup of the monitor: open the protocol, clear the filters, one filter
/// per response id. Each command is sent alone and waits for its answer.
pub open spec fn arm_script(a: Addressing, ids: Seq<Seq<char>>) -> Seq<Seq<char>> {
    seq!["STPO"@, "STFAC"@] + Seq::new(
        ids.len(),
        |i: int| "STFPA "@ + ids[i] + ","@ + monitor_mask(a),
    )
}

/// The setup of the monitor.
pub fn arm_commands(a: Addressing, ids: &Vec<String>) -> (r: Vec<String>)
    ensures
        text::views(r@) == arm_script(a, text::views(ids@)),
{
    let mask = match a {
        Addressing::Can11 => "7FF",
        Addressing::Can29 { .. } => "1FFFFFFF",
    };
    let mut out: Vec<String> = Vec::new();
    out.push("STPO".to_owned());
    out.push("STFAC".to_owned());
    let mut i: usize = 0;
    while i < ids.len()
        invariant
            i <= ids@.len(),
            mask@ == monitor_mask(a),
            out@.len() == 2 + i,
            out@[0]@ == "STPO"@,
            out@[1]@ == "STFAC"@,
            forall|j: int|
                0 <= j < i ==> (#[trigger] out@[2 + j])@ == "STFPA "@ + ids@[j]@ + ","@
                    + monitor_mask(a),
        decreases ids@.len() - i,
    {
        let mut s = "STFPA ".to_owned();
        s.append(ids[i].as_str());
        s.append(",");
        s.append(mask);
        out.push(s);
        i += 1;
    }
    assert forall|k: int| 0 <= k < out@.len() implies text::views(out@)[k] == arm_script(
        a,
        text::views(ids@),
    )[k] by {
        if k >= 2 {
            assert(out@[2 + (k - 2)]@ == "STFPA "@ + ids@[k - 2]@ + ","@ + monitor_mask(a));
        }
    }
    assert(text::views(out@) =~= arm_script(a, text::views(ids@)));
    out
}

/// Attempts to start the monitor.
pub const ARM_ATTEMPTS: u32 = 5;

/// What follows an attempt to start the monitor.
#[derive(Debug, Clone, Copy, PartialEq, Eq, Structural)]
pub enum ArmStep {
    Armed,
    Retry { attempt: u32 },
    Aborted { attempts: u32 },
}

/// What follows an attempt to start the monitor: it holds where the chip did
/// not abort it at once; else it is tried again, five times in all.
pub fn arm_step(attempt: u32, aborted: bool) -> (r: ArmStep)
    requires
        1 <= attempt <= ARM_ATTEMPTS,
    ensures
        r == (if !aborted {
            ArmStep::Armed
        } else if attempt < ARM_ATTEMPTS {
            ArmStep::Retry { attempt: (attempt + 1) as u32 }
        } else {
            ArmStep::Aborted { attempts: ARM_ATTEMPTS }
        }),
{
    if !aborted {
        ArmStep::Armed
    } else if attempt < ARM_ATTEMPTS {
        ArmStep::Retry { attempt: attempt + 1 }
    } else {
        ArmStep::Aborted { attempts: ARM_ATTEMPTS }
    }
}

/// Where a monitor event goes.
#[derive(Debug, PartialEq, Eq)]
pub enum TapRoute {
    /// The chip left the monitor.
    Stopped,
    /// A frame of the periodic set.
    Decode(Frame),
    /// Anything else answers the command that is being waited for.
    Answer(String),
}

/// Where a monitor event goes.
pub open spec fn routed_to(ev: LinkEventView, ids: Seq<Seq<char>>, r: TapRoute) -> bool {
    match ev {
        LinkEventView::Stopped => r is Stopped,
        LinkEventView::Frame(f) => if is_ours(ids, f.id) {
            r matches TapRoute::Decode(g) && g@ == f
        } else {
            r matches TapRoute::Answer(t) && t@ == f.raw
        },
        LinkEventView::Text(t) => r matches TapRoute::Answer(s) && s@ == text::trim(t),
    }
}

/// Whether an id belongs to the periodic set, ASCII case aside.
pub open spec fn is_ours(ids: Seq<Seq<char>>, id: Seq<char>) -> bool {
    exists|i: int|
        0 <= i < ids.len() && text::ascii_upper(#[trigger] ids[i]) == text::ascii_upper(id)
}

/// Routes a monitor event while the periodic set is live.
pub fn route_event(ev: LinkEvent, ids: &Vec<String>) -> (r: TapRoute)
    ensures
        routed_to(ev@, text::views(ids@), r),
{
    match ev {
        LinkEvent::Stopped => TapRoute::Stopped,
        LinkEvent::Text(t) => TapRoute::Answer(text::trim_text(t.as_str(), text::Blank::White)),
        LinkEvent::Frame(f) => {
            let up = text::ascii_up_text(f.id.as_str());
            let ghost all = text::views(ids@);
            let mut i: usize = 0;
            while i < ids.len()
                invariant
                    i <= ids@.len(),
                    all == text::views(ids@),
                    up@ == text::ascii_upper(f.id@),
                    ev == LinkEvent::Frame(f),
                    forall|j: int| 0 <= j < i ==> text::ascii_upper(#[trigger] all[j]) != up@,
                decreases ids@.len() - i,
            {
                assert(all[i as int] == ids@[i as int]@);
                let mine = text::ascii_up_text(ids[i].as_str());
                if text::same(mine.as_str(), up.as_str()) {
                    assert(text::ascii_upper(all[i as int]) == up@);
                    return TapRoute::Decode(f);
                }
                i += 1;
            }
            TapRoute::Answer(f.raw)
        },
    }
}

/// The views of frames.
pub open spec fn frame_views(v: Seq<Frame>) -> Seq<FrameValue> {
    Seq::new(v.len(), |i: int| v[i]@)
}

/// Where a frame of an id stands; -1 where it does not.
pub open spec fn frame_place(v: Seq<FrameValue>, id: Seq<char>) -> int
    decreases v.len(),
{
    if v.len() == 0 {
        -1
    } else if frame_place(v.drop_last(), id) >= 0 {
        frame_place(v.drop_last(), id)
    } else if v.last().id == id {
        v.len() - 1
    } else {
        -1
    }
}

/// The freshest frame of each id, in the order in which the ids came.
pub open spec fn freshest_of(v: Seq<FrameValue>) -> Seq<FrameValue>
    decreases v.len(),
{
    if v.len() == 0 {
        v
    } else {
        let before = freshest_of(v.drop_last());
        let at = frame_place(before, v.last().id);
        if at >= 0 {
            before.update(at, v.last())
        } else {
            before.push(v.last())
        }
    }
}

proof fn lemma_frame_place_stays(v: Seq<FrameValue>, n: int, id: Seq<char>)
    requires
        0 <= n <= v.len(),
        frame_place(v.take(n), id) >= 0,
    ensures
        frame_place(v, id) == frame_place(v.take(n), id),
    decreases v.len() - n,
{
    if n == v.len() {
        assert(v.take(n) =~= v);
    } else {
        assert(v.take(n + 1).drop_last() =~= v.take(n));
        lemma_frame_place_stays(v, n + 1, id);
    }
}

fn find_frame(v: &Vec<Frame>, id: &str) -> (r: Option<usize>)
    ensures
        match r {
            Some(i) => i < v@.len() && frame_place(frame_views(v@), id@) == i,
            None => frame_place(frame_views(v@), id@) < 0,
        },
{
    let ghost all = frame_views(v@);
    let mut i: usize = 0;
    while i < v.len()
        invariant
            i <= v@.len(),
            all == frame_views(v@),
            frame_place(all.take(i as int), id@) < 0,
        decreases v@.len() - i,
    {
        assert(all.take(i + 1).drop_last() =~= all.take(i as int));
        assert(all.take(i + 1).last() == v@[i as int]@);
        if text::same(v[i].id.as_str(), id) {
            proof {
                lemma_frame_place_stays(all, i + 1, id@);
            }
            return Some(i);
        }
        i += 1;
    }
    assert(all.take(i as int) =~= all);
    None
}

/// What the decoders of a response id make of a frame: several messages may
/// share an id, and the first whose split succeeds has it.
pub fn first_split<S, F: Fn(&Vec<(String, u8)>) -> Option<S>>(
    decoders: &Vec<(String, Vec<(String, u8)>)>,
    id: &str,
    split: &F,
) -> (r: Option<S>)
    requires
        forall|i: int|
            0 <= i < decoders@.len() ==> call_requires(*split, (&(#[trigger] decoders@[i]).1,)),
    ensures
        link::is_first_split(decoders@, |k: String| k@ == id@, *split, r),
{
    let mut i: usize = 0;
    while i < decoders.len()
        invariant
            i <= decoders@.len(),
            forall|j: int|
                0 <= j < decoders@.len() ==> call_requires(*split, (&(#[trigger] decoders@[j]).1,)),
            forall|j: int|
                0 <= j < i && (#[trigger] decoders@[j]).0@ == id@ ==> call_ensures(
                    *split,
                    (&decoders@[j].1,),
                    None::<S>,
                ),
        decreases decoders@.len() - i,
    {
        if text::same(decoders[i].0.as_str(), id) {
            let r = split(&decoders[i].1);
            if r.is_some() {
                assert(call_ensures(*split, (&decoders@[i as int].1,), r));
                assert forall|j: int|
                    0 <= j < i && (#[trigger] decoders@.take(i as int)[j]).0@
                        == id@ implies call_ensures(
                    *split,
                    (&decoders@.take(i as int)[j].1,),
                    None::<S>,
                ) by {
                    assert(decoders@.take(i as int)[j] == decoders@[j]);
                }
                return r;
            }
        }
        i += 1;
    }
    None
}

/// How many signals decoders hold.
pub open spec fn member_count(v: Seq<(Seq<char>, Seq<(Seq<char>, u8)>)>) -> nat
    decreases v.len(),
{
    if v.len() == 0 {
        0
    } else {
        member_count(v.drop_last()) + v.last().1.len()
    }
}

proof fn lemma_member_count(v: Seq<(Seq<char>, Seq<(Seq<char>, u8)>)>, n: int)
    requires
        0 <= n <= v.len(),
    ensures
        member_count(v.take(n)) <= member_count(v),
    decreases v.len() - n,
{
    if n == v.len() {
        assert(v.take(n) =~= v);
    } else {
        lemma_member_count(v, n + 1);
        assert(v.take(n + 1).drop_last() =~= v.take(n));
    }
}

/// What live decoders decode.
pub fn live_stats(decoders: &Vec<(String, Vec<(String, u8)>)>, fast_period_ms: u32) -> (r:
    PeriodicStats)
    requires
        member_count(decoder_views(decoders@)) <= usize::MAX,
    ensures
        r.members == member_count(decoder_views(decoders@)),
        r.fast_period_ms == fast_period_ms,
{
    let ghost all = decoder_views(decoders@);
    let mut members: usize = 0;
    let mut i: usize = 0;
    assert(all.take(0) =~= Seq::empty());
    while i < decoders.len()
        invariant
            i <= decoders@.len(),
            all == decoder_views(decoders@),
            member_count(all) <= usize::MAX,
            members == member_count(all.take(i as int)),
        decreases decoders@.len() - i,
    {
        assert(all.take(i + 1).drop_last() =~= all.take(i as int));
        assert(all.take(i + 1).last().1 == member_views(decoders@[i as int].1@));
        proof {
            lemma_member_count(all, i + 1);
        }
        members = members + decoders[i].1.len();
        i += 1;
    }
    assert(all.take(i as int) =~= all);
    PeriodicStats { members, fast_period_ms }
}

/// Of the frames that have piled up, the freshest of each id.
pub fn freshest_frames(batch: Vec<Frame>) -> (r: Vec<Frame>)
    ensures
        frame_views(r@) == freshest_of(frame_views(batch@)),
{
    let ghost all = frame_views(batch@);
    let ghost batch0 = batch@;
    let mut out: Vec<Frame> = Vec::new();
    assert(frame_views(out@) =~= freshest_of(all.take(0)));
    for f in it: batch
        invariant
            it.seq() == batch0,
            all == frame_views(batch0),
            frame_views(out@) == freshest_of(all.take(it.index() as int)),
    {
        let ghost i = it.index() as int;
        assert(all.take(i + 1).drop_last() =~= all.take(i));
        let ghost last = f@;
        assert(all.take(i + 1).last() == last);
        let ghost before = frame_views(out@);
        match find_frame(&out, f.id.as_str()) {
            Some(at) => {
                let _ = out.remove(at);
                out.insert(at, f);
                assert(frame_views(out@) =~= before.update(at as int, last));
            },
            None => {
                out.push(f);
                assert(frame_views(out@) =~= before.push(last));
            },
        }
    }
    assert(all.take(all.len() as int) =~= all);
    out
}

// ---- teardown ----

/// The chip's protocol number for the protocol that it reports: two digits are
/// its own number; else the number of the text dialect, which may carry an `A`
/// in front, is mapped.
pub open spec fn protocol_number(reply: Seq<char>) -> Option<Seq<char>> {
    let w = text::words(reply);
    let tok = text::upper(
        if w.len() > 0 {
            w[0]
        } else {
            Seq::empty()
        },
    );
    let elm = if tok.len() > 0 && tok[0] == 'A' {
        tok.skip(1)
    } else {
        tok
    };
    if tok.len() == 2 && text::all_digits(tok) {
        Some(tok)
    } else if elm == "6"@ {
        Some("33"@)
    } else if elm == "7"@ {
        Some("34"@)
    } else if elm == "8"@ {
        Some("35"@)
    } else if elm == "9"@ {
        Some("36"@)
    } else {
        None
    }
}

/// The chip's protocol number for the protocol that it reports.
pub fn stn_protocol(reply: &str) -> (r: Option<String>)
    ensures
        r is Some <==> protocol_number(reply@) is Some,
        r matches Some(n) ==> protocol_number(reply@) == Some(n@),
{
    let w = text::split_words(reply);
    let ghost words = text::words(reply@);
    assert(words.len() == w@.len());
    let first = if w.len() > 0 {
        w[0].clone()
    } else {
        String::new()
    };
    assert(w@.len() > 0 ==> words[0] == w@[0]@);
    assert(w@.len() == 0 ==> first@ =~= Seq::<char>::empty());
    let tok = text::to_upper(first.as_str());
    let v = text::chars_of(tok.as_str());
    if v.len() == 2 && '0' <= v[0] && v[0] <= '9' && '0' <= v[1] && v[1] <= '9' {
        return Some(tok);
    }
    let elm = if v.len() > 0 && v[0] == 'A' {
        let s = text::substring(v.as_slice(), 1, v.len());
        assert(s@ =~= tok@.skip(1));
        s
    } else {
        tok
    };
    let e = elm.as_str();
    if text::same(e, "6") {
        Some("33".to_owned())
    } else if text::same(e, "7") {
        Some("34".to_owned())
    } else if text::same(e, "8") {
        Some("35".to_owned())
    } else if text::same(e, "9") {
        Some("36".to_owned())
    } else {
        None
    }
}

/// Where the teardown stands.
#[derive(Debug, Clone, Copy, PartialEq, Eq, Structural)]
pub enum TeardownPhase {
    Flushing,
    Clearing,
    ClearingAgain,
    AskingProtocol,
    Pinning,
    ProbingPinned,
    Closing,
    Searching,
    Finished,
}

/// What the teardown sends next, with the timeout of the command and how long
/// its answer is waited for, both in milliseconds.
#[derive(Debug, PartialEq, Eq)]
pub struct TeardownSend {
    pub command: String,
    pub timeout_ms: u32,
    pub wait_ms: u64,
}

/// A command with its times.
pub open spec fn sends(r: Option<TeardownSend>, command: Seq<char>, timeout_ms: u32, wait_ms: u64) -> bool {
    r matches Some(s) && s.command@ == command && s.timeout_ms == timeout_ms && s.wait_ms == wait_ms
}

/// Whether a reply answers the first request.
pub open spec fn answers_probe(reply: Option<Seq<char>>) -> bool {
    reply matches Some(s) && text::contains(text::upper(s), "41 00"@)
}

/// The phase that follows, by what came back. The protocol is reopened pinned
/// to the one that was in use, which is fast; where anything about that is off,
/// it is closed and searched for.
pub open spec fn teardown_next(phase: TeardownPhase, reply: Option<Seq<char>>) -> TeardownPhase {
    match phase {
        TeardownPhase::Flushing => TeardownPhase::Clearing,
        TeardownPhase::Clearing => if reply is None {
            TeardownPhase::ClearingAgain
        } else {
            TeardownPhase::AskingProtocol
        },
        TeardownPhase::ClearingAgain => TeardownPhase::AskingProtocol,
        TeardownPhase::AskingProtocol => if reply is Some && protocol_number(reply->0) is Some {
            TeardownPhase::Pinning
        } else {
            TeardownPhase::Closing
        },
        TeardownPhase::Pinning => TeardownPhase::ProbingPinned,
        TeardownPhase::ProbingPinned => if answers_probe(reply) {
            TeardownPhase::Finished
        } else {
            TeardownPhase::Closing
        },
        TeardownPhase::Closing => TeardownPhase::Searching,
        TeardownPhase::Searching => TeardownPhase::Finished,
        TeardownPhase::Finished => TeardownPhase::Finished,
    }
}

/// Whether `r` is what a phase sends; `protocol` is the number to pin to.
pub open spec fn teardown_sends(
    phase: TeardownPhase,
    protocol: Seq<char>,
    r: Option<TeardownSend>,
) -> bool {
    match phase {
        TeardownPhase::Flushing => sends(r, "AT"@, 1000, 1200),
        TeardownPhase::Clearing | TeardownPhase::ClearingAgain => sends(r, "STPPMC"@, 2000, 2500),
        TeardownPhase::AskingProtocol => sends(r, "STPR"@, 2000, 2500),
        TeardownPhase::Pinning => sends(r, "STP "@ + protocol, 2000, 2500),
        TeardownPhase::ProbingPinned => sends(r, "0100"@, 10000, 8000),
        TeardownPhase::Closing => sends(r, "STPC"@, 5000, 2500),
        TeardownPhase::Searching => sends(r, "0100"@, 10000, 8000),
        TeardownPhase::Finished => r is None,
    }
}

fn send(command: &str, timeout_ms: u32, wait_ms: u64) -> (r: Option<TeardownSend>)
    ensures
        sends(r, command@, timeout_ms, wait_ms),
{
    Some(TeardownSend { command: command.to_owned(), timeout_ms, wait_ms })
}

/// What the first phase sends.
pub fn teardown_start() -> (r: (TeardownPhase, Option<TeardownSend>))
    ensures
        r.0 == TeardownPhase::Flushing,
        teardown_sends(TeardownPhase::Flushing, Seq::empty(), r.1),
{
    (TeardownPhase::Flushing, send("AT", 1000, 1200))
}

/// The number that a phase pins to.
pub open spec fn pin_of(phase: TeardownPhase, reply: Option<Seq<char>>) -> Seq<char> {
    if phase == TeardownPhase::AskingProtocol && reply is Some && protocol_number(reply->0)
        is Some {
        protocol_number(reply->0)->0
    } else {
        Seq::empty()
    }
}

/// Goes on with the teardown: the next phase and what it sends.
pub fn teardown_step(phase: TeardownPhase, reply: Option<&str>) -> (r: (
    TeardownPhase,
    Option<TeardownSend>,
))
    ensures
        ({
            let said = match reply {
                Some(s) => Some(s@),
                None => None,
            };
            &&& r.0 == teardown_next(phase, said)
            &&& teardown_sends(r.0, pin_of(phase, said), r.1)
        }),
{
    match phase {
        TeardownPhase::Flushing => (TeardownPhase::Clearing, send("STPPMC", 2000, 2500)),
        TeardownPhase::Clearing => {
            if reply.is_none() {
                (TeardownPhase::ClearingAgain, send("STPPMC", 2000, 2500))
            } else {
                (TeardownPhase::AskingProtocol, send("STPR", 2000, 2500))
            }
        },
        TeardownPhase::ClearingAgain => (TeardownPhase::AskingProtocol, send("STPR", 2000, 2500)),
        TeardownPhase::AskingProtocol => {
            if let Some(s) = reply {
                if let Some(n) = stn_protocol(s) {
                    let command = text::concat("STP ", n.as_str());
                    return (TeardownPhase::Pinning, send(command.as_str(), 2000, 2500));
                }
            }
            (TeardownPhase::Closing, send("STPC", 5000, 2500))
        },
        TeardownPhase::Pinning => (TeardownPhase::ProbingPinned, send("0100", 10000, 8000)),
        TeardownPhase::ProbingPinned => {
            if let Some(s) = reply {
                let up = text::to_upper(s);
                if text::has_part(up.as_str(), "41 00") {
                    return (TeardownPhase::Finished, None);
                }
            }
            (TeardownPhase::Closing, send("STPC", 5000, 2500))
        },
        TeardownPhase::Closing => (TeardownPhase::Searching, send("0100", 10000, 8000)),
        TeardownPhase::Searching => (TeardownPhase::Finished, None),
        TeardownPhase::Finished => (TeardownPhase::Finished, None),
    }
}

// ---- laws ----

/// A full table ends the installing: what took before stays, and nothing behind
/// is sent, whatever it would have been answered.
pub proof fn a_full_table_ends_the_installing(
    s: InstallView,
    messages: Seq<MessageView>,
    lengths: Map<Seq<char>, u8>,
    replies: Seq<Seq<char>>,
    k: int,
)
    requires
        0 <= k < replies.len(),
        k < messages.len(),
        verdict_of(replies[k]) is OutOfMemory,
    ensures
        installed(s, messages, lengths, replies) == installed(
            s,
            messages.take(k),
            lengths,
            replies.take(k),
        ),
    decreases k,
{
    if k > 0 && !(step_of(verdict_of(replies[0])) is Stop) {
        let next = settled(s, messages[0], lengths, replies[0]);
        assert(replies.skip(1)[k - 1] == replies[k]);
        a_full_table_ends_the_installing(next, messages.skip(1), lengths, replies.skip(1), k - 1);
        assert(messages.take(k).skip(1) =~= messages.skip(1).take(k - 1));
        assert(replies.take(k).skip(1) =~= replies.skip(1).take(k - 1));
        assert(messages.take(k)[0] == messages[0]);
        assert(replies.take(k)[0] == replies[0]);
    } else if k > 0 {
        assert(replies.take(k)[0] == replies[0]);
    }
}

/// The teardown ends after at most eight commands.
pub open spec fn steps_left(phase: TeardownPhase) -> nat {
    match phase {
        TeardownPhase::Flushing => 8,
        TeardownPhase::Clearing => 7,
        TeardownPhase::ClearingAgain => 6,
        TeardownPhase::AskingProtocol => 5,
        TeardownPhase::Pinning => 4,
        TeardownPhase::ProbingPinned => 3,
        TeardownPhase::Closing => 2,
        TeardownPhase::Searching => 1,
        TeardownPhase::Finished => 0,
    }
}

/// The decoders hold as many signals as pids are served: every accepted message
/// keeps it so.
pub proof fn served_pids_are_decoded(s: InstallView, m: MessageView, lengths: Map<Seq<char>, u8>)
    requires
        member_count(s.decoders) == s.served_pids.len(),
    ensures
        member_count(with_message(s, m, lengths).decoders) == with_message(
            s,
            m,
            lengths,
        ).served_pids.len(),
{
    let d = with_message(s, m, lengths).decoders;
    assert(d.drop_last() =~= s.decoders);
}

/// Every step of the teardown brings it nearer to its end.
pub proof fn teardown_ends(phase: TeardownPhase, reply: Option<Seq<char>>)
    requires
        phase != TeardownPhase::Finished,
    ensures
        steps_left(teardown_next(phase, reply)) < steps_left(phase),
{
}

/// The teardown never ends without an answered probe or a full search: polling
/// would get no data otherwise.
pub proof fn teardown_reopens(phase: TeardownPhase, reply: Option<Seq<char>>)
    requires
        phase != TeardownPhase::Finished,
        teardown_next(phase, reply) == TeardownPhase::Finished,
    ensures
        phase == TeardownPhase::Searching || (phase == TeardownPhase::ProbingPinned
            && answers_probe(reply)),
{
}

/// Of a batch of frames the last one of each id stays, and nothing else: no two
/// that stay share an id, each stood in the batch with no later one of its id
/// behind it, and every id of the batch is there.
pub proof fn the_freshest_are_the_last_of_each_id(v: Seq<FrameValue>)
    ensures
        forall|i: int, j: int|
            0 <= i < j < freshest_of(v).len() ==> (#[trigger] freshest_of(v)[i]).id != (
            #[trigger] freshest_of(v)[j]).id,
        forall|i: int|
            0 <= i < freshest_of(v).len() ==> stays_last(v, #[trigger] freshest_of(v)[i]),
        forall|k: int| 0 <= k < v.len() ==> has_id(freshest_of(v), (#[trigger] v[k]).id),
    decreases v.len(),
{
    if v.len() > 0 {
        let head = v.drop_last();
        let x = v.last();
        let before = freshest_of(head);
        let now = freshest_of(v);
        let at = frame_place(before, x.id);
        the_freshest_are_the_last_of_each_id(head);
        lemma_frame_found(before, x.id);
        assert forall|i: int| 0 <= i < now.len() implies stays_last(v, #[trigger] now[i]) by {
            if (at >= 0 && i == at) || i == before.len() {
                assert(now[i] == x);
                assert(v[v.len() - 1] == x);
            } else {
                assert(now[i] == before[i]);
                assert(stays_last(head, before[i]));
                let k = choose|k: int|
                    0 <= k < head.len() && #[trigger] head[k] == before[i] && (forall|m: int|
                        k < m < head.len() ==> (#[trigger] head[m]).id != before[i].id);
                assert(v[k] == before[i]);
                assert(before[i].id != x.id) by {
                    if at >= 0 {
                        if i < at {
                            assert(before[i].id != before[at].id);
                        } else {
                            assert(before[at].id != before[i].id);
                        }
                    }
                }
                assert forall|m: int| k < m < v.len() implies (#[trigger] v[m]).id != before[i].id by {
                    if m < head.len() {
                        assert(head[m] == v[m]);
                    }
                }
            }
        }
        assert forall|k: int| 0 <= k < v.len() implies has_id(now, (#[trigger] v[k]).id) by {
            if v[k].id == x.id {
                let p = if at >= 0 {
                    at
                } else {
                    before.len() as int
                };
                assert(now[p] == x);
            } else {
                assert(head[k] == v[k]);
                assert(has_id(before, head[k].id));
                let i = choose|i: int| 0 <= i < before.len() && (#[trigger] before[i]).id == v[k].id;
                assert(now[i] == before[i]);
            }
        }
        assert forall|i: int, j: int| 0 <= i < j < now.len() implies (#[trigger] now[i]).id != (
        #[trigger] now[j]).id by {
            if at >= 0 {
                assert(before[i].id != before[j].id);
                assert(now[i].id == before[i].id && now[j].id == before[j].id);
            } else if j < before.len() {
                assert(now[i] == before[i] && now[j] == before[j]);
            } else {
                assert(now[i] == before[i]);
            }
        }
    }
}

/// Whether a frame stands in a batch and no later one of its id does.
pub open spec fn stays_last(v: Seq<FrameValue>, x: FrameValue) -> bool {
    exists|k: int|
        0 <= k < v.len() && #[trigger] v[k] == x && (forall|m: int|
            k < m < v.len() ==> (#[trigger] v[m]).id != x.id)
}

/// Whether some frame has an id.
pub open spec fn has_id(v: Seq<FrameValue>, id: Seq<char>) -> bool {
    exists|i: int| 0 <= i < v.len() && (#[trigger] v[i]).id == id
}

/// Where an id stands, or that it stands nowhere.
proof fn lemma_frame_found(v: Seq<FrameValue>, id: Seq<char>)
    ensures
        frame_place(v, id) < v.len(),
        frame_place(v, id) >= 0 ==> v[frame_place(v, id)].id == id,
        frame_place(v, id) < 0 ==> forall|i: int| 0 <= i < v.len() ==> (#[trigger] v[i]).id != id,
    decreases v.len(),
{
    if v.len() > 0 {
        lemma_frame_found(v.drop_last(), id);
        if frame_place(v, id) < 0 {
            assert forall|i: int| 0 <= i < v.len() implies (#[trigger] v[i]).id != id by {
                if i < v.len() - 1 {
                    assert(v.drop_last()[i].id != id);
                }
            }
        }
    }
}

/// An accepted message is decoded as it was planned: its pids in order, each
/// with its learned length or one; its answers are let through, once; its pids
/// are served behind those before it; and the fast period is the least of all.
pub proof fn a_message_is_decoded_as_planned(
    s: InstallView,
    m: MessageView,
    lengths: Map<Seq<char>, u8>,
    i: int,
)
    requires
        0 <= i < m.pids.len(),
        s.response_ids.no_duplicates(),
    ensures
        ({
            let n = with_message(s, m, lengths);
            let d = n.decoders.last();
            &&& n.decoders.drop_last() == s.decoders
            &&& d.1.len() == m.pids.len()
            &&& d.1[i].0 == m.pids[i]
            &&& lengths.contains_pair(m.pids[i], d.1[i].1) || (!lengths.contains_key(m.pids[i])
                && d.1[i].1 == 1)
            &&& n.response_ids.contains(d.0)
            &&& n.response_ids.no_duplicates()
            &&& forall|x: Seq<char>| #[trigger]
                n.response_ids.contains(x) <==> s.response_ids.contains(x) || x == d.0
            &&& n.served_pids.take(s.served_pids.len() as int) == s.served_pids
            &&& n.served_pids[s.served_pids.len() + i] == m.pids[i]
            &&& n.served_pids.len() == s.served_pids.len() + m.pids.len()
            &&& n.fast_period_ms <= m.period_ms && n.fast_period_ms <= s.fast_period_ms
            &&& n.fast_period_ms == m.period_ms || n.fast_period_ms == s.fast_period_ms
        }),
{
    let n = with_message(s, m, lengths);
    let d = n.decoders.last();
    assert(n.decoders.drop_last() =~= s.decoders);
    assert(n.served_pids.take(s.served_pids.len() as int) =~= s.served_pids);
    if !s.response_ids.contains(d.0) {
        let r = s.response_ids.push(d.0);
        assert(r[r.len() - 1] == d.0);
        assert forall|x: Seq<char>| #[trigger] r.contains(x) <==> s.response_ids.contains(x) || x
            == d.0 by {
            if s.response_ids.contains(x) {
                let j = choose|j: int| 0 <= j < s.response_ids.len() && s.response_ids[j] == x;
                assert(r[j] == x);
            }
        }
    }
}

/// A message whose request goes to an 11-bit controller is answered eight ids
/// above it.
pub proof fn an_11bit_message_is_answered_above(m: MessageView, id: u16)
    requires
        0x7E0 <= id <= 0x7E7,
        text::upper(text::trim(m.header)) == text::hex_padded(id as nat, 3),
    ensures
        text::hex_number(message_response(m)) == id + 8,
{
    addressing::where_the_answer_comes(0, 0, 0, id);
}

/// A reply with a handle of up to four digits in it accepts the message; one
/// that says that memory is out stops the installing, whatever else it says;
/// one without a number refuses.
pub proof fn how_the_chip_replies(reply: Seq<char>, words: Seq<Seq<char>>, i: int, n: nat, width: nat)
    requires
        text::upper(reply) == text::join(words, " "@),
        forall|j: int| 0 <= j < words.len() ==> text::is_word(#[trigger] words[j]),
        n <= 0xFFFF,
        width > 0,
    ensures
        text::contains(text::upper(reply), "OUT OF MEMORY"@) ==> step_of(verdict_of(reply))
            == InstallStep::Stop,
        !text::contains(text::upper(reply), "OUT OF MEMORY"@) && 0 <= i < words.len() && words[i]
            == text::hex_padded(n, width) ==> step_of(verdict_of(reply)) == InstallStep::Taken,
        !text::contains(text::upper(reply), "OUT OF MEMORY"@) && (forall|j: int|
            0 <= j < words.len() ==> !text::all_hex(#[trigger] words[j])) ==> step_of(
            verdict_of(reply),
        ) == InstallStep::Skipped,
{
    text::spaced_words_are_read_back(words);
    text::lemma_hex_padded(n, width);
    let u = text::upper(reply);
    if 0 <= i < words.len() && words[i] == text::hex_padded(n, width) {
        assert(text::bare_hex(text::words(u)[i], 0xFFFF) is Some);
        assert(has_handle(u));
    }
    if forall|j: int| 0 <= j < words.len() ==> !text::all_hex(#[trigger] words[j]) {
        if has_handle(u) {
            let j = choose|j: int|
                0 <= j < text::words(u).len() && text::bare_hex(
                    #[trigger] text::words(u)[j],
                    0xFFFF,
                ) is Some;
            assert(text::all_hex(words[j]));
        }
    }
}

/// A message counts only where the chip took it.
pub proof fn only_taken_messages_count(
    s: InstallView,
    m: MessageView,
    lengths: Map<Seq<char>, u8>,
    reply: Seq<char>,
)
    ensures
        settled(s, m, lengths, reply).decoders.len() == s.decoders.len() + (if verdict_of(reply)
            is Accepted {
            1int
        } else {
            0
        }),
        !(verdict_of(reply) is Accepted) ==> settled(s, m, lengths, reply) == s,
        verdict_of(reply) is Accepted ==> settled(s, m, lengths, reply).served_pids
            == s.served_pids + m.pids,
{
}

/// The setup of the monitor opens the protocol and clears the filters before it
/// lets any id through; then each response id gets a filter that compares all
/// the bits of the bus's ids, in order.
pub proof fn each_response_id_is_let_through(a: Addressing, ids: Seq<Seq<char>>, i: int)
    requires
        0 <= i < ids.len(),
    ensures
        arm_script(a, ids).len() == ids.len() + 2,
        arm_script(a, ids)[0] == "STPO"@,
        arm_script(a, ids)[1] == "STFAC"@,
        a is Can11 ==> arm_script(a, ids)[i + 2] == "STFPA "@ + ids[i] + ",7FF"@,
        a is Can29 ==> arm_script(a, ids)[i + 2] == "STFPA "@ + ids[i] + ",1FFFFFFF"@,
{
    reveal_strlit(",");
    reveal_strlit("7FF");
    reveal_strlit(",7FF");
    reveal_strlit("1FFFFFFF");
    reveal_strlit(",1FFFFFFF");
    let c = arm_script(a, ids)[i + 2];
    let f = "STFPA "@ + ids[i];
    assert(c == f + ","@ + monitor_mask(a));
    if a is Can11 {
        assert(","@ + "7FF"@ =~= ",7FF"@);
        assert(c =~= f + ",7FF"@);
    } else {
        assert(","@ + "1FFFFFFF"@ =~= ",1FFFFFFF"@);
        assert(c =~= f + ",1FFFFFFF"@);
    }
}

/// A frame is decoded where one of the response ids is its id, whichever case
/// its letters are in; any other frame answers the command that is waited for,
/// as does text.
pub proof fn where_an_event_goes(ids: Seq<Seq<char>>, f: FrameValue, t: Seq<char>, r: TapRoute, i: int)
    ensures
        0 <= i < ids.len() && ids[i] == f.id && routed_to(LinkEventView::Frame(f), ids, r) ==> (
        r matches TapRoute::Decode(g) && g@ == f),
        (forall|j: int| 0 <= j < ids.len() ==> (#[trigger] ids[j]).len() != f.id.len())
            && routed_to(LinkEventView::Frame(f), ids, r) ==> (r matches TapRoute::Answer(s) && s@
            == f.raw),
        routed_to(LinkEventView::Text(t), ids, r) ==> (r matches TapRoute::Answer(s) && s@
            == text::trim(t)),
        routed_to(LinkEventView::Stopped, ids, r) <==> r is Stopped,
{
    if 0 <= i < ids.len() && ids[i] == f.id {
        assert(text::ascii_upper(ids[i]) == text::ascii_upper(f.id));
        assert(is_ours(ids, f.id));
    }
    if forall|j: int| 0 <= j < ids.len() ==> (#[trigger] ids[j]).len() != f.id.len() {
        if is_ours(ids, f.id) {
            let j = choose|j: int|
                0 <= j < ids.len() && text::ascii_upper(#[trigger] ids[j]) == text::ascii_upper(
                    f.id,
                );
            assert(text::ascii_upper(ids[j]).len() == ids[j].len());
            assert(text::ascii_upper(f.id).len() == f.id.len());
        }
    }
}

/// The chip counts the four CAN protocols twenty-seven above the text dialect,
/// which marks a protocol that was found by search with an `A`; a number of the
/// chip's own stays as it is.
pub proof fn protocols_are_counted_from_six(d: nat, own: nat)
    requires
        6 <= d <= 9,
        10 <= own <= 99,
    ensures
        protocol_number(text::decimal(d)) == Some(text::decimal(27 + d)),
        protocol_number(seq!['A'] + text::decimal(d)) == Some(text::decimal(27 + d)),
        protocol_number(text::decimal(own)) == Some(text::decimal(own)),
        protocol_number("?"@) is None,
        protocol_number("OK"@) is None,
{
    reveal_strlit("6");
    reveal_strlit("7");
    reveal_strlit("8");
    reveal_strlit("9");
    reveal_strlit("33");
    reveal_strlit("34");
    reveal_strlit("35");
    reveal_strlit("36");
    reveal_strlit("?");
    reveal_strlit("OK");
    reveal_with_fuel(text::decimal, 3);
    let one = text::decimal(d);
    let marked = seq!['A'] + one;
    let two = text::decimal(own);
    assert(one =~= seq![text::digit_char(d)]);
    assert(two =~= seq![text::digit_char(own / 10), text::digit_char(own % 10)]);
    assert(text::decimal(27 + d) =~= seq!['3', text::digit_char((d - 3) as nat)]);
    lemma_one_word(one);
    lemma_one_word(marked);
    lemma_one_word(two);
    lemma_one_word("?"@);
    lemma_one_word("OK"@);
    assert(text::upper(one) =~= one);
    assert(text::upper(marked) =~= marked);
    assert(text::upper(two) =~= two);
    assert(text::upper("?"@) =~= "?"@);
    assert(text::upper("OK"@) =~= "OK"@);
    assert(marked.skip(1) =~= one);
    if d == 6 {
        assert(one =~= "6"@);
        assert(text::decimal(27 + d) =~= "33"@);
    } else if d == 7 {
        assert(one =~= "7"@ && one[0] != "6"@[0]);
        assert(text::decimal(27 + d) =~= "34"@);
    } else if d == 8 {
        assert(one =~= "8"@ && one[0] != "6"@[0] && one[0] != "7"@[0]);
        assert(text::decimal(27 + d) =~= "35"@);
    } else {
        assert(one =~= "9"@ && one[0] != "6"@[0] && one[0] != "7"@[0] && one[0] != "8"@[0]);
        assert(text::decimal(27 + d) =~= "36"@);
    }
    assert("?"@[0] == '?' && "OK"@[0] == 'O' && "6"@[0] == '6' && "7"@[0] == '7' && "8"@[0] == '8'
        && "9"@[0] == '9');
}

proof fn lemma_one_word(w: Seq<char>)
    requires
        1 <= w.len() <= 2,
        forall|i: int| 0 <= i < w.len() ==> '!' <= #[trigger] w[i] <= '~',
    ensures
        text::words(w) == seq![w],
        text::all_ascii(w),
{
    let ws = seq![w];
    assert(text::is_word(w));
    text::spaced_words_are_read_back(ws);
    assert(ws.drop_last() =~= Seq::<Seq<char>>::empty());
    assert(text::join(ws, " "@) =~= w);
}

/// What each phase of the teardown asks of the chip: a probe waits for the bus,
/// everything else for the chip alone; and the protocol is pinned to the number
/// that was reported.
pub proof fn what_a_phase_asks(phase: TeardownPhase, pin: Seq<char>, r: Option<TeardownSend>)
    requires
        teardown_sends(phase, pin, r),
    ensures
        r is None <==> phase is Finished,
        phase is Pinning ==> r->0.command@.len() == 4 + pin.len() && r->0.command@.skip(4) == pin
            && r->0.command@.take(4) == "STP "@,
        phase is ProbingPinned || phase is Searching <==> r is Some && r->0.command@ == "0100"@,
        phase is Clearing || phase is ClearingAgain <==> r is Some && r->0.command@ == "STPPMC"@,
        phase is ProbingPinned || phase is Searching ==> r->0.timeout_ms == 10000 && r->0.wait_ms
            == 8000,
        phase is Closing ==> r->0.command@ == "STPC"@ && r->0.timeout_ms == 5000 && r->0.wait_ms
            == 2500,
        phase is Flushing ==> r->0.command@ == "AT"@ && r->0.timeout_ms == 1000 && r->0.wait_ms
            == 1200,
        phase is AskingProtocol ==> r->0.command@ == "STPR"@,
        phase is AskingProtocol || phase is Clearing || phase is ClearingAgain || phase is Pinning
            ==> r->0.timeout_ms == 2000 && r->0.wait_ms == 2500,
{
    reveal_strlit("AT");
    reveal_strlit("STPPMC");
    reveal_strlit("STPR");
    reveal_strlit("STP ");
    reveal_strlit("STPC");
    reveal_strlit("0100");
    assert("AT"@.len() == 2 && "STPPMC"@.len() == 6 && "STPR"@.len() == 4 && "STPC"@.len() == 4
        && "0100"@.len() == 4 && "STP "@.len() == 4);
    assert("0100"@[0] == '0' && "STPR"@[0] == 'S' && "STPC"@[0] == 'S');
    if phase is Pinning {
        let c = r->0.command@;
        assert(c == "STP "@ + pin);
        assert(c.skip(4) =~= pin);
        assert(c.take(4) =~= "STP "@);
        assert(c[0] == 'S' && c[3] == ' ');
        assert("STPPMC"@[3] == 'P' && "0100"@[0] == '0');
    }
}

/// The slots are cleared once more where the clearing was not answered; the
/// protocol is pinned where the chip named one, and closed and searched for
/// where it named none or the pinned one stays silent.
pub proof fn the_teardown_in_order(reply: Option<Seq<char>>)
    ensures
        teardown_next(TeardownPhase::Flushing, reply) is Clearing,
        teardown_next(TeardownPhase::Clearing, reply) is ClearingAgain <==> reply is None,
        teardown_next(TeardownPhase::Clearing, reply) is AskingProtocol <==> reply is Some,
        teardown_next(TeardownPhase::ClearingAgain, reply) is AskingProtocol,
        teardown_next(TeardownPhase::AskingProtocol, reply) is Pinning <==> reply is Some
            && protocol_number(reply->0) is Some,
        teardown_next(TeardownPhase::AskingProtocol, reply) is Pinning
            || teardown_next(TeardownPhase::AskingProtocol, reply) is Closing,
        teardown_next(TeardownPhase::AskingProtocol, reply) is Pinning ==> Some(
            pin_of(TeardownPhase::AskingProtocol, reply),
        ) == protocol_number(reply->0),
        teardown_next(TeardownPhase::Pinning, reply) is ProbingPinned,
        teardown_next(TeardownPhase::ProbingPinned, reply) is Finished || teardown_next(
            TeardownPhase::ProbingPinned,
            reply,
        ) is Closing,
        reply is None ==> teardown_next(TeardownPhase::ProbingPinned, reply) is Closing,
        teardown_next(TeardownPhase::Closing, reply) is Searching,
        teardown_next(TeardownPhase::Searching, reply) is Finished,
{
}

/// A probe is answered where the positive reply to the first request stands
/// anywhere in the text.
pub proof fn a_probe_is_answered_by_its_reply(before: Seq<char>, after: Seq<char>)
    requires
        text::all_ascii(before),
        text::all_ascii(after),
    ensures
        answers_probe(Some(before + "41 00"@ + after)),
        !answers_probe(Some(Seq::empty())),
        !answers_probe(None),
{
    reveal_strlit("41 00");
    let s = before + "41 00"@ + after;
    let b = before.len() as int;
    assert forall|i: int| 0 <= i < s.len() implies (#[trigger] s[i] as u32) < 128 by {
        if i < b {
            assert(s[i] == before[i]);
        } else if i >= b + 5 {
            assert(s[i] == after[i - b - 5]);
        }
    }
    assert(text::all_ascii(s));
    assert(text::upper(s).subrange(b, b + 5) =~= "41 00"@);
    assert(text::holds_at(text::upper(s), "41 00"@, b));
    let e = Seq::<char>::empty();
    assert(text::upper(e) =~= e);
}

/// Without decoders there is no signal; one more decoder adds its own signals.
pub proof fn signals_add_up(
    v: Seq<(Seq<char>, Seq<(Seq<char>, u8)>)>,
    d: (Seq<char>, Seq<(Seq<char>, u8)>),
)
    ensures
        member_count(Seq::empty()) == 0,
        member_count(v.push(d)) == member_count(v) + d.1.len(),
{
    assert(v.push(d).drop_last() =~= v);
}

} // verus!
