//! Periodic slots of a DVI tool: it sends one CAN frame per slot at an interval
//! of its own. A plan is loaded message by message, the slots are enabled once
//! all decoders are known, and their replies arrive as ordinary frames.
use crate::link;
use crate::link::dvi::codec;
use crate::link::dvi::framing;
use crate::link::dvi::handler;
use crate::link::dvi::handler::{
    DviHandler, LiveView, PeriodicLive, SessionView, SlotDecoder, SlotView,
};
use crate::link::{
    MessageView, Payload, PayloadView, PeriodicError, PeriodicInstall, PeriodicMessage,
    PeriodicPlan, PeriodicStats,
};
use crate::table::Table;
use crate::text;
use vstd::prelude::*;

verus! {

/// Slots the tool offers.
pub const SLOTS: u8 = 8;

/// The byte that two text bytes write in hexadecimal.
pub open spec fn pair_value(x: u8, y: u8) -> Option<u8> {
    if x < 128 && y < 128 {
        match text::hex_within(seq![x as char, y as char], 255) {
            Some(n) => Some(n as u8),
            None => None,
        }
    } else {
        None
    }
}

/// The bytes that the first `n` pairs write; a pair that writes none is left out.
pub open spec fn pair_values(b: Seq<u8>, n: nat) -> Seq<u8>
    decreases n,
{
    if n == 0 {
        Seq::empty()
    } else {
        let before = pair_values(b, (n - 1) as nat);
        match pair_value(b[2 * (n - 1)], b[2 * (n - 1) + 1]) {
            Some(v) => before.push(v),
            None => before,
        }
    }
}

/// The request bytes that a message writes in hexadecimal.
pub open spec fn request_bytes(data: Seq<char>) -> Seq<u8> {
    let b = vstd::utf8::encode_utf8(data);
    pair_values(b, b.len() / 2)
}

/// The request id of a message.
pub open spec fn message_id(m: MessageView) -> Option<nat> {
    text::hex_within(text::trim(m.header), u32::MAX as nat)
}

/// Whether a message fits a slot: a readable header, and a request that fits
/// one frame.
pub open spec fn fits(m: MessageView) -> bool {
    message_id(m) is Some && 1 <= request_bytes(m.data).len() <= 7
}

/// The frame of a request: its length, its bytes, and zeros up to eight bytes.
/// A shorter frame would be stored and never sent.
pub open spec fn slot_payload(request: Seq<u8>) -> Seq<u8> {
    seq![request.len() as u8] + request + Seq::new((7 - request.len()) as nat, |i: int| 0u8)
}

/// The interval that a slot is set to.
pub open spec fn slot_interval(period_ms: u32) -> u16 {
    if period_ms > 0xFFFF {
        0xFFFF
    } else {
        period_ms as u16
    }
}

/// The bytes that set the interval and the frame of a slot.
pub struct SlotLoad {
    pub slot: u8,
    pub interval: Vec<u8>,
    pub data: Vec<u8>,
}

/// Whether `r` loads message `m` into `slot`.
pub open spec fn loads(r: SlotLoad, m: MessageView, slot: u8) -> bool {
    let ms = slot_interval(m.period_ms);
    &&& r.slot == slot
    &&& r.interval@ == codec::frame_bytes(
        codec::cmd::CAN,
        seq![0x1Au8, slot, (ms / 256) as u8, (ms % 256) as u8],
    )
    &&& r.data@ == codec::frame_bytes(
        codec::cmd::CAN,
        seq![0x1Bu8, slot] + crate::bytes::be_bytes(message_id(m)->0 as u32) + slot_payload(
            request_bytes(m.data),
        ),
    )
}

/// The length of a pid; one where it was never learned.
pub open spec fn length_of(lengths: Map<Seq<char>, u8>, pid: Seq<char>) -> u8 {
    if lengths.contains_key(pid) {
        lengths[pid]
    } else {
        1
    }
}

/// The decoder of a loaded message.
pub open spec fn decoder_of(m: MessageView, slot: u8, lengths: Map<Seq<char>, u8>) -> SlotView {
    let id = message_id(m)->0 as u32;
    SlotView {
        slot,
        response_id: framing::response_id_of(id, id > 0x7FF),
        members: Seq::new(m.pids.len(), |i: int| (m.pids[i], length_of(lengths, m.pids[i]))),
        pids: Seq::new(m.pids.len(), |i: int| text::upper(m.pids[i])).to_set(),
    }
}

/// The first message from `from` on that fits a slot; the number of messages
/// where there is none.
pub open spec fn first_fitting(messages: Seq<MessageView>, from: int) -> int
    decreases messages.len() - from,
{
    if from >= messages.len() || from < 0 {
        messages.len() as int
    } else if fits(messages[from]) {
        from
    } else {
        first_fitting(messages, from + 1)
    }
}

/// The request bytes that a message writes.
fn read_request(data: &str) -> (r: Vec<u8>)
    ensures
        r@ == request_bytes(data@),
{
    let b = data.as_bytes();
    let n: usize = b.len() / 2;
    let len: usize = b.len();
    let mut out: Vec<u8> = Vec::new();
    let mut i: usize = 0;
    while i < n
        invariant
            i <= n,
            n == b@.len() / 2,
            len == b@.len(),
            b@ == vstd::utf8::encode_utf8(data@),
            out@ == pair_values(b@, i as nat),
        decreases n - i,
    {
        let x = b[2 * i];
        let y = b[2 * i + 1];
        if x < 128 && y < 128 {
            let pair: Vec<char> = vec![x as char, y as char];
            assert(pair@ =~= seq![x as char, y as char]);
            if let Some(v) = text::hex_of(pair.as_slice(), 255) {
                out.push(v as u8);
            }
        }
        i += 1;
    }
    out
}

/// The request id of a message.
fn read_id(m: &PeriodicMessage) -> (r: Option<u32>)
    ensures
        r is Some <==> message_id(m@) is Some,
        r matches Some(n) ==> message_id(m@) == Some(n as nat),
{
    let header = text::trim_text(m.header.as_str(), text::Blank::White);
    text::parse_hex_text(header.as_str(), u32::MAX)
}

/// Loading a plan into the slots, message by message in the order of the plan.
pub struct PeriodicLoader {
    pub plan: PeriodicPlan,
    /// The message that is looked at next.
    pub next: usize,
    /// The decoders of the messages that were accepted.
    pub decoders: Vec<SlotDecoder>,
    pub fast_period_ms: u32,
    /// Messages that found no slot.
    pub capped: usize,
}

impl PeriodicLoader {
    /// The messages of the plan.
    pub open spec fn messages(&self) -> Seq<MessageView> {
        link::message_views(self.plan.messages@)
    }

    /// At most as many decoders as slots.
    pub open spec fn wf(&self) -> bool {
        &&& self.next <= self.plan.messages@.len()
        &&& self.decoders@.len() <= SLOTS
        &&& self.capped <= self.next
    }

    /// Nothing is loaded yet.
    pub fn new(plan: PeriodicPlan) -> (r: Self)
        ensures
            r.wf(),
            r.plan == plan,
            r.next == 0,
            r.decoders@.len() == 0,
            r.fast_period_ms == u32::MAX,
            r.capped == 0,
    {
        PeriodicLoader {
            plan,
            next: 0,
            decoders: Vec::new(),
            fast_period_ms: u32::MAX,
            capped: 0,
        }
    }

    /// The next message to load: messages that do not fit a slot are passed
    /// over; with all slots taken the rest is counted as capped.
    pub fn advance(&mut self) -> (r: Option<SlotLoad>)
        requires
            old(self).wf(),
        ensures
            final(self).wf(),
            final(self).plan == old(self).plan,
            final(self).decoders == old(self).decoders,
            final(self).fast_period_ms == old(self).fast_period_ms,
            old(self).decoders@.len() == SLOTS ==> r is None && final(self).next == old(
                self,
            ).messages().len() && final(self).capped == old(self).capped + (old(
                self,
            ).messages().len() - old(self).next),
            old(self).decoders@.len() < SLOTS ==> final(self).next == first_fitting(
                old(self).messages(),
                old(self).next as int,
            ) && final(self).capped == old(self).capped && (r is Some <==> final(self).next < old(
                self,
            ).messages().len()),
            r matches Some(load) ==> loads(
                load,
                old(self).messages()[final(self).next as int],
                old(self).decoders@.len() as u8,
            ),
    {
        let n: usize = self.plan.messages.len();
        if self.decoders.len() >= 8 {
            self.capped = self.capped + (n - self.next);
            self.next = n;
            return None;
        }
        let slot: u8 = self.decoders.len() as u8;
        let ghost messages = self.messages();
        let ghost start = self.next as int;
        while self.next < n
            invariant
                n == self.plan.messages@.len(),
                self.plan == old(self).plan,
                self.decoders == old(self).decoders,
                self.fast_period_ms == old(self).fast_period_ms,
                self.capped == old(self).capped,
                messages == link::message_views(self.plan.messages@),
                messages == old(self).messages(),
                self.wf(),
                old(self).decoders@.len() < SLOTS,
                slot == old(self).decoders@.len(),
                start == old(self).next,
                first_fitting(messages, start) == first_fitting(messages, self.next as int),
            decreases n - self.next,
        {
            let m = &self.plan.messages[self.next];
            assert(messages[self.next as int] == m@);
            let request = read_request(m.data.as_str());
            if let Some(id) = read_id(m) {
                if request.len() >= 1 && request.len() <= 7 {
                    let mut payload: Vec<u8> = vec![request.len() as u8];
                    crate::bytes::extend(&mut payload, request.as_slice());
                    while payload.len() < 8
                        invariant
                            1 <= request@.len() <= 7,
                            request@.len() + 1 <= payload@.len() <= 8,
                            payload@ == seq![request@.len() as u8] + request@ + Seq::new(
                                (payload@.len() - 1 - request@.len()) as nat,
                                |i: int| 0u8,
                            ),
                        decreases 8 - payload@.len(),
                    {
                        let ghost before = payload@;
                        payload.push(0);
                        assert(payload@ =~= seq![request@.len() as u8] + request@ + Seq::new(
                            (payload@.len() - 1 - request@.len()) as nat,
                            |i: int| 0u8,
                        ));
                    }
                    assert(payload@ =~= slot_payload(request@));
                    let ms: u16 = if m.period_ms > 0xFFFF {
                        0xFFFF
                    } else {
                        m.period_ms as u16
                    };
                    return Some(
                        SlotLoad {
                            slot,
                            interval: codec::periodic_interval(slot, ms),
                            data: codec::periodic_data(slot, id, payload.as_slice()),
                        },
                    );
                }
            }
            self.next = self.next + 1;
        }
        None
    }

    /// The message that was to be loaded was accepted or refused.
    pub fn settle(&mut self, accepted: bool)
        requires
            old(self).wf(),
            old(self).decoders@.len() < SLOTS,
            old(self).next < old(self).messages().len(),
            fits(old(self).messages()[old(self).next as int]),
        ensures
            final(self).wf(),
            final(self).plan == old(self).plan,
            final(self).next == old(self).next + 1,
            final(self).capped == old(self).capped,
            ({
                let m = old(self).messages()[old(self).next as int];
                if accepted {
                    &&& handler::slot_views(final(self).decoders@) == handler::slot_views(
                        old(self).decoders@,
                    ).push(
                        decoder_of(m, old(self).decoders@.len() as u8, old(self).plan.lengths@),
                    )
                    &&& final(self).fast_period_ms == (if m.period_ms < old(self).fast_period_ms {
                        m.period_ms
                    } else {
                        old(self).fast_period_ms
                    })
                } else {
                    final(self).decoders == old(self).decoders && final(self).fast_period_ms == old(
                        self,
                    ).fast_period_ms
                }
            }),
    {
        let n: usize = self.plan.messages.len();
        if accepted {
            let slot: u8 = self.decoders.len() as u8;
            let m = &self.plan.messages[self.next];
            assert(self.messages()[self.next as int] == m@);
            let period: u32 = m.period_ms;
            let d = make_decoder(m, slot, &self.plan.lengths);
            let ghost dv = d@;
            let ghost before = handler::slot_views(self.decoders@);
            self.decoders.push(d);
            assert(handler::slot_views(self.decoders@) =~= before.push(dv));
            if period < self.fast_period_ms {
                self.fast_period_ms = period;
            }
        }
        self.next = self.next + 1;
    }

    /// The slots that were loaded, not yet decoded; an error where there is none.
    pub fn into_live(self) -> (r: Result<PeriodicLive, PeriodicError>)
        ensures
            self.decoders@.len() == 0 ==> (r matches Err(e) && e is NoneAccepted),
            self.decoders@.len() > 0 ==> (r matches Ok(live) && live@ == (LiveView {
                decoders: handler::slot_views(self.decoders@),
                fast_period_ms: if self.fast_period_ms == u32::MAX {
                    25
                } else {
                    self.fast_period_ms
                },
                open: false,
            })),
    {
        if self.decoders.len() == 0 {
            return Err(PeriodicError::NoneAccepted);
        }
        let fast_period_ms: u32 = if self.fast_period_ms == u32::MAX {
            25
        } else {
            self.fast_period_ms
        };
        Ok(PeriodicLive { decoders: self.decoders, fast_period_ms, open: false })
    }
}

/// The decoder of a message that was loaded.
fn make_decoder(m: &PeriodicMessage, slot: u8, lengths: &Table<u8>) -> (r: SlotDecoder)
    requires
        fits(m@),
    ensures
        r@ == decoder_of(m@, slot, lengths@),
{
    let id: u32 = match read_id(m) {
        Some(id) => id,
        None => 0,
    };
    let mut members: Vec<(String, u8)> = Vec::new();
    let mut pids: Vec<String> = Vec::new();
    let ghost want = decoder_of(m@, slot, lengths@);
    let mut i: usize = 0;
    while i < m.pids.len()
        invariant
            i <= m.pids@.len(),
            want == decoder_of(m@, slot, lengths@),
            members@.len() == i,
            pids@.len() == i,
            forall|j: int|
                0 <= j < i ==> (#[trigger] members@[j]).0@ == m.pids@[j]@ && members@[j].1
                    == length_of(lengths@, m.pids@[j]@),
            forall|j: int| 0 <= j < i ==> (#[trigger] pids@[j])@ == text::upper(m.pids@[j]@),
        decreases m.pids@.len() - i,
    {
        let p = m.pids[i].as_str();
        let len: u8 = match lengths.get(p) {
            Some(n) => *n,
            None => 1,
        };
        members.push((m.pids[i].clone(), len));
        pids.push(text::to_upper(p));
        i += 1;
    }
    let r = SlotDecoder { slot, response_id: framing::response_id(id, id > 0x7FF), members, pids };
    assert(handler::member_views(r.members@) =~= want.members);
    assert(text::views(r.pids@) =~= Seq::new(m@.pids.len(), |i: int| text::upper(m@.pids[i])));
    r
}

// ---- enabling ----

/// The decoders whose slots were enabled, in order.
pub open spec fn enabled_slots(v: Seq<SlotView>, enabled: Seq<bool>) -> Seq<SlotView>
    decreases v.len(),
{
    if v.len() == 0 {
        Seq::empty()
    } else if enabled[v.len() - 1] {
        enabled_slots(v.drop_last(), enabled).push(v.last())
    } else {
        enabled_slots(v.drop_last(), enabled)
    }
}

/// The pids of some members.
pub open spec fn member_pids(m: Seq<(Seq<char>, u8)>) -> Seq<Seq<char>> {
    Seq::new(m.len(), |i: int| m[i].0)
}

/// The pids that slots serve.
pub open spec fn served_pids(v: Seq<SlotView>) -> Seq<Seq<char>>
    decreases v.len(),
{
    if v.len() == 0 {
        Seq::empty()
    } else {
        served_pids(v.drop_last()) + member_pids(v.last().members)
    }
}

/// The response ids of slots in hexadecimal, each once.
pub open spec fn response_keys(v: Seq<SlotView>) -> Seq<Seq<char>>
    decreases v.len(),
{
    if v.len() == 0 {
        Seq::empty()
    } else {
        let before = response_keys(v.drop_last());
        let key = text::hex_padded(v.last().response_id as nat, 1);
        if before.contains(key) {
            before
        } else {
            before.push(key)
        }
    }
}

/// The views of byte vectors.
pub open spec fn byte_views(v: Seq<Vec<u8>>) -> Seq<Seq<u8>> {
    Seq::new(v.len(), |i: int| v[i]@)
}

/// The bytes that switch slots on or off.
pub open spec fn switch_bytes(v: Seq<SlotView>, on: bool) -> Seq<Seq<u8>> {
    Seq::new(
        v.len(),
        |i: int|
            codec::frame_bytes(
                codec::cmd::CAN,
                seq![0x1Cu8, v[i].slot, codec::flag_byte(on)],
            ),
    )
}

/// How many signals slots decode.
pub open spec fn signal_count(v: Seq<SlotView>) -> nat
    decreases v.len(),
{
    if v.len() == 0 {
        0
    } else {
        signal_count(v.drop_last()) + v.last().members.len()
    }
}

fn switch_frames(v: &Vec<SlotDecoder>, on: bool) -> (r: Vec<Vec<u8>>)
    ensures
        byte_views(r@) == switch_bytes(handler::slot_views(v@), on),
{
    let mut out: Vec<Vec<u8>> = Vec::new();
    let mut i: usize = 0;
    while i < v.len()
        invariant
            i <= v@.len(),
            out@.len() == i,
            forall|j: int|
                0 <= j < i ==> (#[trigger] out@[j])@ == switch_bytes(
                    handler::slot_views(v@),
                    on,
                )[j],
        decreases v@.len() - i,
    {
        out.push(codec::periodic_enable(v[i].slot, on));
        i += 1;
    }
    assert(byte_views(out@) =~= switch_bytes(handler::slot_views(v@), on));
    out
}

/// The response ids of slots, each once.
fn collect_keys(v: &Vec<SlotDecoder>) -> (r: Vec<String>)
    ensures
        text::views(r@) == response_keys(handler::slot_views(v@)),
{
    let ghost all = handler::slot_views(v@);
    let mut out: Vec<String> = Vec::new();
    let mut i: usize = 0;
    assert(text::views(out@) =~= response_keys(all.take(0)));
    while i < v.len()
        invariant
            i <= v@.len(),
            all == handler::slot_views(v@),
            text::views(out@) == response_keys(all.take(i as int)),
        decreases v@.len() - i,
    {
        assert(all.take(i + 1).drop_last() =~= all.take(i as int));
        assert(all.take(i + 1).last() == v@[i as int]@);
        let key = text::hex_text(v[i].response_id, 1);
        let ghost before = text::views(out@);
        proof {
            text::lemma_contains_view(out@, key@);
        }
        if !text::has_text(&out, key.as_str()) {
            let ghost k = key@;
            out.push(key);
            assert(text::views(out@) =~= before.push(k));
        }
        i += 1;
    }
    assert(all.take(i as int) =~= all);
    out
}

/// The pids that slots serve.
fn collect_pids(v: &Vec<SlotDecoder>) -> (r: Vec<String>)
    ensures
        text::views(r@) == served_pids(handler::slot_views(v@)),
{
    let ghost all = handler::slot_views(v@);
    let mut out: Vec<String> = Vec::new();
    let mut i: usize = 0;
    assert(text::views(out@) =~= served_pids(all.take(0)));
    while i < v.len()
        invariant
            i <= v@.len(),
            all == handler::slot_views(v@),
            text::views(out@) == served_pids(all.take(i as int)),
        decreases v@.len() - i,
    {
        assert(all.take(i + 1).drop_last() =~= all.take(i as int));
        assert(all.take(i + 1).last() == v@[i as int]@);
        let members = &v[i].members;
        let ghost before = text::views(out@);
        let ghost pids = member_pids(handler::member_views(members@));
        let mut k: usize = 0;
        assert(text::views(out@) =~= before + pids.take(0));
        while k < members.len()
            invariant
                k <= members@.len(),
                pids == member_pids(handler::member_views(members@)),
                text::views(out@) == before + pids.take(k as int),
            decreases members@.len() - k,
        {
            let ghost here = text::views(out@);
            out.push(members[k].0.clone());
            assert(text::views(out@) =~= here.push(pids[k as int]));
            assert(pids.take(k + 1) =~= pids.take(k as int).push(pids[k as int]));
            assert(text::views(out@) =~= before + pids.take(k + 1));
            k += 1;
        }
        assert(pids.take(k as int) =~= pids);
        i += 1;
    }
    assert(all.take(i as int) =~= all);
    out
}

impl DviHandler {
    /// Whether slots are live.
    pub fn periodic_is_live(&self) -> (r: bool)
        ensures
            r == (self@.periodic is Some),
    {
        self.periodic.is_some()
    }

    /// What the live slots decode.
    pub fn periodic_stats(&self) -> (r: Option<PeriodicStats>)
        requires
            self@.periodic matches Some(p) ==> signal_count(p.decoders) <= usize::MAX,
        ensures
            match self@.periodic {
                Some(p) => r matches Some(s) && s.members == signal_count(p.decoders)
                    && s.fast_period_ms == p.fast_period_ms,
                None => r is None,
            },
    {
        match &self.periodic {
            None => None,
            Some(p) => {
                let ghost all = handler::slot_views(p.decoders@);
                let mut members: usize = 0;
                let mut i: usize = 0;
                assert(all.take(0) =~= Seq::<SlotView>::empty());
                while i < p.decoders.len()
                    invariant
                        i <= p.decoders@.len(),
                        all == handler::slot_views(p.decoders@),
                        signal_count(all) <= usize::MAX,
                        members == signal_count(all.take(i as int)),
                    decreases p.decoders@.len() - i,
                {
                    assert(all.take(i + 1).drop_last() =~= all.take(i as int));
                    assert(all.take(i + 1).last() == p.decoders@[i as int]@);
                    proof {
                        lemma_signal_count(all, i + 1);
                    }
                    members = members + p.decoders[i].members.len();
                    i += 1;
                }
                assert(all.take(i as int) =~= all);
                Some(PeriodicStats { members, fast_period_ms: p.fast_period_ms })
            },
        }
    }

    /// Periodic acquisition can only start where none is live.
    pub fn periodic_may_start(&self) -> (r: Result<(), PeriodicError>)
        ensures
            self@.periodic is Some ==> (r matches Err(e) && e is NotStarted),
            self@.periodic is None ==> r is Ok,
    {
        if self.periodic_is_live() {
            Err(PeriodicError::NotStarted)
        } else {
            Ok(())
        }
    }

    /// The slots are loaded: their replies are told apart from here on, before
    /// the first slot is enabled. Gives the bytes that enable each.
    pub fn periodic_begin(&mut self, live: PeriodicLive) -> (r: Vec<Vec<u8>>)
        ensures
            final(self)@ == (SessionView { periodic: Some(live@), ..old(self)@ }),
            byte_views(r@) == switch_bytes(live@.decoders, true),
    {
        let frames = switch_frames(&live.decoders, true);
        self.periodic = Some(live);
        frames
    }

    /// Which slots were enabled: the others are forgotten, and without any the
    /// whole plan is.
    pub fn periodic_enabled(&mut self, enabled: &Vec<bool>) -> (r: Result<
        PeriodicInstall,
        PeriodicError,
    >)
        requires
            old(self)@.periodic is Some,
            enabled@.len() == old(self)@.periodic->0.decoders.len(),
        ensures
            ({
                let p = old(self)@.periodic->0;
                let kept = enabled_slots(p.decoders, enabled@);
                if kept.len() == 0 {
                    &&& (r matches Err(e) && e is NoneAccepted)
                    &&& final(self)@ == (SessionView { periodic: None, ..old(self)@ })
                } else {
                    &&& final(self)@ == (SessionView {
                        periodic: Some(LiveView {
                            decoders: kept,
                            fast_period_ms: p.fast_period_ms,
                            open: false,
                        }),
                        ..old(self)@
                    })
                    &&& r matches Ok(install)
                    &&& install.accepted == kept.len()
                    &&& text::views(install.response_ids@) == response_keys(kept)
                    &&& install.fast_period_ms == p.fast_period_ms
                    &&& text::views(install.served_pids@) == served_pids(kept)
                }
            }),
    {
        let p = match self.periodic.take() {
            Some(p) => p,
            None => {
                return Err(PeriodicError::NoneAccepted);
            },
        };
        let fast_period_ms: u32 = p.fast_period_ms;
        let ghost all = handler::slot_views(p.decoders@);
        let ghost decoders0 = p.decoders@;
        let mut kept: Vec<SlotDecoder> = Vec::new();
        let n: usize = enabled.len();
        let mut i: usize = 0;
        assert(handler::slot_views(kept@) =~= enabled_slots(all.take(0), enabled@));
        for d in it: p.decoders
            invariant
                it.seq() == decoders0,
                all == handler::slot_views(decoders0),
                i == it.index(),
                i <= decoders0.len(),
                n == enabled@.len(),
                n == decoders0.len(),
                handler::slot_views(kept@) == enabled_slots(all.take(i as int), enabled@),
        {
            assert(all.take(i + 1).drop_last() =~= all.take(i as int));
            assert(all.take(i + 1).last() == d@);
            let ghost before = handler::slot_views(kept@);
            let ghost dv = d@;
            if enabled[i] {
                kept.push(d);
                assert(handler::slot_views(kept@) =~= before.push(dv));
            }
            i += 1;
        }
        assert(all.take(all.len() as int) =~= all);
        if kept.len() == 0 {
            return Err(PeriodicError::NoneAccepted);
        }
        let install = PeriodicInstall {
            accepted: kept.len(),
            response_ids: collect_keys(&kept),
            fast_period_ms,
            served_pids: collect_pids(&kept),
        };
        self.periodic = Some(PeriodicLive { decoders: kept, fast_period_ms, open: false });
        Ok(install)
    }

    /// Replies of the slots are decoded from now on.
    pub fn periodic_arm(&mut self) -> (r: Result<(), PeriodicError>)
        ensures
            match old(self)@.periodic {
                Some(p) => r is Ok && final(self)@ == (SessionView {
                    periodic: Some(LiveView { open: true, ..p }),
                    ..old(self)@
                }),
                None => (r matches Err(e) && e is NotStarted) && final(self)@ == old(self)@,
            },
    {
        match self.periodic.take() {
            Some(mut p) => {
                p.open = true;
                self.periodic = Some(p);
                Ok(())
            },
            None => Err(PeriodicError::NotStarted),
        }
    }

    /// Replies of the slots are no longer decoded.
    pub fn periodic_break(&mut self)
        ensures
            final(self)@ == (SessionView {
                periodic: match old(self)@.periodic {
                    Some(p) => Some(LiveView { open: false, ..p }),
                    None => None,
                },
                ..old(self)@
            }),
    {
        if let Some(mut p) = self.periodic.take() {
            p.open = false;
            self.periodic = Some(p);
        }
    }

    /// Forgets the plan; gives the bytes that disable each slot.
    pub fn periodic_teardown(&mut self) -> (r: Vec<Vec<u8>>)
        ensures
            final(self)@ == (SessionView { periodic: None, ..old(self)@ }),
            byte_views(r@) == (match old(self)@.periodic {
                Some(p) => switch_bytes(p.decoders, false),
                None => Seq::empty(),
            }),
    {
        match self.periodic.take() {
            Some(p) => switch_frames(&p.decoders, false),
            None => {
                let r: Vec<Vec<u8>> = Vec::new();
                assert(byte_views(r@) =~= Seq::<Seq<u8>>::empty());
                r
            },
        }
    }

    /// The link is gone: forgets the plan without touching the wire.
    pub fn periodic_abandon(&mut self)
        ensures
            final(self)@ == (SessionView { periodic: None, ..old(self)@ }),
    {
        self.periodic = None;
    }
}

proof fn lemma_signal_count(v: Seq<SlotView>, n: int)
    requires
        0 <= n <= v.len(),
    ensures
        signal_count(v.take(n)) <= signal_count(v),
    decreases v.len() - n,
{
    if n == v.len() {
        assert(v.take(n) =~= v);
    } else {
        lemma_signal_count(v, n + 1);
        assert(v.take(n + 1).drop_last() =~= v.take(n));
    }
}

// ---- decoding ----

/// The views of slot replies.
pub open spec fn reply_views(v: Seq<(u32, Payload)>) -> Seq<(u32, PayloadView)> {
    Seq::new(v.len(), |i: int| (v[i].0, v[i].1@))
}

/// Where an id stands; -1 where it does not.
pub open spec fn place_of(v: Seq<(u32, PayloadView)>, id: u32) -> int
    decreases v.len(),
{
    if v.len() == 0 {
        -1
    } else if place_of(v.drop_last(), id) >= 0 {
        place_of(v.drop_last(), id)
    } else if v.last().0 == id {
        v.len() - 1
    } else {
        -1
    }
}

/// The freshest reply of each id, in the order in which the ids came.
pub open spec fn freshest_of(v: Seq<(u32, PayloadView)>) -> Seq<(u32, PayloadView)>
    decreases v.len(),
{
    if v.len() == 0 {
        v
    } else {
        let before = freshest_of(v.drop_last());
        let at = place_of(before, v.last().0);
        if at >= 0 {
            before.update(at, v.last())
        } else {
            before.push(v.last())
        }
    }
}

fn find_reply(v: &Vec<(u32, Payload)>, id: u32) -> (r: Option<usize>)
    ensures
        match r {
            Some(i) => i < v@.len() && v@[i as int].0 == id && place_of(reply_views(v@), id) == i,
            None => place_of(reply_views(v@), id) < 0,
        },
{
    let ghost all = reply_views(v@);
    let mut i: usize = 0;
    while i < v.len()
        invariant
            i <= v@.len(),
            all == reply_views(v@),
            place_of(all.take(i as int), id) < 0,
        decreases v@.len() - i,
    {
        assert(all.take(i + 1).drop_last() =~= all.take(i as int));
        assert(all.take(i + 1).last().0 == v@[i as int].0);
        if v[i].0 == id {
            proof {
                lemma_place_stays(all, i + 1, id);
            }
            return Some(i);
        }
        i += 1;
    }
    assert(all.take(i as int) =~= all);
    None
}

proof fn lemma_place_stays(v: Seq<(u32, PayloadView)>, n: int, id: u32)
    requires
        0 <= n <= v.len(),
        place_of(v.take(n), id) >= 0,
    ensures
        place_of(v, id) == place_of(v.take(n), id),
    decreases v.len() - n,
{
    if n == v.len() {
        assert(v.take(n) =~= v);
    } else {
        assert(v.take(n + 1).drop_last() =~= v.take(n));
        lemma_place_stays(v, n + 1, id);
    }
}

/// Of the slot replies that have piled up, the freshest of each id.
pub fn freshest(batch: Vec<(u32, Payload)>) -> (r: Vec<(u32, Payload)>)
    ensures
        reply_views(r@) == freshest_of(reply_views(batch@)),
{
    let ghost all = reply_views(batch@);
    let ghost batch0 = batch@;
    let mut out: Vec<(u32, Payload)> = Vec::new();
    assert(reply_views(out@) =~= freshest_of(all.take(0)));
    for x in it: batch
        invariant
            it.seq() == batch0,
            all == reply_views(batch0),
            reply_views(out@) == freshest_of(all.take(it.index() as int)),
    {
        let ghost i = it.index() as int;
        assert(all.take(i + 1).drop_last() =~= all.take(i));
        let ghost last = (x.0, x.1@);
        assert(all.take(i + 1).last() == last);
        let ghost before = reply_views(out@);
        match find_reply(&out, x.0) {
            Some(at) => {
                let _ = out.remove(at);
                out.insert(at, x);
                assert(reply_views(out@) =~= before.update(at as int, last));
            },
            None => {
                out.push(x);
                assert(reply_views(out@) =~= before.push(last));
            },
        }
    }
    assert(all.take(all.len() as int) =~= all);
    out
}

/// What the decoders of a response id make of a reply: several slots may share
/// an id, and the first whose split succeeds has it.
pub fn first_split<S, F: Fn(&Vec<(String, u8)>) -> Option<S>>(
    decoders: &Vec<(u32, Vec<(String, u8)>)>,
    id: u32,
    split: &F,
) -> (r: Option<S>)
    requires
        forall|i: int|
            0 <= i < decoders@.len() ==> call_requires(*split, (&(#[trigger] decoders@[i]).1,)),
    ensures
        link::is_first_split(decoders@, |k: u32| k == id, *split, r),
{
    let mut i: usize = 0;
    while i < decoders.len()
        invariant
            i <= decoders@.len(),
            forall|j: int|
                0 <= j < decoders@.len() ==> call_requires(*split, (&(#[trigger] decoders@[j]).1,)),
            forall|j: int|
                0 <= j < i && (#[trigger] decoders@[j]).0 == id ==> call_ensures(
                    *split,
                    (&decoders@[j].1,),
                    None::<S>,
                ),
        decreases decoders@.len() - i,
    {
        if decoders[i].0 == id {
            let r = split(&decoders[i].1);
            if r.is_some() {
                assert(call_ensures(*split, (&decoders@[i as int].1,), r));
                assert forall|j: int|
                    0 <= j < i && (#[trigger] decoders@.take(i as int)[j]).0
                        == id implies call_ensures(
                    *split,
                    (&decoders@.take(i as int)[j].1,),
                    None::<S>,
                ) by {
                    assert(decoders@.take(i as int)[j] == decoders@[j]);
                }
                return r;
            }
        }
        i += 1;
    }
    None
}

// ---- laws ----

/// The freshest replies hold each id once, and the last reply of the batch is
/// among them.
pub proof fn freshest_keeps_the_last(v: Seq<(u32, PayloadView)>)
    requires
        v.len() > 0,
    ensures
        freshest_of(v).contains(v.last()),
{
    let before = freshest_of(v.drop_last());
    lemma_place_bound(before, v.last().0);
    let at = place_of(before, v.last().0);
    if at >= 0 {
        assert(freshest_of(v)[at] == v.last());
    } else {
        assert(freshest_of(v)[before.len() as int] == v.last());
    }
}

proof fn lemma_place_bound(v: Seq<(u32, PayloadView)>, id: u32)
    ensures
        place_of(v, id) < v.len(),
        place_of(v, id) >= 0 ==> v[place_of(v, id)].0 == id,
    decreases v.len(),
{
    if v.len() > 0 {
        lemma_place_bound(v.drop_last(), id);
    }
}

/// A slot frame is eight bytes: the length of the request, the request, zeros.
pub proof fn slot_frames_are_padded(m: MessageView)
    requires
        fits(m),
    ensures
        slot_payload(request_bytes(m.data)).len() == 8,
        slot_payload(request_bytes(m.data))[0] == request_bytes(m.data).len(),
        slot_payload(request_bytes(m.data)).subrange(1, request_bytes(m.data).len() + 1int)
            == request_bytes(m.data),
{
    let q = request_bytes(m.data);
    assert(slot_payload(q).subrange(1, q.len() + 1int) =~= q);
}

/// No more slots stay enabled than were loaded.
pub proof fn enabled_slots_are_loaded(v: Seq<SlotView>, enabled: Seq<bool>)
    ensures
        enabled_slots(v, enabled).len() <= v.len(),
        forall|i: int|
            0 <= i < enabled_slots(v, enabled).len() ==> v.contains(
                #[trigger] enabled_slots(v, enabled)[i],
            ),
    decreases v.len(),
{
    if v.len() > 0 {
        enabled_slots_are_loaded(v.drop_last(), enabled);
        let k = enabled_slots(v, enabled);
        let before = enabled_slots(v.drop_last(), enabled);
        assert forall|i: int| 0 <= i < k.len() implies v.contains(#[trigger] k[i]) by {
            if i < before.len() {
                assert(k[i] == before[i]);
                let j = choose|j: int| 0 <= j < v.drop_last().len() && v.drop_last()[j] == k[i];
                assert(v[j] == k[i]);
            } else {
                assert(v[v.len() - 1] == k[i]);
            }
        }
    }
}

/// Where an id stands, or that it stands nowhere.
proof fn lemma_place_found(v: Seq<(u32, PayloadView)>, id: u32)
    ensures
        place_of(v, id) < v.len(),
        place_of(v, id) >= 0 ==> v[place_of(v, id)].0 == id,
        place_of(v, id) < 0 ==> forall|i: int| 0 <= i < v.len() ==> (#[trigger] v[i]).0 != id,
    decreases v.len(),
{
    if v.len() > 0 {
        lemma_place_found(v.drop_last(), id);
        if place_of(v, id) < 0 {
            assert forall|i: int| 0 <= i < v.len() implies (#[trigger] v[i]).0 != id by {
                if i < v.len() - 1 {
                    assert(v.drop_last()[i].0 != id);
                }
            }
        }
    }
}

/// Of a batch of replies the last one of each id stays, and nothing else: no two
/// that stay share an id, each stood in the batch with no later one of its id
/// behind it, and every id of the batch is there.
pub proof fn the_freshest_are_the_last_of_each_id(v: Seq<(u32, PayloadView)>)
    ensures
        forall|i: int, j: int|
            0 <= i < j < freshest_of(v).len() ==> (#[trigger] freshest_of(v)[i]).0 != (
            #[trigger] freshest_of(v)[j]).0,
        forall|i: int|
            0 <= i < freshest_of(v).len() ==> stays_last(v, #[trigger] freshest_of(v)[i]),
        forall|k: int| 0 <= k < v.len() ==> has_id(freshest_of(v), (#[trigger] v[k]).0),
    decreases v.len(),
{
    if v.len() > 0 {
        let head = v.drop_last();
        let x = v.last();
        let before = freshest_of(head);
        let now = freshest_of(v);
        let at = place_of(before, x.0);
        the_freshest_are_the_last_of_each_id(head);
        lemma_place_found(before, x.0);
        assert forall|i: int| 0 <= i < now.len() implies stays_last(v, #[trigger] now[i]) by {
            if (at >= 0 && i == at) || i == before.len() {
                assert(now[i] == x);
                assert(v[v.len() - 1] == x);
            } else {
                assert(now[i] == before[i]);
                assert(stays_last(head, before[i]));
                let k = choose|k: int|
                    0 <= k < head.len() && #[trigger] head[k] == before[i] && (forall|m: int|
                        k < m < head.len() ==> (#[trigger] head[m]).0 != before[i].0);
                assert(v[k] == before[i]);
                assert(before[i].0 != x.0) by {
                    if at >= 0 {
                        if i < at {
                            assert(before[i].0 != before[at].0);
                        } else {
                            assert(before[at].0 != before[i].0);
                        }
                    }
                }
                assert forall|m: int| k < m < v.len() implies (#[trigger] v[m]).0 != before[i].0 by {
                    if m < head.len() {
                        assert(head[m] == v[m]);
                    }
                }
            }
        }
        assert forall|k: int| 0 <= k < v.len() implies has_id(now, (#[trigger] v[k]).0) by {
            if v[k].0 == x.0 {
                let p = if at >= 0 {
                    at
                } else {
                    before.len() as int
                };
                assert(now[p] == x);
            } else {
                assert(head[k] == v[k]);
                assert(has_id(before, head[k].0));
                let i = choose|i: int| 0 <= i < before.len() && (#[trigger] before[i]).0 == v[k].0;
                assert(now[i] == before[i]);
            }
        }
        assert forall|i: int, j: int| 0 <= i < j < now.len() implies (#[trigger] now[i]).0 != (
        #[trigger] now[j]).0 by {
            if at >= 0 {
                assert(before[i].0 != before[j].0);
                assert(now[i].0 == before[i].0 && now[j].0 == before[j].0);
            } else if j < before.len() {
                assert(now[i] == before[i] && now[j] == before[j]);
            } else {
                assert(now[i] == before[i]);
            }
        }
    }
}

/// Whether a reply stands in a batch and no later one of its id does.
pub open spec fn stays_last(v: Seq<(u32, PayloadView)>, x: (u32, PayloadView)) -> bool {
    exists|k: int|
        0 <= k < v.len() && #[trigger] v[k] == x && (forall|m: int|
            k < m < v.len() ==> (#[trigger] v[m]).0 != x.0)
}

/// Whether some reply has an id.
pub open spec fn has_id(v: Seq<(u32, PayloadView)>, id: u32) -> bool {
    exists|i: int| 0 <= i < v.len() && (#[trigger] v[i]).0 == id
}

/// A loaded slot sends its request: the frame that it sends, taken by a receiver
/// as a CAN frame, is whole and holds the bytes of the request.
pub proof fn a_slot_sends_its_request(request: Seq<u8>, id: u32, a: crate::addressing::Addressing)
    requires
        1 <= request.len() <= 7,
    ensures
        slot_payload(request).len() == 8,
        ({
            let f = codec::RxView { id, ts_us: None, data: slot_payload(request) };
            handler::whole_frame(f, a) matches Some(p) && p.bytes == request
        }),
{
    let padding = Seq::new((7 - request.len()) as nat, |i: int| 0u8);
    let f = codec::RxView { id, ts_us: None, data: slot_payload(request) };
    let e = Seq::<codec::RxView>::empty();
    framing::a_single_frame_is_whole(e, id, None, request, padding, a);
    assert(e.push(f) =~= seq![f]);
    assert(framing::assembled(e, a).len() == 0);
}

/// The request of a message in hexadecimal is the bytes that it writes.
pub proof fn a_message_writes_its_request(b: Seq<u8>)
    ensures
        request_bytes(handler::written_bytes(b)) == b,
{
    let s = handler::written_bytes(b);
    handler::lemma_written_bytes(b);
    assert(vstd::utf8::is_ascii_chars(s)) by {
        assert forall|i: int| 0 <= i < s.len() implies (0 <= #[trigger] s[i] as nat) && (s[i] as nat)
            < 128 by {
            assert(('0' <= s[i] <= '9') || ('A' <= s[i] <= 'F'));
        }
    }
    vstd::utf8::is_ascii_chars_encode_utf8(s);
    let e = vstd::utf8::encode_utf8(s);
    assert(e.len() == s.len());
    lemma_pairs(b, e, b.len());
}

proof fn lemma_pairs(b: Seq<u8>, e: Seq<u8>, n: nat)
    requires
        n <= b.len(),
        e.len() == 2 * b.len(),
        ({
            let s = handler::written_bytes(b);
            s.len() == e.len() && forall|i: int| 0 <= i < s.len() ==> #[trigger] s[i] as u8 == e[i]
                && (s[i] as nat) < 128
        }),
    ensures
        pair_values(e, n) == b.take(n as int),
    decreases n,
{
    let s = handler::written_bytes(b);
    handler::lemma_written_bytes(b);
    if n > 0 {
        lemma_pairs(b, e, (n - 1) as nat);
        let i = n - 1;
        let x = s[2 * i];
        let y = s[2 * i + 1];
        assert(e[2 * i] == x as u8 && e[2 * i + 1] == y as u8);
        assert((x as u8) as char == x && (y as u8) as char == y);
        assert(s.subrange(2 * i, 2 * i + 2) =~= seq![x, y]);
        assert(handler::hex_bytes(s)[i] == b[i]);
        assert(('0' <= x <= '9') || ('A' <= x <= 'F'));
        assert(('0' <= y <= '9') || ('A' <= y <= 'F'));
        assert(text::all_hex(seq![x, y]));
        handler::lemma_pair(x, y);
        assert(text::hex_number(seq![x, y]) <= 255);
        assert(pair_value(e[2 * i], e[2 * i + 1]) == Some(b[i]));
        assert(b.take(n as int) =~= b.take(i).push(b[i]));
    } else {
        assert(b.take(0) =~= Seq::<u8>::empty());
    }
}

/// A slot is loaded with the message: command `34` sets its interval, at most
/// 65535 milliseconds with the high byte first, and its frame, to the message's
/// id with the highest byte first.
pub proof fn a_slot_is_loaded_with_its_message(r: SlotLoad, m: MessageView, slot: u8)
    requires
        loads(r, m, slot),
        fits(m),
        slot < 8,
    ensures
        r.slot == slot,
        r.interval@.subrange(0, 4) == seq![0x34u8, 0x04u8, 0x1Au8, slot],
        r.interval@[4] * 256 + r.interval@[5] == (if m.period_ms < 0xFFFF {
            m.period_ms
        } else {
            0xFFFF
        }),
        r.data@.subrange(0, 4) == seq![0x34u8, 0x0Eu8, 0x1Bu8, slot],
        crate::bytes::be_value(r.data@.skip(4)) == message_id(m)->0,
        r.data@.subrange(8, 16) == slot_payload(request_bytes(m.data)),
{
    let ms = slot_interval(m.period_ms);
    let d1 = seq![0x1Au8, slot, (ms / 256) as u8, (ms % 256) as u8];
    let q = slot_payload(request_bytes(m.data));
    let id = message_id(m)->0 as u32;
    let d2 = seq![0x1Bu8, slot] + crate::bytes::be_bytes(id) + q;
    slot_frames_are_padded(m);
    assert(r.interval@.subrange(0, 4) =~= seq![0x34u8, 0x04u8, 0x1Au8, slot]);
    assert(d2.len() == 14);
    assert(r.data@.subrange(0, 4) =~= seq![0x34u8, 0x0Eu8, 0x1Bu8, slot]);
    let yy = codec::checksum_of(codec::frame_body(codec::cmd::CAN, d2));
    assert(r.data@.skip(4) =~= crate::bytes::be_bytes(id) + q.push(yy));
    crate::bytes::be_reads_back(id, q.push(yy));
    assert(r.data@.subrange(8, 16) =~= q);
}

/// The decoder of a message listens where the message's answers come, and slices
/// the message's pids in their order, each by its learned length, or by one byte
/// where none was learned.
pub proof fn a_decoder_fits_its_message(
    m: MessageView,
    slot: u8,
    lengths: Map<Seq<char>, u8>,
    id: u32,
    i: int,
)
    requires
        id <= 0x7FF,
        m.header == text::hex_padded(id as nat, 3),
        0 <= i < m.pids.len(),
    ensures
        ({
            let d = decoder_of(m, slot, lengths);
            &&& d.slot == slot
            &&& d.response_id == (if 0x241 <= id <= 0x25F {
                id + 0x400
            } else {
                id + 8
            })
            &&& d.members.len() == m.pids.len()
            &&& d.members[i].0 == m.pids[i]
            &&& lengths.contains_key(m.pids[i]) ==> d.members[i].1 == lengths[m.pids[i]]
            &&& !lengths.contains_key(m.pids[i]) ==> d.members[i].1 == 1
            &&& d.pids.contains(text::upper(m.pids[i]))
        }),
{
    let h = m.header;
    crate::addressing::lemma_id_width(id as nat);
    crate::addressing::lemma_hex_is_plain(id as nat, 3);
    assert(!text::is_white(h[0]) && !text::is_white(h[2]));
    assert(text::trim(h) == h);
    text::hex_reads_back(id as nat, 3);
    framing::response_id_11bit(id);
    let ups = Seq::new(m.pids.len(), |k: int| text::upper(m.pids[k]));
    assert(ups[i] == text::upper(m.pids[i]));
    assert(ups.contains(ups[i]));
}

/// What live slots serve: as many signals as their members together, and each
/// response id once, written in hexadecimal.
pub proof fn what_slots_serve(v: Seq<SlotView>, i: int, j: int)
    requires
        0 <= i < v.len(),
        0 <= j < v[i].members.len(),
    ensures
        signal_count(v) == served_pids(v).len(),
        served_pids(v).contains(v[i].members[j].0),
        response_keys(v).contains(text::hex_padded(v[i].response_id as nat, 1)),
        response_keys(v).no_duplicates(),
        response_keys(v).len() <= v.len(),
    decreases v.len(),
{
    lemma_served(v);
    if i < v.len() - 1 {
        what_slots_serve(v.drop_last(), i, j);
        let head = served_pids(v.drop_last());
        let k = choose|k: int| 0 <= k < head.len() && head[k] == v[i].members[j].0;
        assert(served_pids(v)[k] == head[k]);
        let keys = response_keys(v.drop_last());
        text::lemma_push_contains(keys, text::hex_padded(v.last().response_id as nat, 1));
    } else {
        let head = served_pids(v.drop_last());
        assert(served_pids(v)[head.len() + j] == v[i].members[j].0);
        let keys = response_keys(v.drop_last());
        text::lemma_push_contains(keys, text::hex_padded(v.last().response_id as nat, 1));
    }
}

proof fn lemma_served(v: Seq<SlotView>)
    ensures
        signal_count(v) == served_pids(v).len(),
        response_keys(v).no_duplicates(),
        response_keys(v).len() <= v.len(),
    decreases v.len(),
{
    if v.len() > 0 {
        lemma_served(v.drop_last());
    }
}

/// A slot stays live exactly where it was enabled; the order stays.
pub proof fn enabled_slots_stay(v: Seq<SlotView>, x: SlotView, enabled: Seq<bool>)
    requires
        enabled.len() > v.len(),
    ensures
        enabled[v.len() as int] ==> enabled_slots(v.push(x), enabled) == enabled_slots(
            v,
            enabled,
        ).push(x),
        !enabled[v.len() as int] ==> enabled_slots(v.push(x), enabled) == enabled_slots(v, enabled),
{
    assert(v.push(x).drop_last() =~= v);
}

/// The frames that switch slots name each slot, and switch it on or off.
pub proof fn switching_names_the_slot(v: Seq<SlotView>, on: bool, i: int)
    requires
        0 <= i < v.len(),
    ensures
        switch_bytes(v, on).len() == v.len(),
        switch_bytes(v, on)[i].take(5) == seq![
            0x34u8,
            0x03u8,
            0x1Cu8,
            v[i].slot,
            if on {
                1u8
            } else {
                0u8
            },
        ],
{
    assert(switch_bytes(v, on)[i].take(5) =~= seq![
        0x34u8,
        0x03u8,
        0x1Cu8,
        v[i].slot,
        if on {
            1u8
        } else {
            0u8
        },
    ]);
}

/// Loading passes over messages that do not fit and takes the next that does.
pub proof fn the_next_fitting_message_is_loaded(messages: Seq<MessageView>, from: int, k: int)
    requires
        0 <= from <= messages.len(),
    ensures
        from <= first_fitting(messages, from) <= messages.len(),
        first_fitting(messages, from) < messages.len() ==> fits(
            messages[first_fitting(messages, from)],
        ),
        from <= k < first_fitting(messages, from) ==> !fits(messages[k]),
    decreases messages.len() - from,
{
    if from < messages.len() && !fits(messages[from]) {
        the_next_fitting_message_is_loaded(messages, from + 1, k);
    }
}

} // verus!
