//! From received CAN frames to controller payloads, and from commands to the
//! replies they wait for.
use crate::addressing;
use crate::addressing::{Addressing, Bus};
use crate::bytes;
use crate::link::{Payload, PayloadView};
use crate::link::dvi::codec;
use crate::link::dvi::codec::{RxFrame, RxView};
use crate::link::elm;
use crate::text;
use vstd::prelude::*;

verus! {

// ---- headers ----

/// The header tokens of a CAN id: one three-digit token, or four bytes for a
/// 29-bit id.
pub open spec fn id_tokens(id: u32) -> Seq<Seq<char>> {
    if id > 0x7FF {
        let b = bytes::be_bytes(id);
        seq![
            text::hex_padded(b[0] as nat, 2),
            text::hex_padded(b[1] as nat, 2),
            text::hex_padded(b[2] as nat, 2),
            text::hex_padded(b[3] as nat, 2),
        ]
    } else {
        seq![text::hex_padded(id as nat, 3)]
    }
}

/// The header tokens of a CAN id, as the addressing reads them.
pub fn header_tokens(id: u32) -> (r: Vec<String>)
    ensures
        text::views(r@) == id_tokens(id),
{
    let mut out: Vec<String> = Vec::new();
    if id > 0x7FF {
        out.push(text::hex_text(id / 0x1000000, 2));
        out.push(text::hex_text(id / 0x10000 % 0x100, 2));
        out.push(text::hex_text(id / 0x100 % 0x100, 2));
        out.push(text::hex_text(id % 0x100, 2));
    } else {
        out.push(text::hex_text(id, 3));
    }
    assert(text::views(out@) =~= id_tokens(id));
    out
}

/// The texts of `ss` one after the other.
pub open spec fn concat_all(ss: Seq<Seq<char>>) -> Seq<char> {
    text::join(ss, Seq::empty())
}

/// The key of the controller that answers on an id: the one that the
/// addressing names, else the id in hexadecimal.
pub open spec fn key_of(id: u32, a: Addressing) -> Seq<char> {
    match addressing::header_read(a, id_tokens(id)) {
        Some(h) => text::hex_padded(h.0.id as nat, 2),
        None => concat_all(id_tokens(id)),
    }
}

/// The key of the controller that answers on an id.
pub fn controller_key(id: u32, bus: Bus) -> (r: String)
    ensures
        r@ == key_of(id, bus.addressing),
{
    let toks = header_tokens(id);
    let refs = elm::token_refs(&toks);
    match bus.read(refs.as_slice()) {
        Some(h) => h.0.key(),
        None => {
            let empty = String::new();
            assert(empty@ =~= Seq::<char>::empty());
            text::join_text(&toks, empty.as_str())
        },
    }
}

/// Bytes in hexadecimal, each with a space in front.
pub open spec fn spaced_hex(data: Seq<u8>) -> Seq<char>
    decreases data.len(),
{
    if data.len() == 0 {
        Seq::empty()
    } else {
        spaced_hex(data.drop_last()).push(' ') + text::hex_padded(data.last() as nat, 2)
    }
}

/// A received frame for display: its header, then its bytes.
pub open spec fn rendered(f: RxView) -> Seq<char> {
    text::join(id_tokens(f.id), " "@) + spaced_hex(f.data)
}

/// Renders a received frame for display: an 11-bit id as one token, a 29-bit
/// id as four, then the bytes as they were on the wire.
pub fn render_frame(rx: &RxFrame) -> (r: String)
    ensures
        r@ == rendered(rx@),
{
    let toks = header_tokens(rx.id);
    let mut out = text::join_text(&toks, " ");
    let ghost head = out@;
    let mut i: usize = 0;
    assert(out@ =~= head + spaced_hex(rx.data@.take(0)));
    while i < rx.data.len()
        invariant
            i <= rx.data@.len(),
            out@ == head + spaced_hex(rx.data@.take(i as int)),
        decreases rx.data@.len() - i,
    {
        assert(rx.data@.take(i + 1).drop_last() =~= rx.data@.take(i as int));
        out.push(' ');
        text::push_hex(&mut out, rx.data[i] as u32, 2);
        assert(out@ =~= head + spaced_hex(rx.data@.take(i + 1)));
        i += 1;
    }
    assert(rx.data@.take(i as int) =~= rx.data@);
    out
}

// ---- assembly ----

/// A payload that is being put together.
pub struct Assembly {
    pub id: u32,
    pub payload: Payload,
    /// The bytes that were announced.
    pub total: usize,
    pub done: bool,
}

/// A payload that is being put together, as a mathematical value.
#[verifier::ext_equal]
pub struct AssemblyView {
    pub id: u32,
    pub payload: PayloadView,
    pub total: nat,
    pub done: bool,
}

impl View for Assembly {
    type V = AssemblyView;

    open spec fn view(&self) -> AssemblyView {
        AssemblyView {
            id: self.id,
            payload: self.payload@,
            total: self.total as nat,
            done: self.done,
        }
    }
}

/// The views of a sequence of assemblies.
pub open spec fn assembly_views(v: Seq<Assembly>) -> Seq<AssemblyView> {
    Seq::new(v.len(), |i: int| v[i]@)
}

/// The last assembly of an id that still waits for bytes; -1 where there is none.
pub open spec fn open_assembly(v: Seq<AssemblyView>, id: u32) -> int
    decreases v.len(),
{
    if v.len() == 0 {
        -1
    } else if v.last().id == id && !v.last().done {
        v.len() - 1
    } else {
        open_assembly(v.drop_last(), id)
    }
}

/// At most the first `n` bytes.
pub open spec fn at_most(s: Seq<u8>, n: nat) -> Seq<u8> {
    if s.len() > n {
        s.take(n as int)
    } else {
        s
    }
}

/// An assembly with more bytes; it is done once it holds what was announced,
/// and never holds more.
pub open spec fn extended_by(a: AssemblyView, more: Seq<u8>) -> AssemblyView {
    let all = a.payload.bytes + more;
    AssemblyView {
        id: a.id,
        payload: PayloadView { controller: a.payload.controller, bytes: at_most(all, a.total) },
        total: a.total,
        done: all.len() >= a.total,
    }
}

/// A new assembly.
pub open spec fn fresh(f: RxView, a: Addressing, all: Seq<u8>, total: nat, done: bool) -> AssemblyView {
    AssemblyView {
        id: f.id,
        payload: PayloadView { controller: key_of(f.id, a), bytes: all },
        total,
        done,
    }
}

/// The assemblies after one more frame. By the high half of its first byte: a
/// single frame is whole; a first frame opens an assembly; a consecutive frame
/// extends the open one of its id, or is noise; flow control is skipped; a
/// frame without such a byte passes as it is.
pub open spec fn absorbed(v: Seq<AssemblyView>, f: RxView, a: Addressing) -> Seq<AssemblyView> {
    let d = f.data;
    if d.len() == 0 {
        v
    } else {
        let kind = d[0] / 16;
        let low = (d[0] % 16) as nat;
        if kind == 0 && d[0] > 0 {
            let end = if 1 + low < d.len() {
                1 + low
            } else {
                d.len()
            };
            v.push(fresh(f, a, d.subrange(1, end as int), low, true))
        } else if kind == 1 && d.len() >= 2 {
            let total = low * 256 + d[1] as nat;
            v.push(fresh(f, a, at_most(d.skip(2), total), total, d.len() - 2 >= total))
        } else if kind == 2 {
            let i = open_assembly(v, f.id);
            if i < 0 {
                v
            } else {
                v.update(i, extended_by(v[i], d.skip(1)))
            }
        } else if kind == 3 {
            v
        } else {
            v.push(fresh(f, a, d, d.len(), true))
        }
    }
}

/// The assemblies of a sequence of frames.
pub open spec fn assembled(frames: Seq<RxView>, a: Addressing) -> Seq<AssemblyView>
    decreases frames.len(),
{
    if frames.len() == 0 {
        Seq::empty()
    } else {
        absorbed(assembled(frames.drop_last(), a), frames.last(), a)
    }
}

/// The index of the last open assembly of an id.
fn find_open(v: &Vec<Assembly>, id: u32) -> (r: Option<usize>)
    ensures
        match r {
            Some(i) => i < v@.len() && open_assembly(assembly_views(v@), id) == i
                && !v@[i as int].done,
            None => open_assembly(assembly_views(v@), id) < 0,
        },
{
    let ghost all = assembly_views(v@);
    let mut n: usize = v.len();
    assert(all.take(n as int) =~= all);
    while n > 0
        invariant
            n <= v@.len(),
            all == assembly_views(v@),
            open_assembly(all, id) == open_assembly(all.take(n as int), id),
        decreases n,
    {
        assert(all.take(n as int).drop_last() =~= all.take(n - 1));
        assert(all.take(n as int).last() == v@[n - 1]@);
        n -= 1;
        if v[n].id == id && !v[n].done {
            return Some(n);
        }
    }
    None
}

/// Takes one more frame into the assemblies.
fn absorb(accs: &mut Vec<Assembly>, f: &RxFrame, bus: Bus)
    ensures
        assembly_views(final(accs)@) == absorbed(
            assembly_views(old(accs)@),
            f@,
            bus.addressing,
        ),
{
    let ghost before = assembly_views(accs@);
    let d = f.data.as_slice();
    let len: usize = d.len();
    if len == 0 {
        return ;
    }
    let pci = d[0];
    let kind = pci / 16;
    let low: usize = (pci % 16) as usize;
    if kind == 0 && pci > 0 {
        let end: usize = if 1 + low < len {
            1 + low
        } else {
            len
        };
        let payload = Payload {
            controller: controller_key(f.id, bus),
            bytes: bytes::range(d, 1, end),
        };
        accs.push(Assembly { id: f.id, payload, total: low, done: true });
        assert(assembly_views(accs@) =~= absorbed(before, f@, bus.addressing));
    } else if kind == 1 && len >= 2 {
        let total: usize = low * 256 + d[1] as usize;
        let end: usize = if len - 2 > total {
            2 + total
        } else {
            len
        };
        let part = bytes::range(d, 2, end);
        assert(part@ =~= at_most(d@.skip(2), total as nat));
        let payload = Payload { controller: controller_key(f.id, bus), bytes: part };
        accs.push(Assembly { id: f.id, payload, total, done: len - 2 >= total });
        assert(assembly_views(accs@) =~= absorbed(before, f@, bus.addressing));
    } else if kind == 2 {
        if let Some(i) = find_open(accs, f.id) {
            let ghost was = accs@;
            let mut acc = accs.remove(i);
            let ghost start = acc@;
            let ghost more = d@.skip(1);
            let tail = bytes::range(d, 1, len);
            assert(tail@ =~= more);
            bytes::extend(&mut acc.payload.bytes, tail.as_slice());
            if acc.payload.bytes.len() >= acc.total {
                let cut = bytes::range(acc.payload.bytes.as_slice(), 0, acc.total);
                assert(cut@ =~= at_most(acc.payload.bytes@, acc.total as nat));
                acc.payload.bytes = cut;
                acc.done = true;
            }
            assert(acc@ =~= extended_by(start, more));
            let ghost now = acc@;
            accs.insert(i, acc);
            assert(assembly_views(accs@) =~= before.update(i as int, now));
        }
    } else if kind == 3 {
    } else {
        let payload = Payload {
            controller: controller_key(f.id, bus),
            bytes: bytes::range(d, 0, len),
        };
        assert(payload.bytes@ =~= d@);
        accs.push(Assembly { id: f.id, payload, total: len, done: true });
        assert(assembly_views(accs@) =~= absorbed(before, f@, bus.addressing));
    }
}

/// Received frames as controller payloads, in the order in which they were
/// opened: the id, the payload and whether it is complete.
pub fn frame_payloads(frames: &[RxFrame], bus: Bus) -> (r: Vec<Assembly>)
    ensures
        assembly_views(r@) == assembled(codec::rx_views(frames@), bus.addressing),
{
    let ghost all = codec::rx_views(frames@);
    let mut accs: Vec<Assembly> = Vec::new();
    let mut i: usize = 0;
    assert(all.take(0) =~= Seq::<RxView>::empty());
    assert(assembly_views(accs@) =~= assembled(all.take(0), bus.addressing));
    while i < frames.len()
        invariant
            i <= frames@.len(),
            all == codec::rx_views(frames@),
            assembly_views(accs@) == assembled(all.take(i as int), bus.addressing),
        decreases frames@.len() - i,
    {
        assert(all.take(i + 1).drop_last() =~= all.take(i as int));
        assert(all.take(i + 1).last() == frames@[i as int]@);
        absorb(&mut accs, &frames[i], bus);
        i += 1;
    }
    assert(all.take(i as int) =~= all);
    accs
}

/// The last assembly of an id; -1 where there is none.
pub open spec fn last_of(v: Seq<AssemblyView>, id: u32) -> int
    decreases v.len(),
{
    if v.len() == 0 {
        -1
    } else if v.last().id == id {
        v.len() - 1
    } else {
        last_of(v.drop_last(), id)
    }
}

/// Whether the latest reply from `id` is whole.
pub open spec fn is_whole(frames: Seq<RxView>, id: u32, a: Addressing) -> bool {
    let v = assembled(frames, a);
    let i = last_of(v, id);
    0 <= i && v[i].done
}

/// Whether the latest reply from `id` is whole: a single frame, or a
/// multi-frame reply that is fully assembled.
pub fn reply_complete(frames: &[RxFrame], id: u32, bus: Bus) -> (r: bool)
    ensures
        r == is_whole(codec::rx_views(frames@), id, bus.addressing),
{
    let v = frame_payloads(frames, bus);
    let ghost all = assembly_views(v@);
    let mut n: usize = v.len();
    assert(all.take(n as int) =~= all);
    while n > 0
        invariant
            n <= v@.len(),
            all == assembly_views(v@),
            all == assembled(codec::rx_views(frames@), bus.addressing),
            last_of(all, id) == last_of(all.take(n as int), id),
        decreases n,
    {
        assert(all.take(n as int).drop_last() =~= all.take(n - 1));
        assert(all.take(n as int).last() == v@[n - 1]@);
        n -= 1;
        if v[n].id == id {
            assert(all[n as int] == v@[n as int]@);
            return v[n].done;
        }
    }
    false
}

/// An id that can carry an OBD reply.
pub open spec fn can_respond(id: u32) -> bool {
    0x7E8 <= id <= 0x7EF || id / 0x10000 == 0x18DA
}

/// Whether an id can carry an OBD reply: 11-bit `7E8-7EF`, 29-bit `18DAxxyy`.
pub fn is_obd_responder(id: u32) -> (r: bool)
    ensures
        r == can_respond(id),
{
    (0x7E8 <= id && id <= 0x7EF) || id / 0x10000 == 0x18DA
}

// ---- echoes ----

/// The echo that opens the positive reply to a plain upper-case command:
/// `41 <pid>` for mode 01 and `62 <hi> <lo>` for mode 22.
pub open spec fn plain_echo(c: Seq<char>) -> Option<Seq<u8>> {
    if c.len() == 4 && c.take(2) == "01"@ {
        match text::bare_hex(c.subrange(2, 4), 255) {
            Some(p) => Some(seq![0x41u8, p as u8]),
            None => None,
        }
    } else if c.len() == 6 && c.take(2) == "22"@ {
        match (text::bare_hex(c.subrange(2, 4), 255), text::bare_hex(c.subrange(4, 6), 255)) {
            (Some(h), Some(l)) => Some(seq![0x62u8, h as u8, l as u8]),
            _ => None,
        }
    } else {
        None
    }
}

/// The echo that a command waits for; compound commands have none.
pub open spec fn echo_of(command: Seq<char>) -> Option<Seq<u8>> {
    let c = text::upper(text::trim(command));
    if c.contains('|') || c.contains(' ') {
        None
    } else {
        plain_echo(c)
    }
}

/// Whether `c` stands in `v`.
fn has_char(v: &[char], c: char) -> (r: bool)
    ensures
        r == v@.contains(c),
{
    let mut i: usize = 0;
    while i < v.len()
        invariant
            i <= v@.len(),
            forall|j: int| 0 <= j < i ==> #[trigger] v@[j] != c,
        decreases v@.len() - i,
    {
        if v[i] == c {
            assert(v@[i as int] == c);
            return true;
        }
        i += 1;
    }
    false
}

/// The two characters of `v` at `at` as a byte in hexadecimal.
fn byte_of(v: &[char], at: usize) -> (r: Option<u8>)
    requires
        at + 2 <= v@.len(),
    ensures
        r is Some <==> text::bare_hex(v@.subrange(at as int, at + 2), 255) is Some,
        r matches Some(b) ==> text::bare_hex(v@.subrange(at as int, at + 2), 255) == Some(
            b as nat,
        ),
{
    let n: usize = v.len();
    let s = text::substring(v, at, at + 2);
    match text::bare_hex_text(s.as_str(), 255) {
        Some(b) => Some(b as u8),
        None => None,
    }
}

/// The echo that opens the positive reply to a plain upper-case command.
pub fn echo_of_plain(c: &str) -> (r: Option<Vec<u8>>)
    ensures
        r is Some <==> plain_echo(c@) is Some,
        r matches Some(e) ==> plain_echo(c@) == Some(e@),
{
    let v = text::chars_of(c);
    proof {
        reveal_strlit("01");
        reveal_strlit("22");
        if v@.len() >= 2 {
            assert(v@.take(2) =~= seq![v@[0], v@[1]]);
        }
        assert("01"@ =~= seq!['0', '1']);
        assert("22"@ =~= seq!['2', '2']);
    }
    if v.len() == 4 && v[0] == '0' && v[1] == '1' {
        match byte_of(v.as_slice(), 2) {
            Some(p) => {
                let e: Vec<u8> = vec![0x41, p];
                assert(e@ =~= seq![0x41u8, p]);
                Some(e)
            },
            None => None,
        }
    } else if v.len() == 6 && v[0] == '2' && v[1] == '2' {
        match (byte_of(v.as_slice(), 2), byte_of(v.as_slice(), 4)) {
            (Some(h), Some(l)) => {
                let e: Vec<u8> = vec![0x62, h, l];
                assert(e@ =~= seq![0x62u8, h, l]);
                Some(e)
            },
            _ => None,
        }
    } else {
        None
    }
}

/// The echo that a plain single-pid command expects. Compound commands, and
/// those of other modes, have no simple echo.
pub fn expected_echo(command: &str) -> (r: Option<Vec<u8>>)
    ensures
        r is Some <==> echo_of(command@) is Some,
        r matches Some(e) ==> echo_of(command@) == Some(e@),
{
    let t = text::trim_text(command, text::Blank::White);
    let u = text::to_upper(t.as_str());
    let v = text::chars_of(u.as_str());
    if has_char(v.as_slice(), '|') || has_char(v.as_slice(), ' ') {
        return None;
    }
    echo_of_plain(u.as_str())
}

/// The response bytes of a frame behind its framing byte or bytes.
pub open spec fn response_part(data: Seq<u8>) -> Seq<u8> {
    if data.len() > 0 && data[0] / 16 == 0 {
        data.skip(1)
    } else if data.len() >= 2 && data[0] / 16 == 1 {
        data.skip(2)
    } else {
        data
    }
}

/// The response bytes of a frame behind its framing: one byte for a single
/// frame, two for a first frame.
pub fn frame_response_bytes(data: &[u8]) -> (r: &[u8])
    ensures
        r@ == response_part(data@),
{
    if data.len() > 0 && data[0] / 16 == 0 {
        let r = vstd::slice::slice_subrange(data, 1, data.len());
        assert(r@ =~= data@.skip(1));
        r
    } else if data.len() >= 2 && data[0] / 16 == 1 {
        let r = vstd::slice::slice_subrange(data, 2, data.len());
        assert(r@ =~= data@.skip(2));
        r
    } else {
        data
    }
}

/// The plain command whose positive reply opens like this payload.
pub open spec fn command_of_reply(payload: Seq<u8>) -> Option<Seq<char>> {
    if payload.len() >= 2 && payload[0] == 0x41 {
        Some("01"@ + text::hex_padded(payload[1] as nat, 2))
    } else if payload.len() >= 3 && payload[0] == 0x62 {
        Some(
            "22"@ + text::hex_padded(payload[1] as nat, 2) + text::hex_padded(
                payload[2] as nat,
                2,
            ),
        )
    } else {
        None
    }
}

/// The command that a positive reply's echo names: `62 F4 0C ..` is `22F40C`.
/// Other replies name none.
pub fn command_for_reply(payload: &[u8]) -> (r: Option<String>)
    ensures
        r is Some <==> command_of_reply(payload@) is Some,
        r matches Some(c) ==> command_of_reply(payload@) == Some(c@),
{
    if payload.len() >= 2 && payload[0] == 0x41 {
        let mut s = "01".to_owned();
        text::push_hex(&mut s, payload[1] as u32, 2);
        Some(s)
    } else if payload.len() >= 3 && payload[0] == 0x62 {
        let mut s = "22".to_owned();
        text::push_hex(&mut s, payload[1] as u32, 2);
        text::push_hex(&mut s, payload[2] as u32, 2);
        Some(s)
    } else {
        None
    }
}

/// The header text of an id.
pub open spec fn id_header(id: u32, extended: bool) -> Seq<char> {
    if extended {
        text::hex_padded(id as nat, 8)
    } else {
        text::hex_padded(id as nat, 3)
    }
}

/// The id that answers a request id.
pub open spec fn response_id_of(id: u32, extended: bool) -> u32 {
    match text::hex_within(
        addressing::response_of_upper(text::upper(text::trim(id_header(id, extended)))),
        u32::MAX as nat,
    ) {
        Some(n) => n as u32,
        None => if extended {
            id
        } else {
            (id + 8) as u32
        },
    }
}

/// The physical response id of a request id: 11-bit + 8 (low range + 0x400),
/// 29-bit with target and source swapped.
pub fn response_id(id: u32, extended: bool) -> (r: u32)
    requires
        extended || id <= u32::MAX - 8,
    ensures
        r == response_id_of(id, extended),
{
    let header = if extended {
        text::hex_text(id, 8)
    } else {
        text::hex_text(id, 3)
    };
    let fallback: u32 = if extended {
        id
    } else {
        id + 8
    };
    let resp = addressing::periodic_response_id(header.as_str());
    match text::parse_hex_text(resp.as_str(), u32::MAX) {
        Some(n) => n,
        None => fallback,
    }
}

// ---- pid sets ----

/// The part of `rest` from place `i` that one identifier takes.
pub open spec fn wire_member(mode: Seq<char>, rest: Seq<char>, width: int, i: int) -> Seq<char> {
    mode + rest.subrange(i * width, (i + 1) * width)
}

/// The pids that a poll wire carries, in order: the mode stands once in front,
/// an identifier takes four digits in mode 22 and two in the others.
pub open spec fn wire_pids(command: Seq<char>) -> Seq<Seq<char>> {
    let c = text::upper(text::trim(command));
    if c.len() < 4 || !text::all_hex(c) {
        Seq::empty()
    } else {
        let width: int = if c.take(2) == "22"@ {
            4
        } else {
            2
        };
        let rest = c.skip(2);
        if rest.len() as int % width != 0 {
            Seq::empty()
        } else {
            Seq::new(
                (rest.len() as int / width) as nat,
                |i: int| wire_member(c.take(2), rest, width, i),
            )
        }
    }
}

/// The pids that a poll wire carries: `010C0D` carries `010C` and `010D`.
/// Nothing for a wire that asks for no data.
pub fn command_pid_set(command: &str) -> (r: Vec<String>)
    ensures
        text::views(r@) == wire_pids(command@),
{
    let t = text::trim_text(command, text::Blank::White);
    let u = text::to_upper(t.as_str());
    let v = text::chars_of(u.as_str());
    let mut out: Vec<String> = Vec::new();
    assert(text::views(out@) =~= Seq::<Seq<char>>::empty());
    if v.len() < 4 || !text::is_all_hex(u.as_str()) {
        return out;
    }
    proof {
        reveal_strlit("22");
        assert("22"@ =~= seq!['2', '2']);
        assert(v@.take(2) =~= seq![v@[0], v@[1]]);
    }
    let width: usize = if v[0] == '2' && v[1] == '2' {
        4
    } else {
        2
    };
    let mode = text::substring(v.as_slice(), 0, 2);
    assert(mode@ =~= v@.take(2));
    let n: usize = v.len() - 2;
    let ghost rest = v@.skip(2);
    if n % width != 0 {
        return out;
    }
    let count: usize = n / width;
    let len: usize = v.len();
    let mut i: usize = 0;
    let mut at: usize = 2;
    while i < count
        invariant
            v@ == u@,
            u@ == text::upper(text::trim(command@)),
            len == v@.len(),
            n == v@.len() - 2,
            width == 2 || width == 4,
            n % width == 0,
            count == n / width,
            i <= count,
            at == 2 + i * width,
            rest == v@.skip(2),
            mode@ == v@.take(2),
            out@.len() == i,
            forall|j: int|
                0 <= j < i ==> #[trigger] out@[j]@ == wire_member(mode@, rest, width as int, j),
        decreases count - i,
    {
        assert(at + width <= len) by (nonlinear_arith)
            requires
                at == 2 + i * width,
                i < count,
                count == n / width,
                n == len - 2,
                width == 2 || width == 4,
        ;
        let mut s = mode.clone();
        let part = text::substring(v.as_slice(), at, at + width);
        assert((i + 1) * width == i * width + width) by (nonlinear_arith);
        assert(part@ =~= rest.subrange(i * width, (i + 1) * width));
        s.append(part.as_str());
        out.push(s);
        at += width;
        i += 1;
    }
    assert(text::views(out@) =~= wire_pids(command@));
    out
}

// ---- laws ----

/// A consecutive frame with some bytes behind its framing byte.
pub open spec fn is_consecutive(f: RxView, id: u32, part: Seq<u8>) -> bool {
    f.id == id && f.data.len() == part.len() + 1 && f.data[0] / 16 == 2 && f.data.skip(1) == part
}

/// The parts one after the other.
pub open spec fn flat(parts: Seq<Seq<u8>>) -> Seq<u8>
    decreases parts.len(),
{
    if parts.len() == 0 {
        Seq::empty()
    } else {
        flat(parts.drop_last()) + parts.last()
    }
}

/// A message cut into a first frame and consecutive frames is put together
/// again: while bytes are missing the payload is open and holds what has come;
/// with the frame that brings the last byte it is complete and holds exactly
/// the announced bytes.
pub proof fn cut_message_is_reassembled(
    first: RxView,
    head: Seq<u8>,
    more: Seq<RxView>,
    parts: Seq<Seq<u8>>,
    total: nat,
    a: Addressing,
)
    requires
        first.data.len() == head.len() + 2,
        first.data[0] / 16 == 1,
        (first.data[0] % 16) * 256 + first.data[1] == total,
        first.data.skip(2) == head,
        head.len() < total,
        more.len() == parts.len(),
        forall|i: int|
            0 <= i < more.len() ==> is_consecutive(#[trigger] more[i], first.id, parts[i]),
        parts.len() > 0 ==> (head + flat(parts.drop_last())).len() < total,
    ensures
        assembled(seq![first] + more, a) == seq![
            fresh(
                first,
                a,
                at_most(head + flat(parts), total),
                total,
                (head + flat(parts)).len() >= total,
            ),
        ],
    decreases more.len(),
{
    let all = seq![first] + more;
    if more.len() == 0 {
        assert(all =~= seq![first]);
        assert(all.drop_last() =~= Seq::<RxView>::empty());
        assert(head + flat(parts) =~= head);
        let empty = Seq::<AssemblyView>::empty();
        assert(assembled(all.drop_last(), a) == empty);
        assert(absorbed(empty, first, a) =~= seq![fresh(first, a, head, total, false)]);
    } else {
        let n = more.len() - 1;
        let p = parts.drop_last();
        assert(all.drop_last() =~= seq![first] + more.drop_last());
        assert(all.last() == more.last());
        assert forall|i: int| 0 <= i < more.drop_last().len() implies is_consecutive(
            #[trigger] more.drop_last()[i],
            first.id,
            p[i],
        ) by {
            assert(is_consecutive(more[i], first.id, parts[i]));
        }
        if p.len() > 0 {
            assert(flat(p) == flat(p.drop_last()) + p.last());
            assert((head + flat(p.drop_last())).len() <= (head + flat(p)).len());
        }
        cut_message_is_reassembled(first, head, more.drop_last(), p, total, a);
        let before = assembled(seq![first] + more.drop_last(), a);
        let open = fresh(first, a, head + flat(p), total, false);
        assert(before =~= seq![open]);
        assert(is_consecutive(more[n], first.id, parts[n]));
        assert(before.last() == open);
        assert(open_assembly(before, first.id) == 0);
        assert(head + flat(p) + parts.last() =~= head + flat(parts));
        let now = fresh(
            first,
            a,
            at_most(head + flat(parts), total),
            total,
            (head + flat(parts)).len() >= total,
        );
        assert(extended_by(open, more[n].data.skip(1)) =~= now);
        assert(before.update(0, now) =~= seq![now]);
        assert(absorbed(before, more[n], a) == before.update(0, now));
    }
}

/// A command and the reply that echoes it name each other: the echo of the
/// command that a reply names opens that reply.
pub proof fn echo_and_command_agree(payload: Seq<u8>)
    requires
        command_of_reply(payload) is Some,
    ensures
        echo_of(command_of_reply(payload)->0) is Some,
        echo_of(command_of_reply(payload)->0)->0 == payload.take(
            echo_of(command_of_reply(payload)->0)->0.len() as int,
        ),
{
    reveal_strlit("01");
    reveal_strlit("22");
    let c = command_of_reply(payload)->0;
    let x = text::hex_padded(payload[1] as nat, 2);
    addressing::lemma_byte_width(payload[1] as nat);
    addressing::lemma_hex_is_plain(payload[1] as nat, 2);
    text::hex_reads_back(payload[1] as nat, 2);
    if payload[0] == 0x41 {
        assert forall|i: int| 0 <= i < c.len() implies ('0' <= #[trigger] c[i] <= '9') || ('A'
            <= c[i] <= 'F') by {
            if 2 <= i {
                assert(c[i] == x[i - 2]);
            }
        }
        addressing::lemma_plain_is_normal(c);
        lemma_plain_has_no_separator(c);
        assert(c.take(2) =~= "01"@);
        assert(c.subrange(2, 4) =~= x);
        assert(seq![0x41u8, payload[1]] =~= payload.take(2));
    } else {
        let y = text::hex_padded(payload[2] as nat, 2);
        addressing::lemma_byte_width(payload[2] as nat);
        addressing::lemma_hex_is_plain(payload[2] as nat, 2);
        text::hex_reads_back(payload[2] as nat, 2);
        assert forall|i: int| 0 <= i < c.len() implies ('0' <= #[trigger] c[i] <= '9') || ('A'
            <= c[i] <= 'F') by {
            if 2 <= i < 4 {
                assert(c[i] == x[i - 2]);
            } else if 4 <= i {
                assert(c[i] == y[i - 4]);
            }
        }
        addressing::lemma_plain_is_normal(c);
        lemma_plain_has_no_separator(c);
        assert(c.take(2) =~= "22"@);
        assert(c.subrange(2, 4) =~= x);
        assert(c.subrange(4, 6) =~= y);
        assert(seq![0x62u8, payload[1], payload[2]] =~= payload.take(3));
    }
}

proof fn lemma_plain_has_no_separator(c: Seq<char>)
    requires
        addressing::plain_header(c),
    ensures
        !c.contains('|'),
        !c.contains(' '),
{
    if c.contains('|') {
        let i = choose|i: int| 0 <= i < c.len() && c[i] == '|';
        assert(('0' <= c[i] <= '9') || ('A' <= c[i] <= 'F'));
    }
    if c.contains(' ') {
        let i = choose|i: int| 0 <= i < c.len() && c[i] == ' ';
        assert(('0' <= c[i] <= '9') || ('A' <= c[i] <= 'F'));
    }
}

/// 11-bit: the response id is the request id plus 8, or plus 0x400 in the low
/// range.
pub proof fn response_id_11bit(id: u32)
    requires
        id <= 0x7FF,
    ensures
        response_id_of(id, false) == (if 0x241 <= id <= 0x25F {
            id + 0x400
        } else {
            id + 8
        }),
{
    let h = id_header(id, false);
    addressing::lemma_id_width(id as nat);
    addressing::lemma_hex_is_plain(id as nat, 3);
    addressing::lemma_plain_is_normal(h);
    text::hex_reads_back(id as nat, 3);
    text::hex_reads_back((id + 8) as nat, 3);
    text::hex_reads_back((id + 0x400) as nat, 3);
}

/// The frames of one id, in order.
pub open spec fn frames_on(frames: Seq<RxView>, id: u32) -> Seq<RxView>
    decreases frames.len(),
{
    if frames.len() == 0 {
        frames
    } else if frames.last().id == id {
        frames_on(frames.drop_last(), id).push(frames.last())
    } else {
        frames_on(frames.drop_last(), id)
    }
}

/// The assemblies of one id, in order.
pub open spec fn assemblies_on(v: Seq<AssemblyView>, id: u32) -> Seq<AssemblyView>
    decreases v.len(),
{
    if v.len() == 0 {
        v
    } else if v.last().id == id {
        assemblies_on(v.drop_last(), id).push(v.last())
    } else {
        assemblies_on(v.drop_last(), id)
    }
}

/// The last open assembly of an id is the last open one among those of the id.
proof fn lemma_open_on(v: Seq<AssemblyView>, id: u32)
    ensures
        -1 <= open_assembly(v, id) < v.len(),
        open_assembly(v, id) >= 0 ==> v[open_assembly(v, id)].id == id,
        open_assembly(v, id) < 0 <==> open_assembly(assemblies_on(v, id), id) < 0,
        open_assembly(assemblies_on(v, id), id) < assemblies_on(v, id).len(),
        open_assembly(v, id) >= 0 ==> assemblies_on(v, id)[open_assembly(
            assemblies_on(v, id),
            id,
        )] == v[open_assembly(v, id)],
    decreases v.len(),
{
    if v.len() > 0 {
        let head = v.drop_last();
        lemma_open_on(head, id);
        if v.last().id == id {
            assert(assemblies_on(v, id).drop_last() =~= assemblies_on(head, id));
        }
    }
}

/// Changing the last open assembly of an id changes that one of the id, and
/// none of another.
proof fn lemma_update_on(v: Seq<AssemblyView>, id: u32, other: u32, x: AssemblyView)
    requires
        open_assembly(v, id) >= 0,
        x.id == id,
    ensures
        assemblies_on(v.update(open_assembly(v, id), x), id) == assemblies_on(v, id).update(
            open_assembly(assemblies_on(v, id), id),
            x,
        ),
        other != id ==> assemblies_on(v.update(open_assembly(v, id), x), other) == assemblies_on(
            v,
            other,
        ),
    decreases v.len(),
{
    let head = v.drop_last();
    let i = open_assembly(v, id);
    let w = v.update(i, x);
    lemma_open_on(v, id);
    lemma_open_on(head, id);
    if i == v.len() - 1 {
        assert(w.drop_last() =~= head);
        assert(assemblies_on(w, id) =~= assemblies_on(v, id).update(
            assemblies_on(v, id).len() - 1,
            x,
        ));
    } else {
        assert(w.drop_last() =~= head.update(i, x));
        lemma_update_on(head, id, other, x);
        if v.last().id == id {
            assert(assemblies_on(v, id).drop_last() =~= assemblies_on(head, id));
            assert(assemblies_on(w, id) =~= assemblies_on(v, id).update(
                open_assembly(assemblies_on(v, id), id),
                x,
            ));
        }
    }
}

/// Controllers that answer at the same time do not mix: the payloads of an id
/// are put together from the frames of that id alone, whatever frames of other
/// ids stand between them.
pub proof fn controllers_do_not_mix(frames: Seq<RxView>, id: u32, a: Addressing)
    ensures
        assemblies_on(assembled(frames, a), id) == assembled(frames_on(frames, id), a),
        forall|i: int|
            0 <= i < assembled(frames_on(frames, id), a).len() ==> (#[trigger] assembled(
                frames_on(frames, id),
                a,
            )[i]).id == id,
    decreases frames.len(),
{
    if frames.len() > 0 {
        let head = frames.drop_last();
        let f = frames.last();
        controllers_do_not_mix(head, id, a);
        let v = assembled(head, a);
        let w = assembled(frames, a);
        let mine = assembled(frames_on(head, id), a);
        lemma_open_on(v, f.id);
        if w.len() == v.len() + 1 {
            assert(w.drop_last() =~= v);
        }
        if f.data.len() > 0 && f.data[0] / 16 == 2 && open_assembly(v, f.id) >= 0 {
            let x = extended_by(v[open_assembly(v, f.id)], f.data.skip(1));
            lemma_update_on(v, f.id, id, x);
        }
        if f.id == id {
            assert(frames_on(frames, id).drop_last() =~= frames_on(head, id));
            assert(assemblies_on(v, id) == mine);
            assert(assembled(frames_on(frames, id), a) == absorbed(mine, f, a));
            assert(assemblies_on(w, id) =~= absorbed(mine, f, a));
            lemma_open_on(mine, id);
        }
    }
}

/// A message that is cut into frames stands by itself: whatever came before,
/// even an unfinished message of the same controller, is left as it was, and the
/// message follows it. It is complete exactly when all announced bytes have
/// come.
pub proof fn a_message_stands_by_itself(
    before: Seq<RxView>,
    first: RxView,
    head: Seq<u8>,
    more: Seq<RxView>,
    parts: Seq<Seq<u8>>,
    total: nat,
    a: Addressing,
)
    requires
        first.data.len() == head.len() + 2,
        first.data[0] / 16 == 1,
        (first.data[0] % 16) * 256 + first.data[1] == total,
        first.data.skip(2) == head,
        head.len() < total,
        more.len() == parts.len(),
        forall|i: int|
            0 <= i < more.len() ==> is_consecutive(#[trigger] more[i], first.id, parts[i]),
        parts.len() > 0 ==> (head + flat(parts.drop_last())).len() < total,
    ensures
        assembled(before + seq![first] + more, a) == assembled(before, a).push(
            AssemblyView {
                id: first.id,
                payload: PayloadView {
                    controller: key_of(first.id, a),
                    bytes: if head.len() + flat(parts).len() <= total {
                        head + flat(parts)
                    } else {
                        (head + flat(parts)).take(total as int)
                    },
                },
                total,
                done: head.len() + flat(parts).len() >= total,
            },
        ),
    decreases more.len(),
{
    let all = before + seq![first] + more;
    let v = assembled(before, a);
    if more.len() == 0 {
        assert(all.drop_last() =~= before);
        assert(all.last() == first);
        assert(head + flat(parts) =~= head);
        assert(absorbed(v, first, a) =~= v.push(fresh(first, a, head, total, false)));
    } else {
        let n = more.len() - 1;
        let p = parts.drop_last();
        let most = before + seq![first] + more.drop_last();
        assert(all.drop_last() =~= most);
        assert(all.last() == more.last());
        assert forall|i: int| 0 <= i < more.drop_last().len() implies is_consecutive(
            #[trigger] more.drop_last()[i],
            first.id,
            p[i],
        ) by {
            assert(is_consecutive(more[i], first.id, parts[i]));
        }
        if p.len() > 0 {
            assert(flat(p) == flat(p.drop_last()) + p.last());
        }
        a_message_stands_by_itself(before, first, head, more.drop_last(), p, total, a);
        let open = fresh(first, a, head + flat(p), total, false);
        let w = assembled(most, a);
        assert(w =~= v.push(open));
        assert(w.last() == open);
        assert(is_consecutive(more[n], first.id, parts[n]));
        assert(open_assembly(w, first.id) == w.len() - 1);
        assert(head + flat(p) + parts.last() =~= head + flat(parts));
        let now = extended_by(open, more[n].data.skip(1));
        assert(absorbed(w, more[n], a) == w.update(w.len() - 1, now));
        assert(w.update(w.len() - 1, now) =~= v.push(now));
    }
}

/// A single frame is a whole payload by itself: its first byte says how many of
/// the following bytes count, and padding behind them is left out.
pub proof fn a_single_frame_is_whole(
    before: Seq<RxView>,
    id: u32,
    ts_us: Option<u32>,
    payload: Seq<u8>,
    padding: Seq<u8>,
    a: Addressing,
)
    requires
        1 <= payload.len() <= 15,
    ensures
        assembled(
            before.push(
                RxView { id, ts_us, data: seq![payload.len() as u8] + payload + padding },
            ),
            a,
        ) == assembled(before, a).push(
            AssemblyView {
                id,
                payload: PayloadView { controller: key_of(id, a), bytes: payload },
                total: payload.len(),
                done: true,
            },
        ),
{
    let f = RxView { id, ts_us, data: seq![payload.len() as u8] + payload + padding };
    let all = before.push(f);
    assert(all.drop_last() =~= before);
    assert(f.data[0] == payload.len());
    assert(f.data.subrange(1, 1 + payload.len() as int) =~= payload);
}

/// A single frame that is shorter than it says gives what it holds.
pub proof fn a_short_single_frame_gives_what_it_holds(
    before: Seq<RxView>,
    id: u32,
    ts_us: Option<u32>,
    announced: u8,
    payload: Seq<u8>,
    a: Addressing,
)
    requires
        payload.len() < announced < 16,
    ensures
        ({
            let v = assembled(
                before.push(RxView { id, ts_us, data: seq![announced] + payload }),
                a,
            );
            &&& v.drop_last() == assembled(before, a)
            &&& v.last().id == id && v.last().done && v.last().payload.bytes == payload
        }),
{
    let f = RxView { id, ts_us, data: seq![announced] + payload };
    let all = before.push(f);
    assert(all.drop_last() =~= before);
    assert(f.data[0] == announced);
    assert(f.data.subrange(1, f.data.len() as int) =~= payload);
    assert(assembled(all, a).drop_last() =~= assembled(before, a));
}

/// Frames that carry no payload of their own change nothing: an empty one, flow
/// control, and a consecutive frame of an id without an open message.
pub proof fn noise_is_skipped(before: Seq<RxView>, f: RxView, a: Addressing)
    requires
        f.data.len() == 0 || 0x30 <= f.data[0] <= 0x3F || (0x20 <= f.data[0] <= 0x2F && forall|
            i: int,
        |
            0 <= i < assembled(before, a).len() && (#[trigger] assembled(before, a)[i]).id == f.id
                ==> assembled(before, a)[i].done),
    ensures
        assembled(before.push(f), a) == assembled(before, a),
{
    let v = assembled(before, a);
    assert(before.push(f).drop_last() =~= before);
    lemma_open_on(v, f.id);
    lemma_open_is_open(v, f.id);
}

proof fn lemma_open_is_open(v: Seq<AssemblyView>, id: u32)
    ensures
        open_assembly(v, id) >= 0 ==> !v[open_assembly(v, id)].done && v[open_assembly(v, id)].id
            == id && open_assembly(v, id) < v.len(),
    decreases v.len(),
{
    if v.len() > 0 {
        lemma_open_is_open(v.drop_last(), id);
    }
}

/// A frame without framing passes as it is.
pub proof fn an_unframed_frame_passes(before: Seq<RxView>, f: RxView, a: Addressing)
    requires
        f.data.len() > 0,
        f.data[0] == 0 || f.data[0] >= 0x40 || (f.data.len() == 1 && 0x10 <= f.data[0] <= 0x1F),
    ensures
        assembled(before.push(f), a) == assembled(before, a).push(
            AssemblyView {
                id: f.id,
                payload: PayloadView { controller: key_of(f.id, a), bytes: f.data },
                total: f.data.len(),
                done: true,
            },
        ),
{
    assert(before.push(f).drop_last() =~= before);
}

/// Whether the latest reply of an id is whole rests on the frames of that id
/// alone: it is where the last of its payloads is complete.
pub proof fn wholeness_rests_on_one_id(frames: Seq<RxView>, id: u32, a: Addressing)
    ensures
        is_whole(frames, id, a) == is_whole(frames_on(frames, id), id, a),
        is_whole(frames, id, a) <==> assembled(frames_on(frames, id), a).len() > 0 && assembled(
            frames_on(frames, id),
            a,
        ).last().done,
{
    controllers_do_not_mix(frames, id, a);
    lemma_last_on(assembled(frames, a), id);
    let mine = assembled(frames_on(frames, id), a);
    lemma_last_on(mine, id);
    if mine.len() > 0 {
        assert(mine[mine.len() - 1].id == id);
    }
}

proof fn lemma_last_on(v: Seq<AssemblyView>, id: u32)
    ensures
        last_of(v, id) < v.len(),
        last_of(v, id) < 0 <==> assemblies_on(v, id).len() == 0,
        last_of(v, id) >= 0 ==> v[last_of(v, id)] == assemblies_on(v, id).last(),
    decreases v.len(),
{
    if v.len() > 0 {
        lemma_last_on(v.drop_last(), id);
    }
}

/// A first frame that already holds all announced bytes is whole.
pub proof fn a_first_frame_may_hold_all(
    before: Seq<RxView>,
    first: RxView,
    payload: Seq<u8>,
    padding: Seq<u8>,
    a: Addressing,
)
    requires
        first.data.len() >= 2,
        first.data[0] / 16 == 1,
        (first.data[0] % 16) * 256 + first.data[1] == payload.len(),
        first.data.skip(2) == payload + padding,
    ensures
        assembled(before.push(first), a) == assembled(before, a).push(
            AssemblyView {
                id: first.id,
                payload: PayloadView { controller: key_of(first.id, a), bytes: payload },
                total: payload.len(),
                done: true,
            },
        ),
{
    assert(before.push(first).drop_last() =~= before);
    assert((payload + padding).take(payload.len() as int) =~= payload);
    if padding.len() == 0 {
        assert(payload + padding =~= payload);
    }
}

/// The key of an answering 11-bit controller is its request id: 8 below the id
/// it answers at, 0x400 below in the low range, and the id itself in the request
/// block; of another id, the key is the id.
pub proof fn controller_keys_11bit(id: u32)
    requires
        id <= 0x7FF,
    ensures
        key_of(id, Addressing::Can11) == (if 0x7E8 <= id <= 0x7EF || 0x708 <= id <= 0x7DF {
            text::hex_padded((id - 8) as nat, 2)
        } else if 0x641 <= id <= 0x65F {
            text::hex_padded((id - 0x400) as nat, 2)
        } else if 0x7E0 <= id <= 0x7E7 {
            text::hex_padded(id as nat, 2)
        } else {
            text::hex_padded(id as nat, 3)
        }),
{
    let t = id_tokens(id);
    addressing::who_answers_11bit(id as u16, t);
    assert(t =~= seq![text::hex_padded(id as nat, 3)]);
    assert(concat_all(t) == t[0]);
}

/// The key of an answering 29-bit controller is the last byte of its id, where
/// the id is physical and addressed to the tester.
#[verifier::rlimit(60)]
#[verifier::spinoff_prover]
pub proof fn controller_keys_29bit(tester: u8, priority: u8, from: u8)
    requires
        0 < priority,
    ensures
        key_of(
            (0x1000000 * priority + 0xDA0000 + 0x100 * tester + from) as u32,
            Addressing::Can29 { tester },
        ) == text::hex_padded(from as nat, 2),
{
    let id = (0x1000000 * priority + 0xDA0000 + 0x100 * tester + from) as u32;
    bytes::four_bytes_make_a_number(priority, 0xDA, tester, from);
    assert(id > 0x7FF);
    assert(bytes::be_bytes(id) == seq![priority, 0xDAu8, tester, from]);
    addressing::who_answers_29bit(tester, priority, 0xDA, tester, from);
    assert(id_tokens(id) =~= seq![
        text::hex_padded(priority as nat, 2),
        text::hex_padded(0xDA, 2),
        text::hex_padded(tester as nat, 2),
        text::hex_padded(from as nat, 2),
    ]);
}

/// A pid that is written in digits stays as it is, and has its echo.
pub proof fn lemma_echo_pids(h: u8, l: u8)
    ensures
        plain_echo(text::upper("01"@ + text::hex_padded(h as nat, 2))) == Some(seq![0x41u8, h]),
        plain_echo(
            text::upper("22"@ + text::hex_padded(h as nat, 2) + text::hex_padded(l as nat, 2)),
        ) == Some(seq![0x62u8, h, l]),
{
    reveal_strlit("01");
    reveal_strlit("22");
    let x = text::hex_padded(h as nat, 2);
    let y = text::hex_padded(l as nat, 2);
    addressing::lemma_byte_width(h as nat);
    addressing::lemma_byte_width(l as nat);
    addressing::lemma_hex_is_plain(h as nat, 2);
    addressing::lemma_hex_is_plain(l as nat, 2);
    let c = "01"@ + x;
    let e = "22"@ + x + y;
    assert forall|i: int| 0 <= i < c.len() implies ('0' <= #[trigger] c[i] <= '9') || ('A' <= c[i]
        <= 'F') by {
        if 2 <= i {
            assert(c[i] == x[i - 2]);
        }
    }
    assert forall|i: int| 0 <= i < e.len() implies ('0' <= #[trigger] e[i] <= '9') || ('A' <= e[i]
        <= 'F') by {
        if 2 <= i < 4 {
            assert(e[i] == x[i - 2]);
        } else if 4 <= i {
            assert(e[i] == y[i - 4]);
        }
    }
    addressing::lemma_plain_is_normal(c);
    addressing::lemma_plain_is_normal(e);
    assert(text::upper(c) =~= c);
    assert(text::upper(e) =~= e);
    assert(c.take(2) =~= "01"@);
    assert(c.subrange(2, 4) =~= x);
    assert(e.take(2) =~= "22"@);
    assert(e.subrange(2, 4) =~= x);
    assert(e.subrange(4, 6) =~= y);
}

/// The positive reply to a mode echoes the mode plus 0x40 and the identifier,
/// for every identifier of mode 01 and of mode 22.
pub proof fn an_echo_is_mode_and_identifier(h: u8, l: u8)
    ensures
        echo_of("01"@ + text::hex_padded(h as nat, 2)) == Some(seq![(0x01 + 0x40) as u8, h]),
        echo_of("22"@ + text::hex_padded(h as nat, 2) + text::hex_padded(l as nat, 2)) == Some(
            seq![(0x22 + 0x40) as u8, h, l],
        ),
{
    reveal_strlit("01");
    reveal_strlit("22");
    let x = text::hex_padded(h as nat, 2);
    let y = text::hex_padded(l as nat, 2);
    addressing::lemma_byte_width(h as nat);
    addressing::lemma_byte_width(l as nat);
    addressing::lemma_hex_is_plain(h as nat, 2);
    addressing::lemma_hex_is_plain(l as nat, 2);
    let c = "01"@ + x;
    let e = "22"@ + x + y;
    assert forall|i: int| 0 <= i < c.len() implies ('0' <= #[trigger] c[i] <= '9') || ('A' <= c[i]
        <= 'F') by {
        if 2 <= i {
            assert(c[i] == x[i - 2]);
        }
    }
    assert forall|i: int| 0 <= i < e.len() implies ('0' <= #[trigger] e[i] <= '9') || ('A' <= e[i]
        <= 'F') by {
        if 2 <= i < 4 {
            assert(e[i] == x[i - 2]);
        } else if 4 <= i {
            assert(e[i] == y[i - 4]);
        }
    }
    addressing::lemma_plain_is_normal(c);
    addressing::lemma_plain_is_normal(e);
    lemma_plain_has_no_separator(c);
    lemma_plain_has_no_separator(e);
    assert(c.take(2) =~= "01"@);
    assert(c.subrange(2, 4) =~= x);
    assert(e.take(2) =~= "22"@);
    assert(e.subrange(2, 4) =~= x);
    assert(e.subrange(4, 6) =~= y);
}

/// Only single requests have an echo: one of four digits an echo of two bytes,
/// one of six digits an echo of three; several requests in one command, and
/// anything else, have none. A reply names a command exactly where it is
/// positive and its identifier is whole.
pub proof fn only_single_requests_have_an_echo(command: Seq<char>, payload: Seq<u8>)
    ensures
        ({
            let c = text::upper(text::trim(command));
            &&& echo_of(command) is Some ==> c.len() == 2 * echo_of(command)->0.len()
            &&& echo_of(command) is Some ==> 2 <= echo_of(command)->0.len() <= 3
            &&& c.contains('|') || c.contains(' ') ==> echo_of(command) is None
        }),
        command_of_reply(payload) is Some <==> (payload.len() >= 2 && payload[0] == 0x41) || (
        payload.len() >= 3 && payload[0] == 0x62),
{
}

/// 29-bit: the answer to a physical request comes with the same priority, and
/// target and source in each other's place.
#[verifier::rlimit(60)]
#[verifier::spinoff_prover]
pub proof fn response_id_29bit(priority: u8, to: u8, from: u8)
    ensures
        response_id_of(
            (0x1000000 * priority + 0xDA0000 + 0x100 * to + from) as u32,
            true,
        ) == 0x1000000 * priority + 0xDA0000 + 0x100 * from + to,
{
    let id = (0x1000000 * priority + 0xDA0000 + 0x100 * to + from) as u32;
    let p = text::hex_padded(priority as nat, 2);
    let d = text::hex_padded(0xDA, 2);
    let x = text::hex_padded(to as nat, 2);
    let y = text::hex_padded(from as nat, 2);
    let a2: nat = 0x100 * priority as nat + 0xDA;
    let a3: nat = 0x100 * a2 + to as nat;
    text::lemma_hex_behind(priority as nat, 2, 0xDA);
    text::lemma_hex_behind(a2, 4, to as nat);
    text::lemma_hex_behind(a3, 6, from as nat);
    assert(id == 0x100 * a3 + from);
    let h = id_header(id, true);
    assert(h == p + d + x + y);
    addressing::lemma_hex_is_plain(id as nat, 8);
    addressing::lemma_plain_is_normal(h);
    addressing::where_the_answer_comes(priority, to, from, 0);
    let r = p + d + y + x;
    let b3: nat = 0x100 * a2 + from as nat;
    text::lemma_hex_behind(a2, 4, from as nat);
    text::lemma_hex_behind(b3, 6, to as nat);
    let n: nat = 0x100 * b3 + to as nat;
    assert(r == text::hex_padded(n, 8));
    text::hex_reads_back(n, 8);
}

/// Pids that share a mode and were joined into one wire are the pids that the
/// wire carries, in the same order: two digits each behind the mode, four in
/// mode 22.
#[verifier::rlimit(60)]
#[verifier::spinoff_prover]
pub proof fn joined_pids_are_carried(members: Seq<Seq<char>>, mode: Seq<char>)
    requires
        members.len() > 0,
        mode.len() == 2,
        forall|i: int|
            0 <= i < members.len() ==> (#[trigger] members[i]).take(2) == mode
                && addressing::plain_header(members[i]) && members[i].len() == (if mode == "22"@ {
                6int
            } else {
                4
            }),
    ensures
        wire_pids(elm::chunk_wire(members)) == members,
{
    reveal_strlit("22");
    let w: int = if mode == "22"@ {
        4
    } else {
        2
    };
    let c = elm::chunk_wire(members);
    let n = members.len() as int;
    let rest = elm::suffixes(members, mode);
    lemma_suffix_parts(members, mode, w);
    let m0 = members[0];
    assert(m0.take(2)[0] == m0[0] && m0.take(2)[1] == m0[1]);
    assert(elm::mode_chars(m0) == Some(2int));
    if members.len() == 1 {
        assert(rest =~= m0.skip(2)) by {
            assert(rest.subrange(0 * w, (0 + 1) * w) == m0.skip(2));
            assert(rest.len() == w);
            assert(rest.subrange(0, w) =~= rest);
        }
        assert(m0 =~= mode + rest);
    }
    assert(c == mode + rest);
    assert(c.take(2) =~= mode);
    assert(c.skip(2) =~= rest);
    assert forall|i: int| 0 <= i < c.len() implies ('0' <= #[trigger] c[i] <= '9') || ('A' <= c[i]
        <= 'F') by {
        if i < 2 {
            assert(c[i] == m0.take(2)[i]);
            assert(c[i] == m0[i]);
        } else {
            assert(c[i] == rest[i - 2]);
        }
    }
    addressing::lemma_plain_is_normal(c);
    assert((n * w) % w == 0 && (n * w) / w == n) by (nonlinear_arith)
        requires
            w == 2 || w == 4,
    ;
    assert(n * w >= w) by (nonlinear_arith)
        requires
            n >= 1,
            w == 2 || w == 4,
    ;
    let got = wire_pids(c);
    assert(got.len() == n);
    assert forall|i: int| 0 <= i < n implies #[trigger] got[i] == members[i] by {
        assert(got[i] == wire_member(mode, rest, w, i));
        assert(rest.subrange(i * w, (i + 1) * w) == members[i].skip(2));
        assert(mode + members[i].skip(2) =~= members[i]);
    }
    assert(got =~= members);
}

/// A joined wire of plain members is plain.
pub proof fn lemma_joined_is_plain(members: Seq<Seq<char>>, mode: Seq<char>)
    requires
        members.len() > 0,
        mode.len() == 2,
        forall|i: int|
            0 <= i < members.len() ==> (#[trigger] members[i]).take(2) == mode
                && addressing::plain_header(members[i]) && members[i].len() == (if mode == "22"@ {
                6int
            } else {
                4
            }),
    ensures
        addressing::plain_header(elm::chunk_wire(members)),
{
    let m0 = members[0];
    let c = elm::chunk_wire(members);
    if members.len() > 1 {
        let w: int = if mode == "22"@ {
            4
        } else {
            2
        };
        lemma_suffix_parts(members, mode, w);
        assert(m0.take(2)[0] == m0[0] && m0.take(2)[1] == m0[1]);
        assert(elm::mode_chars(m0) == Some(2int));
        let rest = elm::suffixes(members, mode);
        assert(c == mode + rest);
        assert forall|i: int| 0 <= i < c.len() implies ('0' <= #[trigger] c[i] <= '9') || ('A'
            <= c[i] <= 'F') by {
            if i < 2 {
                assert(c[i] == m0.take(2)[i]);
                assert(c[i] == m0[i]);
            } else {
                assert(c[i] == rest[i - 2]);
            }
        }
    }
}

proof fn lemma_suffix_parts(members: Seq<Seq<char>>, mode: Seq<char>, w: int)
    requires
        mode.len() == 2,
        w == 2 || w == 4,
        forall|i: int|
            0 <= i < members.len() ==> (#[trigger] members[i]).take(2) == mode
                && addressing::plain_header(members[i]) && members[i].len() == 2 + w,
    ensures
        elm::suffixes(members, mode).len() == members.len() * w,
        addressing::plain_header(elm::suffixes(members, mode)),
        forall|i: int|
            0 <= i < members.len() ==> elm::suffixes(members, mode).subrange(i * w, (i + 1) * w)
                == (#[trigger] members[i]).skip(2),
    decreases members.len(),
{
    let n = members.len() as int;
    if n == 0 {
        assert(0 * w == 0) by (nonlinear_arith);
    } else {
        let head = members.drop_last();
        let last = members.last();
        assert(last == members[n - 1]);
        assert forall|i: int| 0 <= i < head.len() implies (#[trigger] head[i]).take(2) == mode
            && addressing::plain_header(head[i]) && head[i].len() == 2 + w by {
            assert(head[i] == members[i]);
        }
        lemma_suffix_parts(head, mode, w);
        let before = elm::suffixes(head, mode);
        let all = elm::suffixes(members, mode);
        assert(n * w == (n - 1) * w + w) by (nonlinear_arith);
        assert(all == before + last.skip(2));
        assert forall|i: int| 0 <= i < all.len() implies ('0' <= #[trigger] all[i] <= '9') || ('A'
            <= all[i] <= 'F') by {
            if i < before.len() {
                assert(all[i] == before[i]);
            } else {
                assert(all[i] == last[i - before.len() + 2]);
            }
        }
        assert forall|i: int| 0 <= i < n implies all.subrange(i * w, (i + 1) * w) == (
        #[trigger] members[i]).skip(2) by {
            assert((i + 1) * w == i * w + w) by (nonlinear_arith);
            assert(0 <= i * w) by (nonlinear_arith)
                requires
                    0 <= i,
                    w > 0,
            ;
            if i < n - 1 {
                assert((i + 1) * w <= (n - 1) * w) by (nonlinear_arith)
                    requires
                        i + 1 <= n - 1,
                        w > 0,
                ;
                assert(head[i] == members[i]);
                assert(all.subrange(i * w, (i + 1) * w) =~= before.subrange(i * w, (i + 1) * w));
            } else {
                assert(all.subrange(i * w, (i + 1) * w) =~= last.skip(2));
            }
        }
    }
}

/// A frame on display is its header and its bytes, one word each: a reader of
/// words gets them back.
pub proof fn a_rendered_frame_is_read_back(f: RxView)
    ensures
        text::words(rendered(f)) == id_tokens(f.id) + Seq::new(
            f.data.len(),
            |i: int| text::hex_padded(f.data[i] as nat, 2),
        ),
{
    let t = id_tokens(f.id);
    let w = t + Seq::new(f.data.len(), |i: int| text::hex_padded(f.data[i] as nat, 2));
    lemma_rendered_words(f.id, f.data);
    assert forall|i: int| 0 <= i < w.len() implies text::is_word(#[trigger] w[i]) by {
        if i < t.len() {
            if f.id > 0x7FF {
                let b = bytes::be_bytes(f.id);
                text::lemma_hex_is_a_word(b[i] as nat, 2);
            } else {
                text::lemma_hex_is_a_word(f.id as nat, 3);
            }
        } else {
            text::lemma_hex_is_a_word(f.data[i - t.len()] as nat, 2);
        }
    }
    text::spaced_words_are_read_back(w);
}

proof fn lemma_rendered_words(id: u32, data: Seq<u8>)
    ensures
        text::join(id_tokens(id), " "@) + spaced_hex(data) == text::join(
            id_tokens(id) + Seq::new(data.len(), |i: int| text::hex_padded(data[i] as nat, 2)),
            " "@,
        ),
    decreases data.len(),
{
    reveal_strlit(" ");
    let t = id_tokens(id);
    let w = t + Seq::new(data.len(), |i: int| text::hex_padded(data[i] as nat, 2));
    if data.len() == 0 {
        assert(w =~= t);
        assert(text::join(t, " "@) + spaced_hex(data) =~= text::join(t, " "@));
    } else {
        let head = data.drop_last();
        lemma_rendered_words(id, head);
        let v = t + Seq::new(head.len(), |i: int| text::hex_padded(head[i] as nat, 2));
        assert(w.drop_last() =~= v);
        let x = text::hex_padded(data.last() as nat, 2);
        assert(w.last() == x);
        assert(text::join(w, " "@) == text::join(v, " "@) + " "@ + x);
        assert(text::join(t, " "@) + spaced_hex(data) =~= text::join(v, " "@) + " "@ + x);
    }
}

/// The response bytes of a frame stand behind its framing: one byte of a single
/// frame, two of a first frame, none of any other.
pub proof fn where_the_response_begins(first: u8, second: u8, payload: Seq<u8>)
    ensures
        first < 16 ==> response_part(seq![first] + payload) == payload,
        16 <= first < 32 ==> response_part(seq![first, second] + payload) == payload,
        first >= 32 ==> response_part(seq![first] + payload) == seq![first] + payload,
        response_part(Seq::empty()).len() == 0,
{
    assert((seq![first] + payload).skip(1) =~= payload);
    assert((seq![first, second] + payload).skip(2) =~= payload);
}

/// A reply can come from the eight standard 11-bit ids and from any physical
/// 29-bit id of normal priority; from no other.
pub proof fn which_ids_can_reply(id: u32)
    ensures
        can_respond(id) <==> id == 0x7E8 || id == 0x7E9 || id == 0x7EA || id == 0x7EB || id == 0x7EC
            || id == 0x7ED || id == 0x7EE || id == 0x7EF || 0x18DA0000 <= id <= 0x18DAFFFF,
{
}

} // verus!
