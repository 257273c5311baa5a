//! Learned data lengths of pids, per vehicle.
//!
//! Every plain single-pid reply delimits itself, and its observed length is
//! recorded here. Only pids with a confirmed length are batched; one without
//! rides alone, which is also how a stale entry heals after it was invalidated.
use crate::json;
use crate::link::dvi::framing;
use crate::link;
use crate::link::{Payload, PayloadView};
use crate::table::Table;
use crate::text;
use vstd::prelude::*;

verus! {

/// The learned lengths, by pid in upper case.
pub struct LengthCache {
    lengths: Table<u8>,
}

impl View for LengthCache {
    type V = Map<Seq<char>, u8>;

    closed spec fn view(&self) -> Map<Seq<char>, u8> {
        self.lengths@
    }
}

/// The length that a map holds for a pid.
pub open spec fn learned(m: Map<Seq<char>, u8>, pid: Seq<char>) -> Option<u8> {
    if m.contains_key(text::upper(pid)) {
        Some(m[text::upper(pid)])
    } else {
        None
    }
}

/// What a stored text says; an unreadable text says nothing.
pub open spec fn stored(data: Option<Seq<char>>) -> Map<Seq<char>, u8> {
    match data {
        Some(s) => match json::byte_map_of(s) {
            Ok(m) => m,
            Err(_) => Map::empty(),
        },
        None => Map::empty(),
    }
}

impl LengthCache {
    /// Nothing is learned.
    pub fn new() -> (r: Self)
        ensures
            r@ == Map::<Seq<char>, u8>::empty(),
    {
        LengthCache { lengths: Table::new() }
    }

    /// Takes over what is stored for a vehicle; what was learned on another is
    /// forgotten.
    pub fn load(&mut self, data: Option<&str>)
        ensures
            final(self)@ == stored(
                match data {
                    Some(s) => Some(s@),
                    None => None,
                },
            ),
    {
        self.lengths = Table::new();
        if let Some(s) = data {
            if let Ok(rows) = json::byte_map(s) {
                self.lengths = Table { rows };
            }
        }
    }

    /// The learned lengths as they are stored.
    pub fn save(&self) -> (r: Option<String>)
        ensures
            r matches Some(s) && stored(Some(s@)) == self@,
    {
        json::byte_map_text(&self.lengths.rows)
    }

    /// The name of the file that holds the lengths of a vehicle.
    pub fn file_name(vin: &str) -> (r: String)
        ensures
            r@ == vin@ + ".lengths"@,
    {
        text::concat(vin, ".lengths")
    }

    /// The confirmed length of a pid, where it was observed.
    pub fn get(&self, pid: &str) -> (r: Option<u8>)
        ensures
            r == learned(self@, pid@),
    {
        let key = text::to_upper(pid);
        match self.lengths.get(key.as_str()) {
            Some(n) => Some(*n),
            None => None,
        }
    }

    /// Fills a hole with a derived length; an observation always wins. Whether
    /// something has changed.
    pub fn seed(&mut self, pid: &str, len: u8) -> (r: bool)
        ensures
            r == !old(self)@.contains_key(text::upper(pid@)),
            final(self)@ == (if old(self)@.contains_key(text::upper(pid@)) {
                old(self)@
            } else {
                old(self)@.insert(text::upper(pid@), len)
            }),
    {
        let key = text::to_upper(pid);
        if self.lengths.has(key.as_str()) {
            return false;
        }
        self.lengths.insert(key, len);
        true
    }

    /// Records an observation; the last one counts. Whether something has
    /// changed.
    pub fn record(&mut self, pid: &str, len: u8) -> (r: bool)
        ensures
            r == (learned(old(self)@, pid@) != Some(len)),
            final(self)@ == old(self)@.insert(text::upper(pid@), len),
    {
        let key = text::to_upper(pid);
        let same = match self.lengths.get(key.as_str()) {
            Some(n) => *n == len,
            None => false,
        };
        if same {
            assert(self@.insert(text::upper(pid@), len) =~= self@);
            return false;
        }
        self.lengths.insert(key, len);
        true
    }

    /// Drops a length that turned out wrong; the pid rides alone until it is
    /// observed again. Whether something has changed.
    pub fn invalidate(&mut self, pid: &str) -> (r: bool)
        ensures
            r == old(self)@.contains_key(text::upper(pid@)),
            final(self)@ == old(self)@.remove(text::upper(pid@)),
    {
        let key = text::to_upper(pid);
        self.lengths.remove(key.as_str()).is_some()
    }
}

impl Default for LengthCache {
    fn default() -> (r: Self)
        ensures
            r@ == Map::<Seq<char>, u8>::empty(),
    {
        LengthCache::new()
    }
}

/// Whether `s` opens with `p`.
pub open spec fn opens_with(s: Seq<u8>, p: Seq<u8>) -> bool {
    p.len() <= s.len() && s.take(p.len() as int) == p
}

/// The first payload that opens with an echo.
pub open spec fn first_echoing(v: Seq<PayloadView>, echo: Seq<u8>) -> Option<PayloadView>
    decreases v.len(),
{
    if v.len() == 0 {
        None
    } else if opens_with(v[0].bytes, echo) {
        Some(v[0])
    } else {
        first_echoing(v.skip(1), echo)
    }
}

/// The length that payloads teach for a pid.
pub open spec fn taught(pid: Seq<char>, payloads: Seq<PayloadView>) -> Option<u8> {
    match framing::plain_echo(text::upper(pid)) {
        None => None,
        Some(echo) => match first_echoing(payloads, echo) {
            None => None,
            Some(p) => {
                let n = p.bytes.len() - echo.len();
                if n == 0 || n > 255 {
                    None
                } else {
                    Some(n as u8)
                }
            },
        },
    }
}

fn bytes_open_with(s: &[u8], p: &[u8]) -> (r: bool)
    ensures
        r == opens_with(s@, p@),
{
    if s.len() < p.len() {
        return false;
    }
    let head = vstd::slice::slice_subrange(s, 0, p.len());
    assert(head@ =~= s@.take(p@.len() as int));
    crate::bytes::equal(head, p)
}

/// The data length of a plain pid as its reply shows it: the first controller
/// whose payload opens with the pid's echo, and the bytes behind it. Nothing is
/// learned from no data, a negative response, another echo, other modes, or a
/// pid with a suffix or a pipe.
pub fn observed_len(pid: &str, payloads: &[Payload]) -> (r: Option<u8>)
    ensures
        r == taught(pid@, link::payload_views(payloads@)),
{
    let u = text::to_upper(pid);
    let echo = match framing::echo_of_plain(u.as_str()) {
        Some(e) => e,
        None => {
            return None;
        },
    };
    let ghost all = link::payload_views(payloads@);
    let mut i: usize = 0;
    assert(all.skip(0) =~= all);
    while i < payloads.len()
        invariant
            i <= payloads@.len(),
            all == link::payload_views(payloads@),
            framing::plain_echo(text::upper(pid@)) == Some(echo@),
            first_echoing(all, echo@) == first_echoing(all.skip(i as int), echo@),
        decreases payloads@.len() - i,
    {
        assert(all.skip(i as int)[0] == payloads@[i as int]@);
        assert(all.skip(i as int).skip(1) =~= all.skip(i + 1));
        let b = payloads[i].bytes.as_slice();
        if bytes_open_with(b, echo.as_slice()) {
            let n: usize = b.len() - echo.len();
            if n == 0 || n > 255 {
                return None;
            }
            return Some(n as u8);
        }
        i += 1;
    }
    None
}

// ---- laws ----

/// What was recorded is read back, under any case of the pid; other pids keep
/// what they had.
pub proof fn recorded_is_read_back(m: Map<Seq<char>, u8>, pid: Seq<char>, len: u8, other: Seq<char>)
    ensures
        learned(m.insert(text::upper(pid), len), pid) == Some(len),
        text::upper(other) != text::upper(pid) ==> learned(m.insert(text::upper(pid), len), other)
            == learned(m, other),
{
}

/// A pid whose length was invalidated is unknown until it is recorded again.
pub proof fn invalidated_is_unknown(m: Map<Seq<char>, u8>, pid: Seq<char>)
    ensures
        learned(m.remove(text::upper(pid)), pid) is None,
{
}

/// A length that is learned is between one and 255 bytes.
pub proof fn taught_is_a_length(pid: Seq<char>, payloads: Seq<PayloadView>)
    ensures
        taught(pid, payloads) matches Some(n) ==> 1 <= n,
{
    match framing::plain_echo(text::upper(pid)) {
        Some(echo) => lemma_first_echoes(payloads, echo),
        None => {},
    }
}

proof fn lemma_first_echoes(v: Seq<PayloadView>, echo: Seq<u8>)
    ensures
        first_echoing(v, echo) matches Some(p) ==> opens_with(p.bytes, echo),
    decreases v.len(),
{
    if v.len() > 0 && !opens_with(v[0].bytes, echo) {
        lemma_first_echoes(v.skip(1), echo);
    }
}

/// Every vehicle has a file of its own for its lengths.
pub proof fn vehicles_have_lengths_of_their_own(a: Seq<char>, b: Seq<char>)
    requires
        a != b,
    ensures
        a + ".lengths"@ != b + ".lengths"@,
{
    text::lemma_same_tail(a, b, ".lengths"@);
}

/// The first payload that opens with the echo teaches the number of bytes
/// behind it; payloads before it that do not are passed over.
pub proof fn the_bytes_behind_the_echo_are_counted(
    pid: Seq<char>,
    echo: Seq<u8>,
    before: Seq<PayloadView>,
    controller: Seq<char>,
    data: Seq<u8>,
    after: Seq<PayloadView>,
)
    requires
        framing::plain_echo(text::upper(pid)) == Some(echo),
        echo.len() > 0,
        forall|i: int|
            0 <= i < before.len() ==> (#[trigger] before[i]).bytes.len() == 0 || before[i].bytes[0]
                != echo[0],
    ensures
        ({
            let p = PayloadView { controller, bytes: echo + data };
            let all = before + seq![p] + after;
            &&& 1 <= data.len() <= 255 ==> taught(pid, all) == Some(data.len() as u8)
            &&& data.len() == 0 ==> taught(pid, all) is None
            &&& data.len() > 255 ==> taught(pid, all) is None
            &&& taught(pid, before) is None
        }),
    decreases before.len(),
{
    let p = PayloadView { controller, bytes: echo + data };
    let all = before + seq![p] + after;
    assert((echo + data).take(echo.len() as int) =~= echo);
    if before.len() == 0 {
        assert(all[0] == p);
    } else {
        let rest = before.skip(1);
        assert(all[0] == before[0]);
        if opens_with(before[0].bytes, echo) {
            assert(before[0].bytes.take(echo.len() as int)[0] == before[0].bytes[0]);
        }
        assert(all.skip(1) =~= rest + seq![p] + after);
        assert forall|i: int| 0 <= i < rest.len() implies (#[trigger] rest[i]).bytes.len() == 0
            || rest[i].bytes[0] != echo[0] by {
            assert(rest[i] == before[i + 1]);
        }
        the_bytes_behind_the_echo_are_counted(pid, echo, rest, controller, data, after);
    }
}

/// A reply to mode 01 teaches how many bytes follow the mode and the pid, one
/// to mode 22 how many follow the mode and both bytes of the identifier.
pub proof fn a_reply_teaches_its_length(h: u8, l: u8, controller: Seq<char>, data: Seq<u8>)
    requires
        1 <= data.len() <= 255,
    ensures
        taught(
            "01"@ + text::hex_padded(h as nat, 2),
            seq![PayloadView { controller, bytes: seq![0x41u8, h] + data }],
        ) == Some(data.len() as u8),
        taught(
            "22"@ + text::hex_padded(h as nat, 2) + text::hex_padded(l as nat, 2),
            seq![PayloadView { controller, bytes: seq![0x62u8, h, l] + data }],
        ) == Some(data.len() as u8),
{
    let a = "01"@ + text::hex_padded(h as nat, 2);
    let b = "22"@ + text::hex_padded(h as nat, 2) + text::hex_padded(l as nat, 2);
    let none = Seq::<PayloadView>::empty();
    framing::an_echo_is_mode_and_identifier(h, l);
    framing::lemma_echo_pids(h, l);
    let p = PayloadView { controller, bytes: seq![0x41u8, h] + data };
    let q = PayloadView { controller, bytes: seq![0x62u8, h, l] + data };
    the_bytes_behind_the_echo_are_counted(a, seq![0x41u8, h], none, controller, data, none);
    the_bytes_behind_the_echo_are_counted(b, seq![0x62u8, h, l], none, controller, data, none);
    assert(none + seq![p] + none =~= seq![p]);
    assert(none + seq![q] + none =~= seq![q]);
}

} // verus!
