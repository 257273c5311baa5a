//! Periodic streaming over UDS: packing signals into periodic identifiers and
//! decoding the frames that carry them. Everything platform-specific is data.
use crate::json;
use crate::text;
use std::collections::HashMap;
use vstd::prelude::*;

verus! {

broadcast use vstd::std_specs::hash::group_hash_axioms;

/// Data bytes per periodic slot: a frame of eight without the identifier byte.
pub const SLOT_DATA_BYTES: usize = 7;

/// The streaming parameters of one platform.
#[derive(Debug, Clone, PartialEq)]
pub struct StreamProfile {
    pub name: String,
    /// Target controller of the requests.
    pub target: String,
    /// The ids that periodic frames arrive on.
    pub response_ids: Vec<String>,
    /// Periodic identifiers that are available.
    pub slot_count: usize,
    /// Transmission mode byte: slow, medium or fast.
    pub rate_mode: u8,
    pub keepalive_interval_ms: u64,
    /// Time to settle after a keepalive.
    pub keepalive_settle_ms: u64,
}

/// A profile as a mathematical value.
#[verifier::ext_equal]
pub struct ProfileView {
    pub name: Seq<char>,
    pub target: Seq<char>,
    pub response_ids: Seq<Seq<char>>,
    pub slot_count: nat,
    pub rate_mode: u8,
    pub keepalive_interval_ms: u64,
    pub keepalive_settle_ms: u64,
}

impl View for StreamProfile {
    type V = ProfileView;

    open spec fn view(&self) -> ProfileView {
        ProfileView {
            name: self.name@,
            target: self.target@,
            response_ids: text::views(self.response_ids@),
            slot_count: self.slot_count as nat,
            rate_mode: self.rate_mode,
            keepalive_interval_ms: self.keepalive_interval_ms,
            keepalive_settle_ms: self.keepalive_settle_ms,
        }
    }
}

// ---- profiles ----

/// The fields of a profile entry as they stand in the file: nothing where a
/// field is missing or of another type.
pub struct RawProfile {
    pub name: Option<String>,
    pub target: Option<String>,
    /// The strings of the list.
    pub response_ids: Option<Vec<String>>,
    pub slot_count: Option<u64>,
    pub periodic_rate: Option<String>,
    pub keepalive_interval_ms: Option<u64>,
    pub keepalive_settle_ms: Option<u64>,
}

/// The fields of an entry as a mathematical value.
#[verifier::ext_equal]
pub struct RawView {
    pub name: Option<Seq<char>>,
    pub target: Option<Seq<char>>,
    pub response_ids: Option<Seq<Seq<char>>>,
    pub slot_count: Option<u64>,
    pub periodic_rate: Option<Seq<char>>,
    pub keepalive_interval_ms: Option<u64>,
    pub keepalive_settle_ms: Option<u64>,
}

impl View for RawProfile {
    type V = RawView;

    open spec fn view(&self) -> RawView {
        RawView {
            name: text::opt(self.name),
            target: text::opt(self.target),
            response_ids: match self.response_ids {
                Some(v) => Some(text::views(v@)),
                None => None,
            },
            slot_count: self.slot_count,
            periodic_rate: text::opt(self.periodic_rate),
            keepalive_interval_ms: self.keepalive_interval_ms,
            keepalive_settle_ms: self.keepalive_settle_ms,
        }
    }
}

/// Ids trimmed and in upper case, empty ones left out.
pub open spec fn clean_ids(ids: Seq<Seq<char>>) -> Seq<Seq<char>>
    decreases ids.len(),
{
    if ids.len() == 0 {
        ids
    } else {
        let id = text::upper(text::trim(ids.last()));
        if id.len() == 0 {
            clean_ids(ids.drop_last())
        } else {
            clean_ids(ids.drop_last()).push(id)
        }
    }
}

/// The mode byte of a rate word; fast where none is given.
pub open spec fn rate_of(word: Option<Seq<char>>) -> Option<u8> {
    match word {
        None => Some(0x03),
        Some(w) => if w == "slow"@ {
            Some(0x01)
        } else if w == "medium"@ {
            Some(0x02)
        } else if w == "fast"@ {
            Some(0x03)
        } else {
            None
        },
    }
}

/// The profile of an entry; nothing where the entry is malformed.
pub open spec fn profile_of(raw: RawView) -> Option<ProfileView> {
    if raw.name is None || raw.target is None || raw.response_ids is None || raw.slot_count is None {
        None
    } else {
        let ids = clean_ids(raw.response_ids->0);
        let slots = raw.slot_count->0;
        if ids.len() == 0 || slots == 0 || slots > 256 || rate_of(raw.periodic_rate) is None {
            None
        } else {
            Some(
                ProfileView {
                    name: raw.name->0,
                    target: text::upper(raw.target->0),
                    response_ids: ids,
                    slot_count: slots as nat,
                    rate_mode: rate_of(raw.periodic_rate)->0,
                    keepalive_interval_ms: match raw.keepalive_interval_ms {
                        Some(n) => n,
                        None => 4000,
                    },
                    keepalive_settle_ms: match raw.keepalive_settle_ms {
                        Some(n) => n,
                        None => 200,
                    },
                },
            )
        }
    }
}

fn clean_id_list(ids: &Vec<String>) -> (r: Vec<String>)
    ensures
        text::views(r@) == clean_ids(text::views(ids@)),
{
    let ghost all = text::views(ids@);
    let mut out: Vec<String> = Vec::new();
    let mut i: usize = 0;
    assert(text::views(out@) =~= clean_ids(all.take(0)));
    while i < ids.len()
        invariant
            i <= ids@.len(),
            all == text::views(ids@),
            text::views(out@) == clean_ids(all.take(i as int)),
        decreases ids@.len() - i,
    {
        assert(all.take(i + 1).drop_last() =~= all.take(i as int));
        assert(all.take(i + 1).last() == ids@[i as int]@);
        let t = text::trim_text(ids[i].as_str(), text::Blank::White);
        let id = text::to_upper(t.as_str());
        let ghost before = text::views(out@);
        if !id.as_str().is_empty() {
            let ghost v = id@;
            out.push(id);
            assert(text::views(out@) =~= before.push(v));
        }
        i += 1;
    }
    assert(all.take(i as int) =~= all);
    out
}

impl StreamProfile {
    /// The profile of an entry; a malformed entry gives nothing, so that its
    /// platform falls back to polling. A profile has at least one slot, and no
    /// more than one byte can name.
    pub fn from_raw(raw: RawProfile) -> (r: Option<StreamProfile>)
        ensures
            r is Some <==> profile_of(raw@) is Some,
            r matches Some(p) ==> profile_of(raw@) == Some(p@),
            r matches Some(p) ==> 1 <= p.slot_count <= 256,
    {
        match (raw.name, raw.target, raw.response_ids, raw.slot_count) {
            (Some(name), Some(target), Some(ids), Some(slots)) => {
                let response_ids = clean_id_list(&ids);
                assert(text::views(response_ids@).len() == response_ids@.len());
                if response_ids.len() == 0 || slots == 0 || slots > 256 {
                    return None;
                }
                let rate_mode: u8 = match &raw.periodic_rate {
                    None => 0x03,
                    Some(w) => if text::same(w.as_str(), "slow") {
                        0x01
                    } else if text::same(w.as_str(), "medium") {
                        0x02
                    } else if text::same(w.as_str(), "fast") {
                        0x03
                    } else {
                        return None;
                    },
                };
                Some(
                    StreamProfile {
                        name,
                        target: text::to_upper(target.as_str()),
                        response_ids,
                        slot_count: slots as usize,
                        rate_mode,
                        keepalive_interval_ms: match raw.keepalive_interval_ms {
                            Some(n) => n,
                            None => 4000,
                        },
                        keepalive_settle_ms: match raw.keepalive_settle_ms {
                            Some(n) => n,
                            None => 200,
                        },
                    },
                )
            },
            _ => None,
        }
    }
}

/// The string of a field.
pub open spec fn string_field(m: Seq<(Seq<char>, Seq<char>)>, key: Seq<char>) -> Option<Seq<char>> {
    match json::member_of(m, key) {
        Some(v) => json::string_of(v),
        None => None,
    }
}

/// The number of a field.
pub open spec fn number_field(m: Seq<(Seq<char>, Seq<char>)>, key: Seq<char>) -> Option<u64> {
    match json::member_of(m, key) {
        Some(v) => json::number_of(v),
        None => None,
    }
}

/// The strings of a list field.
pub open spec fn list_field(m: Seq<(Seq<char>, Seq<char>)>, key: Seq<char>) -> Option<
    Seq<Seq<char>>,
> {
    match json::member_of(m, key) {
        Some(v) => match json::array_of(v) {
            Some(e) => Some(json::strings_among(e)),
            None => None,
        },
        None => None,
    }
}

/// The fields of an entry.
pub open spec fn raw_of(m: Seq<(Seq<char>, Seq<char>)>) -> RawView {
    RawView {
        name: string_field(m, "name"@),
        target: string_field(m, "target"@),
        response_ids: list_field(m, "responseIds"@),
        slot_count: number_field(m, "slotCount"@),
        periodic_rate: string_field(m, "periodicRate"@),
        keepalive_interval_ms: number_field(m, "keepaliveIntervalMs"@),
        keepalive_settle_ms: number_field(m, "keepaliveSettleMs"@),
    }
}

/// The profile of a member of the file; comments and malformed entries give
/// nothing.
pub open spec fn entry_profile(tag: Seq<char>, value: Seq<char>) -> Option<ProfileView> {
    if tag.len() > 0 && tag[0] == '_' {
        None
    } else {
        match json::object_of(value) {
            Some(m) => profile_of(raw_of(m)),
            None => None,
        }
    }
}

/// The profiles of the members of a file.
pub open spec fn profiles_of(m: Seq<(Seq<char>, Seq<char>)>) -> Seq<(Seq<char>, ProfileView)>
    decreases m.len(),
{
    if m.len() == 0 {
        Seq::empty()
    } else {
        match entry_profile(m.last().0, m.last().1) {
            Some(p) => profiles_of(m.drop_last()).push((m.last().0, p)),
            None => profiles_of(m.drop_last()),
        }
    }
}

/// Profiles by view.
pub open spec fn profile_views(v: Seq<(String, StreamProfile)>) -> Seq<(Seq<char>, ProfileView)> {
    Seq::new(v.len(), |i: int| (v[i].0@, v[i].1@))
}

fn read_string(m: &Vec<(String, String)>, key: &str) -> (r: Option<String>)
    ensures
        text::opt(r) == string_field(json::pair_views(m@), key@),
{
    match json::member(m, key) {
        Some(v) => json::string(v),
        None => None,
    }
}

fn read_number(m: &Vec<(String, String)>, key: &str) -> (r: Option<u64>)
    ensures
        r == number_field(json::pair_views(m@), key@),
{
    match json::member(m, key) {
        Some(v) => json::number(v),
        None => None,
    }
}

fn read_list(m: &Vec<(String, String)>, key: &str) -> (r: Option<Vec<String>>)
    ensures
        r is Some <==> list_field(json::pair_views(m@), key@) is Some,
        r matches Some(v) ==> list_field(json::pair_views(m@), key@) == Some(text::views(v@)),
{
    match json::member(m, key) {
        None => None,
        Some(v) => match json::elements(v) {
            None => None,
            Some(e) => Some(json::strings(&e)),
        },
    }
}

/// Reads the profiles of a file, by tag. A malformed entry is left out; a
/// malformed file gives none. Tags that start with an underscore are comments.
/// Every profile has between one and 256 slots.
pub fn parse_stream_profiles(text_json: &str) -> (r: Vec<(String, StreamProfile)>)
    ensures
        profile_views(r@) == (match json::object_of(text_json@) {
            Some(m) => profiles_of(m),
            None => Seq::empty(),
        }),
        forall|i: int| 0 <= i < r@.len() ==> 1 <= (#[trigger] r@[i]).1.slot_count <= 256,
{
    let mut out: Vec<(String, StreamProfile)> = Vec::new();
    assert(profile_views(out@) =~= Seq::<(Seq<char>, ProfileView)>::empty());
    let m = match json::members(text_json) {
        Some(m) => m,
        None => {
            return out;
        },
    };
    let ghost all = json::pair_views(m@);
    let mut i: usize = 0;
    assert(profile_views(out@) =~= profiles_of(all.take(0)));
    while i < m.len()
        invariant
            i <= m@.len(),
            all == json::pair_views(m@),
            profile_views(out@) == profiles_of(all.take(i as int)),
            forall|j: int| 0 <= j < out@.len() ==> 1 <= (#[trigger] out@[j]).1.slot_count <= 256,
        decreases m@.len() - i,
    {
        assert(all.take(i + 1).drop_last() =~= all.take(i as int));
        assert(all.take(i + 1).last() == (m@[i as int].0@, m@[i as int].1@));
        let ghost before = profile_views(out@);
        let ghost tag = m@[i as int].0@;
        if let Some(p) = read_entry(m[i].0.as_str(), m[i].1.as_str()) {
            let ghost pv = p@;
            out.push((m[i].0.clone(), p));
            assert(profile_views(out@) =~= before.push((tag, pv)));
        }
        i += 1;
    }
    assert(all.take(i as int) =~= all);
    out
}

fn read_entry(tag: &str, value: &str) -> (r: Option<StreamProfile>)
    ensures
        r is Some <==> entry_profile(tag@, value@) is Some,
        r matches Some(p) ==> entry_profile(tag@, value@) == Some(p@),
        r matches Some(p) ==> 1 <= p.slot_count <= 256,
{
    let t = text::chars_of(tag);
    if t.len() > 0 && t[0] == '_' {
        return None;
    }
    match json::members(value) {
        None => None,
        Some(f) => {
            let raw = RawProfile {
                name: read_string(&f, "name"),
                target: read_string(&f, "target"),
                response_ids: read_list(&f, "responseIds"),
                slot_count: read_number(&f, "slotCount"),
                periodic_rate: read_string(&f, "periodicRate"),
                keepalive_interval_ms: read_number(&f, "keepaliveIntervalMs"),
                keepalive_settle_ms: read_number(&f, "keepaliveSettleMs"),
            };
            assert(raw@ =~= raw_of(json::pair_views(f@)));
            StreamProfile::from_raw(raw)
        },
    }
}

// ---- sources ----

/// The source identifier of a pid.
pub open spec fn source_of(pid: Seq<char>) -> Option<Seq<char>> {
    let p = text::upper(text::trim(pid));
    if p.len() == 6 && p.take(2) == "22"@ && text::all_hex(p.skip(2)) {
        Some(p.skip(2))
    } else if p.len() == 4 && p.take(2) == "01"@ && text::all_hex(p.skip(2)) {
        Some("F4"@ + p.skip(2))
    } else {
        None
    }
}

/// The source identifier that a pid streams from: a mode 22 pid is one; a mode
/// 01 pid rides its `F4xx` mirror. Nothing else streams.
pub fn source_did(pid: &str) -> (r: Option<String>)
    ensures
        r is Some <==> source_of(pid@) is Some,
        r matches Some(s) ==> source_of(pid@) == Some(s@),
{
    let t = text::trim_text(pid, text::Blank::White);
    let p = text::to_upper(t.as_str());
    let v = text::chars_of(p.as_str());
    if v.len() != 6 && v.len() != 4 {
        return None;
    }
    let mode = text::substring(v.as_slice(), 0, 2);
    let rest = text::substring(v.as_slice(), 2, v.len());
    assert(mode@ =~= p@.take(2));
    assert(rest@ =~= p@.skip(2));
    if !text::is_all_hex(rest.as_str()) {
        return None;
    }
    if v.len() == 6 && text::same(mode.as_str(), "22") {
        Some(rest)
    } else if v.len() == 4 && text::same(mode.as_str(), "01") {
        Some(text::concat("F4", rest.as_str()))
    } else {
        None
    }
}

// ---- packing ----

/// One signal inside a periodic identifier.
#[derive(Debug, Clone, PartialEq)]
pub struct PackedSignal {
    /// The pid that the bytes belong to.
    pub pid: String,
    /// First byte within the slot's data.
    pub offset: usize,
    pub len: usize,
}

/// A packed signal as a mathematical value.
#[verifier::ext_equal]
pub struct PackedView {
    pub pid: Seq<char>,
    pub offset: nat,
    pub len: nat,
}

impl View for PackedSignal {
    type V = PackedView;

    open spec fn view(&self) -> PackedView {
        PackedView { pid: self.pid@, offset: self.offset as nat, len: self.len as nat }
    }
}

/// The views of packed signals.
pub open spec fn packed_views(v: Seq<PackedSignal>) -> Seq<PackedView> {
    Seq::new(v.len(), |i: int| v[i]@)
}

/// The packed signals of each slot, by the low byte of its identifier. Bytes
/// behind the last signal are never read.
pub type UnpackMap = HashMap<u8, Vec<PackedSignal>>;

/// Packed signals of slots by view.
pub open spec fn unpack_view(m: Map<u8, Vec<PackedSignal>>) -> Map<u8, Seq<PackedView>> {
    m.map_values(|v: Vec<PackedSignal>| packed_views(v@))
}

/// The definitions of a stream.
#[derive(Debug, Clone)]
pub struct DefineSet {
    /// One definition per signal, in send order.
    pub define_commands: Vec<String>,
    /// Slot and pid of each definition, in the same order.
    pub record_pids: Vec<(u8, String)>,
    /// The command that starts the used slots.
    pub start_command: String,
    pub unpack: UnpackMap,
    pub slots_used: usize,
    /// Signals that found no place; they stay with polling.
    pub dropped: Vec<String>,
}

/// Why a set cannot stream.
#[derive(Debug, Clone, PartialEq)]
pub enum BuildDefinesError {
    /// A signal has no source identifier.
    Unmappable(String),
    /// A signal has no confirmed length.
    UnknownLength(String),
    /// A signal is wider than a slot.
    TooWide(String),
    /// The signals need more slots than there are.
    CapacityExceeded { needed_slots: usize, slot_count: usize },
    /// The pids have more than one target, or not that of the profile.
    MixedTarget,
}

/// A signal: pid, confirmed length and target, where it has one of its own.
#[verifier::ext_equal]
pub struct SignalView {
    pub pid: Seq<char>,
    pub len: u8,
    pub target: Option<Seq<char>>,
}

/// Signals by view.
pub open spec fn signal_views(v: Seq<(String, u8, Option<String>)>) -> Seq<SignalView> {
    Seq::new(v.len(), |i: int| SignalView { pid: v[i].0@, len: v[i].1, target: text::opt(v[i].2) })
}

/// Whether some signal has a target other than the profile's.
pub open spec fn mixed_target(v: Seq<SignalView>, target: Seq<char>) -> bool {
    exists|i: int|
        0 <= i < v.len() && (#[trigger] v[i]).target is Some && text::upper(v[i].target->0)
            != target
}

/// The lowest slot with room for `len` bytes; -1 where there is none.
pub open spec fn first_fit(fill: Seq<nat>, len: nat) -> int
    decreases fill.len(),
{
    if fill.len() == 0 {
        -1
    } else if first_fit(fill.drop_last(), len) >= 0 {
        first_fit(fill.drop_last(), len)
    } else if fill.last() + len <= SLOT_DATA_BYTES {
        fill.len() - 1
    } else {
        -1
    }
}

/// What was packed so far.
#[verifier::ext_equal]
pub struct PackView {
    pub commands: Seq<Seq<char>>,
    pub records: Seq<(u8, Seq<char>)>,
    pub unpack: Map<u8, Seq<PackedView>>,
    pub dropped: Seq<Seq<char>>,
    /// Bytes taken of each slot.
    pub fill: Seq<nat>,
}

/// The definition that appends a whole source to a slot. The position byte
/// counts within the source, so it is always one.
pub open spec fn define_command(slot: int, source: Seq<char>, len: nat) -> Seq<char> {
    "2C01F2"@ + text::hex_padded(slot as nat, 2) + source + "01"@ + text::hex_padded(len, 2)
}

/// The signals of a slot.
pub open spec fn slot_signals(m: Map<u8, Seq<PackedView>>, slot: u8) -> Seq<PackedView> {
    if m.contains_key(slot) {
        m[slot]
    } else {
        Seq::empty()
    }
}

/// Whether a signal finds a place: it has a length that fits a slot and a
/// source, and some slot has room.
pub open spec fn finds_place(fill: Seq<nat>, x: SignalView) -> bool {
    0 < x.len <= SLOT_DATA_BYTES && source_of(x.pid) is Some && first_fit(fill, x.len as nat) >= 0
}

/// What is packed after one more signal. A signal without a length or a source,
/// one wider than a slot, and one that finds no room is dropped; the others go
/// to the lowest slot with room.
pub open spec fn pack_one(s: PackView, x: SignalView) -> PackView {
    let pid = text::upper(x.pid);
    let len = x.len as nat;
    let slot = first_fit(s.fill, len);
    if !finds_place(s.fill, x) {
        PackView { dropped: s.dropped.push(pid), ..s }
    } else {
        PackView {
            commands: s.commands.push(define_command(slot, source_of(x.pid)->0, len)),
            records: s.records.push((slot as u8, pid)),
            unpack: s.unpack.insert(
                slot as u8,
                slot_signals(s.unpack, slot as u8).push(
                    PackedView { pid, offset: s.fill[slot], len },
                ),
            ),
            dropped: s.dropped,
            fill: s.fill.update(slot, s.fill[slot] + len),
        }
    }
}

/// What is packed of a list of signals.
pub open spec fn packed(v: Seq<SignalView>, slot_count: nat) -> PackView
    decreases v.len(),
{
    if v.len() == 0 {
        PackView {
            commands: Seq::empty(),
            records: Seq::empty(),
            unpack: Map::empty(),
            dropped: Seq::empty(),
            fill: Seq::new(slot_count, |i: int| 0nat),
        }
    } else {
        pack_one(packed(v.drop_last(), slot_count), v.last())
    }
}

/// The signals that went to a slot, in the order of their definitions.
pub open spec fn members(v: Seq<SignalView>, slot_count: nat, slot: u8) -> Seq<SignalView>
    decreases v.len(),
{
    if v.len() == 0 {
        Seq::empty()
    } else {
        let before = members(v.drop_last(), slot_count, slot);
        let fill = packed(v.drop_last(), slot_count).fill;
        if finds_place(fill, v.last()) && first_fit(fill, v.last().len as nat) as u8 == slot {
            before.push(v.last())
        } else {
            before
        }
    }
}

/// How many slots are used.
pub open spec fn used_slots(fill: Seq<nat>) -> nat
    decreases fill.len(),
{
    if fill.len() == 0 {
        0
    } else if fill.last() > 0 {
        used_slots(fill.drop_last()) + 1
    } else {
        used_slots(fill.drop_last())
    }
}

/// The numbers below `n` as bytes in hexadecimal, one after the other.
pub open spec fn slot_list(n: nat) -> Seq<char>
    decreases n,
{
    if n == 0 {
        Seq::empty()
    } else {
        slot_list((n - 1) as nat) + text::hex_padded((n - 1) as nat, 2)
    }
}

/// Record pids by view.
pub open spec fn record_views(v: Seq<(u8, String)>) -> Seq<(u8, Seq<char>)> {
    Seq::new(v.len(), |i: int| (v[i].0, v[i].1@))
}

/// Whether `d` is the define set of signals under a profile.
pub open spec fn is_define_set(v: Seq<SignalView>, profile: ProfileView, d: DefineSet) -> bool {
    let p = packed(v, profile.slot_count);
    &&& text::views(d.define_commands@) == p.commands
    &&& record_views(d.record_pids@) == p.records
    &&& unpack_view(d.unpack@) == p.unpack
    &&& text::views(d.dropped@) == p.dropped
    &&& d.slots_used == used_slots(p.fill)
    &&& d.start_command@ == "2A"@ + text::hex_padded(profile.rate_mode as nat, 2) + slot_list(
        used_slots(p.fill),
    )
}

/// Numbers as mathematical integers.
pub open spec fn as_nats(v: Seq<usize>) -> Seq<nat> {
    Seq::new(v.len(), |i: int| v[i] as nat)
}

fn find_fit(fill: &Vec<usize>, len: usize) -> (r: Option<usize>)
    requires
        len <= SLOT_DATA_BYTES,
        forall|i: int| 0 <= i < fill@.len() ==> #[trigger] fill@[i] <= SLOT_DATA_BYTES,
    ensures
        match r {
            Some(i) => i < fill@.len() && first_fit(as_nats(fill@), len as nat) == i && fill@[i as int]
                + len <= SLOT_DATA_BYTES,
            None => first_fit(as_nats(fill@), len as nat) < 0,
        },
{
    let ghost all = as_nats(fill@);
    let mut i: usize = 0;
    while i < fill.len()
        invariant
            i <= fill@.len(),
            all == as_nats(fill@),
            len <= SLOT_DATA_BYTES,
            forall|i: int| 0 <= i < fill@.len() ==> #[trigger] fill@[i] <= SLOT_DATA_BYTES,
            first_fit(all.take(i as int), len as nat) < 0,
        decreases fill@.len() - i,
    {
        assert(all.take(i + 1).drop_last() =~= all.take(i as int));
        assert(all.take(i + 1).last() == fill@[i as int]);
        if fill[i] + len <= SLOT_DATA_BYTES {
            proof {
                lemma_fit_stays(all, i + 1, len as nat);
            }
            return Some(i);
        }
        i += 1;
    }
    assert(all.take(i as int) =~= all);
    None
}

proof fn lemma_fit_stays(v: Seq<nat>, n: int, len: nat)
    requires
        0 <= n <= v.len(),
        first_fit(v.take(n), len) >= 0,
    ensures
        first_fit(v, len) == first_fit(v.take(n), len),
    decreases v.len() - n,
{
    if n == v.len() {
        assert(v.take(n) =~= v);
    } else {
        assert(v.take(n + 1).drop_last() =~= v.take(n));
        lemma_fit_stays(v, n + 1, len);
    }
}

fn targets_differ(signals: &[(String, u8, Option<String>)], target: &str) -> (r: bool)
    ensures
        r == mixed_target(signal_views(signals@), target@),
{
    let ghost all = signal_views(signals@);
    let mut i: usize = 0;
    while i < signals.len()
        invariant
            i <= signals@.len(),
            all == signal_views(signals@),
            forall|j: int|
                0 <= j < i ==> ((#[trigger] all[j]).target is Some ==> text::upper(all[j].target->0)
                    == target@),
        decreases signals@.len() - i,
    {
        if let Some(t) = &signals[i].2 {
            let up = text::to_upper(t.as_str());
            if !text::same(up.as_str(), target) {
                assert(all[i as int].target is Some);
                return true;
            }
        }
        i += 1;
    }
    false
}

/// Packs signals (pid, confirmed length, target) into periodic identifiers:
/// the lowest slot with room takes a signal whole, at most seven bytes per slot.
/// A signal that cannot stream is dropped, never the set; only a target other
/// than the profile's refuses it.
pub fn build_defines(
    signals: &[(String, u8, Option<String>)],
    profile: &StreamProfile,
) -> (r: Result<DefineSet, BuildDefinesError>)
    ensures
        mixed_target(signal_views(signals@), profile.target@) ==> (r matches Err(e)
            && e is MixedTarget),
        !mixed_target(signal_views(signals@), profile.target@) ==> (r matches Ok(d)
            && is_define_set(signal_views(signals@), profile@, d) && d.slots_used
            <= profile.slot_count),
{
    if targets_differ(signals, profile.target.as_str()) {
        return Err(BuildDefinesError::MixedTarget);
    }
    let ghost all = signal_views(signals@);
    let ghost slots = profile@.slot_count;
    let mut define_commands: Vec<String> = Vec::new();
    let mut record_pids: Vec<(u8, String)> = Vec::new();
    let mut unpack: UnpackMap = HashMap::new();
    let mut dropped: Vec<String> = Vec::new();
    let mut fill: Vec<usize> = Vec::new();
    let mut k: usize = 0;
    while k < profile.slot_count
        invariant
            k <= profile.slot_count,
            fill@.len() == k,
            forall|i: int| 0 <= i < k ==> #[trigger] fill@[i] == 0,
        decreases profile.slot_count - k,
    {
        fill.push(0);
        k += 1;
    }
    let ghost p0 = packed(all.take(0), slots);
    assert(text::views(define_commands@) =~= p0.commands);
    assert(record_views(record_pids@) =~= p0.records);
    assert(unpack_view(unpack@) =~= p0.unpack);
    assert(text::views(dropped@) =~= p0.dropped);
    assert(as_nats(fill@) =~= p0.fill);
    let mut i: usize = 0;
    while i < signals.len()
        invariant
            i <= signals@.len(),
            all == signal_views(signals@),
            slots == profile@.slot_count,
            fill@.len() == slots,
            forall|j: int| 0 <= j < fill@.len() ==> #[trigger] fill@[j] <= SLOT_DATA_BYTES,
            text::views(define_commands@) == packed(all.take(i as int), slots).commands,
            record_views(record_pids@) == packed(all.take(i as int), slots).records,
            unpack_view(unpack@) == packed(all.take(i as int), slots).unpack,
            text::views(dropped@) == packed(all.take(i as int), slots).dropped,
            as_nats(fill@) == packed(all.take(i as int), slots).fill,
        decreases signals@.len() - i,
    {
        assert(all.take(i + 1).drop_last() =~= all.take(i as int));
        let ghost x = all[i as int];
        assert(all.take(i + 1).last() == x);
        let ghost s = packed(all.take(i as int), slots);
        let pid = signals[i].0.as_str();
        let len: usize = signals[i].1 as usize;
        let up = text::to_upper(pid);
        let ghost upv = up@;
        let source = if len == 0 || len > SLOT_DATA_BYTES {
            None
        } else {
            source_did(pid)
        };
        let place = match &source {
            Some(_) => find_fit(&fill, len),
            None => None,
        };
        match (source, place) {
            (Some(src), Some(slot)) => {
                let mut c = "2C01F2".to_owned();
                text::push_hex_wide(&mut c, slot as u64, 2);
                c.append(src.as_str());
                c.append("01");
                text::push_hex(&mut c, len as u32, 2);
                let ghost cv = c@;
                assert(cv =~= define_command(slot as int, src@, len as nat));
                define_commands.push(c);
                assert(text::views(define_commands@) =~= s.commands.push(cv));
                let ghost before = unpack@;
                let mut list = match unpack.remove(&(slot as u8)) {
                    Some(v) => v,
                    None => Vec::new(),
                };
                let ghost list0 = packed_views(list@);
                assert(list0 =~= slot_signals(s.unpack, slot as u8));
                let sig = PackedSignal { pid: up.clone(), offset: fill[slot], len };
                let ghost sv = sig@;
                list.push(sig);
                assert(packed_views(list@) =~= list0.push(sv));
                unpack.insert(slot as u8, list);
                assert(unpack_view(unpack@) =~= s.unpack.insert(slot as u8, list0.push(sv)));
                record_pids.push((slot as u8, up));
                assert(record_views(record_pids@) =~= s.records.push((slot as u8, upv)));
                let now: usize = fill[slot] + len;
                fill.set(slot, now);
                assert(as_nats(fill@) =~= s.fill.update(slot as int, now as nat));
            },
            _ => {
                dropped.push(up);
                assert(text::views(dropped@) =~= s.dropped.push(upv));
            },
        }
        i += 1;
    }
    assert(all.take(i as int) =~= all);
    let ghost f = as_nats(fill@);
    let mut slots_used: usize = 0;
    let mut j: usize = 0;
    while j < fill.len()
        invariant
            j <= fill@.len(),
            f == as_nats(fill@),
            slots_used <= j,
            slots_used == used_slots(f.take(j as int)),
        decreases fill@.len() - j,
    {
        assert(f.take(j + 1).drop_last() =~= f.take(j as int));
        if fill[j] > 0 {
            slots_used += 1;
        }
        j += 1;
    }
    assert(f.take(j as int) =~= f);
    let mut start_command = "2A".to_owned();
    text::push_hex(&mut start_command, profile.rate_mode as u32, 2);
    let ghost head = start_command@;
    let mut n: usize = 0;
    assert(start_command@ =~= head + slot_list(0));
    while n < slots_used
        invariant
            n <= slots_used,
            start_command@ == head + slot_list(n as nat),
        decreases slots_used - n,
    {
        text::push_hex_wide(&mut start_command, n as u64, 2);
        assert(start_command@ =~= head + slot_list((n + 1) as nat));
        n += 1;
    }
    proof {
        lemma_used_bound(f);
    }
    Ok(DefineSet { define_commands, record_pids, start_command, unpack, slots_used, dropped })
}

// ---- refusals ----

/// Where a pid stands in a slot; -1 where it does not.
pub open spec fn place_of(v: Seq<PackedView>, pid: Seq<char>) -> int
    decreases v.len(),
{
    if v.len() == 0 {
        -1
    } else if place_of(v.drop_last(), pid) >= 0 {
        place_of(v.drop_last(), pid)
    } else if v.last().pid == pid {
        v.len() - 1
    } else {
        -1
    }
}

/// The signals of a slot without the one at `i`: those that lay behind it move
/// up by its length.
pub open spec fn without_signal(v: Seq<PackedView>, i: int) -> Seq<PackedView> {
    let gone = v[i];
    let rest = v.remove(i);
    Seq::new(
        rest.len(),
        |j: int|
            if rest[j].offset > gone.offset {
                PackedView { offset: (rest[j].offset - gone.len) as nat, ..rest[j] }
            } else {
                rest[j]
            },
    )
}

/// The slots without a refused signal; a slot that is empty then goes too.
pub open spec fn without_refused(
    m: Map<u8, Seq<PackedView>>,
    slot: u8,
    pid: Seq<char>,
) -> Map<u8, Seq<PackedView>> {
    if m.contains_key(slot) && place_of(m[slot], pid) >= 0 {
        let rest = without_signal(m[slot], place_of(m[slot], pid));
        if rest.len() == 0 {
            m.remove(slot)
        } else {
            m.insert(slot, rest)
        }
    } else {
        m
    }
}

/// Whether the signals behind a refused one lie far enough behind to move up.
pub open spec fn can_drop(m: Map<u8, Seq<PackedView>>, slot: u8, pid: Seq<char>) -> bool {
    m.contains_key(slot) && place_of(m[slot], pid) >= 0 ==> ({
        let gone = m[slot][place_of(m[slot], pid)];
        forall|j: int|
            0 <= j < m[slot].len() && (#[trigger] m[slot][j]).offset > gone.offset
                ==> m[slot][j].offset >= gone.len
    })
}

fn find_signal(v: &Vec<PackedSignal>, pid: &str) -> (r: Option<usize>)
    ensures
        match r {
            Some(i) => i < v@.len() && place_of(packed_views(v@), pid@) == i,
            None => place_of(packed_views(v@), pid@) < 0,
        },
{
    let ghost all = packed_views(v@);
    let mut i: usize = 0;
    while i < v.len()
        invariant
            i <= v@.len(),
            all == packed_views(v@),
            place_of(all.take(i as int), pid@) < 0,
        decreases v@.len() - i,
    {
        assert(all.take(i + 1).drop_last() =~= all.take(i as int));
        assert(all.take(i + 1).last() == v@[i as int]@);
        if text::same(v[i].pid.as_str(), pid) {
            proof {
                lemma_place_stays(all, i + 1, pid@);
            }
            return Some(i);
        }
        i += 1;
    }
    assert(all.take(i as int) =~= all);
    None
}

proof fn lemma_place_stays(v: Seq<PackedView>, n: int, pid: Seq<char>)
    requires
        0 <= n <= v.len(),
        place_of(v.take(n), pid) >= 0,
    ensures
        place_of(v, pid) == place_of(v.take(n), pid),
    decreases v.len() - n,
{
    if n == v.len() {
        assert(v.take(n) =~= v);
    } else {
        assert(v.take(n + 1).drop_last() =~= v.take(n));
        lemma_place_stays(v, n + 1, pid);
    }
}

/// Takes a refused signal out: it never joined the wire, so the later ones of
/// its slot move up. Whether it was there.
pub fn drop_refused(unpack: &mut UnpackMap, slot: u8, pid: &str) -> (r: bool)
    requires
        can_drop(unpack_view(old(unpack)@), slot, pid@),
    ensures
        r == (unpack_view(old(unpack)@).contains_key(slot) && place_of(
            unpack_view(old(unpack)@)[slot],
            pid@,
        ) >= 0),
        unpack_view(final(unpack)@) == without_refused(unpack_view(old(unpack)@), slot, pid@),
{
    let ghost m = unpack_view(unpack@);
    let ghost start = unpack@;
    match unpack.remove(&slot) {
        None => {
            assert(unpack@ =~= start);
            false
        },
        Some(signals) => {
            let ghost all = packed_views(signals@);
            assert(m[slot] == all);
            match find_signal(&signals, pid) {
                None => {
                    unpack.insert(slot, signals);
                    assert(unpack_view(unpack@) =~= m);
                    false
                },
                Some(at) => {
                    let mut signals = signals;
                    let gone = signals.remove(at);
                    let ghost rest = all.remove(at as int);
                    assert(packed_views(signals@) =~= rest);
                    let ghost want = without_signal(all, at as int);
                    let ghost kept = signals@;
                    let mut out: Vec<PackedSignal> = Vec::new();
                    for s in it: signals
                        invariant
                            it.seq() == kept,
                            packed_views(kept) == rest,
                            rest == all.remove(at as int),
                            at < all.len(),
                            gone@ == all[at as int],
                            want == without_signal(all, at as int),
                            forall|j: int|
                                0 <= j < all.len() && (#[trigger] all[j]).offset > gone.offset
                                    ==> all[j].offset >= gone.len,
                            out@.len() == it.index(),
                            forall|j: int|
                                0 <= j < out@.len() ==> (#[trigger] out@[j])@ == want[j],
                    {
                        let ghost i = it.index() as int;
                        assert(s@ == rest[i]);
                        assert(rest[i] == all[if i < at {
                            i
                        } else {
                            i + 1
                        }]);
                        let mut s = s;
                        if s.offset > gone.offset {
                            s.offset = s.offset - gone.len;
                        }
                        out.push(s);
                    }
                    assert(packed_views(out@) =~= want);
                    if out.len() > 0 {
                        unpack.insert(slot, out);
                        assert(unpack_view(unpack@) =~= m.insert(slot, want));
                    } else {
                        assert(unpack_view(unpack@) =~= m.remove(slot));
                    }
                    true
                },
            }
        },
    }
}

// ---- decoding ----

/// The bytes of the signals that a slot's data holds; one that is cut off is
/// left out.
pub open spec fn sliced(signals: Seq<PackedView>, data: Seq<u8>) -> Seq<(Seq<char>, Seq<u8>)>
    decreases signals.len(),
{
    if signals.len() == 0 {
        Seq::empty()
    } else {
        let s = signals.last();
        let before = sliced(signals.drop_last(), data);
        if s.offset + s.len <= data.len() {
            before.push((s.pid, data.subrange(s.offset as int, (s.offset + s.len) as int)))
        } else {
            before
        }
    }
}

/// What a periodic frame holds.
pub open spec fn decoded(
    id: Seq<char>,
    data: Seq<u8>,
    ids: Seq<Seq<char>>,
    unpack: Map<u8, Seq<PackedView>>,
) -> Seq<(Seq<char>, Seq<u8>)> {
    if !ids.contains(id) || data.len() == 0 || !unpack.contains_key(data[0]) {
        Seq::empty()
    } else {
        sliced(unpack[data[0]], data.skip(1))
    }
}

/// Decoded signals by view.
pub open spec fn value_views(v: Seq<(String, Vec<u8>)>) -> Seq<(Seq<char>, Seq<u8>)> {
    Seq::new(v.len(), |i: int| (v[i].0@, v[i].1@))
}

/// Decodes a periodic frame: the slot byte comes first, then the packed
/// signals. Frames of other ids and of unknown slots hold nothing; a frame that
/// is too short still gives the signals that are whole.
pub fn decode_periodic_frame(
    id: &str,
    data: &[u8],
    response_ids: &[String],
    unpack: &UnpackMap,
) -> (r: Vec<(String, Vec<u8>)>)
    ensures
        value_views(r@) == decoded(
            id@,
            data@,
            text::views(response_ids@),
            unpack_view(unpack@),
        ),
{
    let mut out: Vec<(String, Vec<u8>)> = Vec::new();
    assert(value_views(out@) =~= Seq::<(Seq<char>, Seq<u8>)>::empty());
    if !is_listed(response_ids, id) || data.len() == 0 {
        return out;
    }
    let signals = match unpack.get(&data[0]) {
        Some(s) => s,
        None => {
            return out;
        },
    };
    let ghost all = packed_views(signals@);
    assert(unpack_view(unpack@)[data@[0]] == all);
    let ghost body = data@.skip(1);
    let total: usize = data.len();
    let n: usize = total - 1;
    let mut i: usize = 0;
    assert(value_views(out@) =~= sliced(all.take(0), body));
    while i < signals.len()
        invariant
            i <= signals@.len(),
            all == packed_views(signals@),
            body == data@.skip(1),
            n == body.len(),
            n + 1 == total,
            total == data@.len(),
            value_views(out@) == sliced(all.take(i as int), body),
        decreases signals@.len() - i,
    {
        assert(all.take(i + 1).drop_last() =~= all.take(i as int));
        assert(all.take(i + 1).last() == signals@[i as int]@);
        let s = &signals[i];
        let ghost before = value_views(out@);
        if s.len <= n && s.offset <= n - s.len {
            let part = crate::bytes::range(data, 1 + s.offset, 1 + s.offset + s.len);
            assert(part@ =~= body.subrange(s.offset as int, s.offset + s.len));
            let ghost pv = part@;
            out.push((s.pid.clone(), part));
            assert(value_views(out@) =~= before.push((s.pid@, pv)));
        }
        i += 1;
    }
    assert(all.take(i as int) =~= all);
    out
}

fn is_listed(ids: &[String], id: &str) -> (r: bool)
    ensures
        r == text::views(ids@).contains(id@),
{
    let mut i: usize = 0;
    while i < ids.len()
        invariant
            i <= ids@.len(),
            forall|j: int| 0 <= j < i ==> #[trigger] text::views(ids@)[j] != id@,
        decreases ids@.len() - i,
    {
        if text::same(ids[i].as_str(), id) {
            assert(text::views(ids@)[i as int] == id@);
            return true;
        }
        i += 1;
    }
    false
}

/// Whether all words from the second on write a byte in hexadecimal digits.
pub open spec fn bytes_follow(t: Seq<Seq<char>>) -> bool {
    forall|i: int| 1 <= i < t.len() ==> text::bare_hex(#[trigger] t[i], 255) is Some
}

/// The bytes that the words from the second on write.
pub open spec fn bytes_behind(t: Seq<Seq<char>>) -> Seq<u8> {
    Seq::new((t.len() - 1) as nat, |i: int| text::bare_hex(t[i + 1], 255)->0 as u8)
}

/// What a monitor line holds.
pub open spec fn line_decoded(
    line: Seq<char>,
    ids: Seq<Seq<char>>,
    unpack: Map<u8, Seq<PackedView>>,
) -> Seq<(Seq<char>, Seq<u8>)> {
    let t = text::words(line);
    if t.len() < 2 || !bytes_follow(t) {
        Seq::empty()
    } else {
        decoded(text::upper(t[0]), bytes_behind(t), ids, unpack)
    }
}

/// Decodes one monitor line (`6A0 00 00 80 01 00 0B 38 4F`). A line that is no
/// periodic frame holds nothing.
pub fn decode_periodic_line(line: &str, response_ids: &[String], unpack: &UnpackMap) -> (r: Vec<
    (String, Vec<u8>),
>)
    ensures
        value_views(r@) == line_decoded(
            line@,
            text::views(response_ids@),
            unpack_view(unpack@),
        ),
{
    let t = text::split_words(line);
    let ghost w = text::words(line@);
    let empty: Vec<(String, Vec<u8>)> = Vec::new();
    assert(value_views(empty@) =~= Seq::<(Seq<char>, Seq<u8>)>::empty());
    assert(w.len() == t@.len());
    if t.len() < 2 {
        return empty;
    }
    let mut data: Vec<u8> = Vec::new();
    let mut i: usize = 1;
    while i < t.len()
        invariant
            1 <= i <= t@.len(),
            w == text::views(t@),
            w == text::words(line@),
            value_views(empty@) == Seq::<(Seq<char>, Seq<u8>)>::empty(),
            data@.len() == i - 1,
            forall|j: int| 1 <= j < i ==> text::bare_hex(#[trigger] w[j], 255) is Some,
            forall|j: int|
                0 <= j < data@.len() ==> #[trigger] data@[j] == text::bare_hex(w[j + 1], 255)->0 as u8,
        decreases t@.len() - i,
    {
        assert(w[i as int] == t@[i as int]@);
        match text::bare_hex_text(t[i].as_str(), 255) {
            Some(b) => data.push(b as u8),
            None => {
                assert(text::bare_hex(w[i as int], 255) is None);
                return empty;
            },
        }
        i += 1;
    }
    assert(data@ =~= bytes_behind(w));
    assert(w[0] == t@[0]@);
    let id = text::to_upper(t[0].as_str());
    decode_periodic_frame(id.as_str(), data.as_slice(), response_ids, unpack)
}

// ---- laws ----

/// The bytes of some signals together.
pub open spec fn total_len(v: Seq<PackedView>) -> nat
    decreases v.len(),
{
    if v.len() == 0 {
        0
    } else {
        total_len(v.drop_last()) + v.last().len
    }
}

/// Whether signals lie one behind the other without a gap, each of at least a
/// byte.
pub open spec fn contiguous(v: Seq<PackedView>) -> bool
    decreases v.len(),
{
    v.len() == 0 || (contiguous(v.drop_last()) && v.last().offset == total_len(v.drop_last())
        && v.last().len > 0)
}

/// Packing keeps every slot within seven bytes, its signals one behind the
/// other, and the fill the sum of their lengths.
pub proof fn packing_is_tight(v: Seq<SignalView>, slot_count: nat)
    requires
        slot_count <= 256,
    ensures
        ({
            let p = packed(v, slot_count);
            &&& p.fill.len() == slot_count
            &&& forall|s: int|
                0 <= s < slot_count ==> contiguous(
                    slot_signals(p.unpack, #[trigger] (s as u8)),
                ) && total_len(slot_signals(p.unpack, s as u8)) == p.fill[s] && p.fill[s]
                    <= SLOT_DATA_BYTES
        }),
    decreases v.len(),
{
    if v.len() > 0 {
        packing_is_tight(v.drop_last(), slot_count);
        let b = packed(v.drop_last(), slot_count);
        let p = packed(v, slot_count);
        let x = v.last();
        let len = x.len as nat;
        let slot = first_fit(b.fill, len);
        lemma_fit_bound(b.fill, len);
        assert forall|s: int| 0 <= s < slot_count implies contiguous(
            slot_signals(p.unpack, #[trigger] (s as u8)),
        ) && total_len(slot_signals(p.unpack, s as u8)) == p.fill[s] && p.fill[s]
            <= SLOT_DATA_BYTES by {
            let old_s = slot_signals(b.unpack, s as u8);
            assert(contiguous(old_s) && total_len(old_s) == b.fill[s]);
            if finds_place(b.fill, x) {
                if s == slot {
                    let now = slot_signals(p.unpack, s as u8);
                    assert(now.drop_last() =~= old_s);
                }
            }
        }
    }
}

proof fn lemma_fit_bound(fill: Seq<nat>, len: nat)
    ensures
        first_fit(fill, len) < fill.len(),
        first_fit(fill, len) >= 0 ==> fill[first_fit(fill, len)] + len <= SLOT_DATA_BYTES,
        forall|i: int|
            0 <= i < fill.len() && (first_fit(fill, len) < 0 || i < first_fit(fill, len))
                ==> #[trigger] fill[i] + len > SLOT_DATA_BYTES,
    decreases fill.len(),
{
    if fill.len() > 0 {
        lemma_fit_bound(fill.drop_last(), len);
        let f = first_fit(fill, len);
        assert forall|i: int| 0 <= i < fill.len() && (f < 0 || i < f) implies #[trigger] fill[i]
            + len > SLOT_DATA_BYTES by {
            if i < fill.len() - 1 {
                assert(fill.drop_last()[i] == fill[i]);
            }
        }
    }
}

/// The pids of signals as they are recorded, in upper case.
pub open spec fn signal_pids(v: Seq<SignalView>) -> Seq<Seq<char>> {
    Seq::new(v.len(), |i: int| text::upper(v[i].pid))
}

/// The pids of records.
pub open spec fn recorded_pids(v: Seq<(u8, Seq<char>)>) -> Seq<Seq<char>> {
    Seq::new(v.len(), |i: int| v[i].1)
}

/// Every signal is either packed or dropped, once: the recorded and the dropped
/// pids together are the pids of the signals. A packed one has its definition.
pub proof fn every_signal_is_accounted_for(v: Seq<SignalView>, slot_count: nat)
    ensures
        packed(v, slot_count).records.len() + packed(v, slot_count).dropped.len() == v.len(),
        packed(v, slot_count).commands.len() == packed(v, slot_count).records.len(),
        recorded_pids(packed(v, slot_count).records).to_multiset().add(
            packed(v, slot_count).dropped.to_multiset(),
        ) == signal_pids(v).to_multiset(),
    decreases v.len(),
{
    broadcast use vstd::seq_lib::group_to_multiset_ensures;

    let p = packed(v, slot_count);
    if v.len() > 0 {
        every_signal_is_accounted_for(v.drop_last(), slot_count);
        let b = packed(v.drop_last(), slot_count);
        let pid = text::upper(v.last().pid);
        assert(signal_pids(v) =~= signal_pids(v.drop_last()).push(pid));
        if finds_place(b.fill, v.last()) {
            assert(recorded_pids(p.records) =~= recorded_pids(b.records).push(pid));
        }
    } else {
        assert(recorded_pids(p.records) =~= Seq::<Seq<char>>::empty());
        assert(signal_pids(v) =~= Seq::<Seq<char>>::empty());
    }
    assert(recorded_pids(p.records).to_multiset().add(p.dropped.to_multiset()) =~= signal_pids(
        v,
    ).to_multiset());
}

/// The pids of the records of one slot, in order.
pub open spec fn records_of(v: Seq<(u8, Seq<char>)>, slot: u8) -> Seq<Seq<char>>
    decreases v.len(),
{
    if v.len() == 0 {
        Seq::empty()
    } else if v.last().0 == slot {
        records_of(v.drop_last(), slot).push(v.last().1)
    } else {
        records_of(v.drop_last(), slot)
    }
}

/// A slot is unpacked into the signals that went to it, in the order of their
/// definitions and with their lengths; a slot that took none is not unpacked.
pub proof fn slots_hold_their_signals(v: Seq<SignalView>, slot_count: nat, slot: u8)
    ensures
        ({
            let p = packed(v, slot_count);
            let m = members(v, slot_count, slot);
            let u = slot_signals(p.unpack, slot);
            &&& p.unpack.contains_key(slot) <==> m.len() > 0
            &&& u.len() == m.len()
            &&& forall|i: int|
                0 <= i < m.len() ==> (#[trigger] u[i]).pid == text::upper(m[i].pid) && u[i].len
                    == m[i].len
            &&& records_of(p.records, slot) == signal_pids(m)
        }),
    decreases v.len(),
{
    let p = packed(v, slot_count);
    let m = members(v, slot_count, slot);
    if v.len() > 0 {
        slots_hold_their_signals(v.drop_last(), slot_count, slot);
        let b = packed(v.drop_last(), slot_count);
        let before = members(v.drop_last(), slot_count, slot);
        let x = v.last();
        if finds_place(b.fill, x) {
            assert(p.records.drop_last() =~= b.records);
            if first_fit(b.fill, x.len as nat) as u8 == slot {
                assert(signal_pids(m) =~= signal_pids(before).push(text::upper(x.pid)));
            }
        }
    } else {
        assert(signal_pids(m) =~= Seq::<Seq<char>>::empty());
    }
}

/// No more slots are used than there are.
proof fn lemma_used_bound(fill: Seq<nat>)
    ensures
        used_slots(fill) <= fill.len(),
    decreases fill.len(),
{
    if fill.len() > 0 {
        lemma_used_bound(fill.drop_last());
    }
}

/// Slots that hold something are counted.
proof fn lemma_used_front(fill: Seq<nat>, n: int)
    requires
        0 <= n <= fill.len(),
        forall|i: int| 0 <= i < n ==> #[trigger] fill[i] > 0,
    ensures
        used_slots(fill) >= n,
    decreases fill.len(),
{
    if fill.len() > 0 {
        let head = fill.drop_last();
        let k = if n < fill.len() {
            n
        } else {
            n - 1
        };
        assert forall|i: int| 0 <= i < k implies #[trigger] head[i] > 0 by {
            assert(fill[i] > 0);
        }
        lemma_used_front(head, k);
        if n == fill.len() {
            assert(fill[n - 1] > 0);
        }
    }
}

/// Filling slots empties none.
proof fn lemma_used_grows(a: Seq<nat>, b: Seq<nat>)
    requires
        a.len() == b.len(),
        forall|i: int| 0 <= i < a.len() ==> #[trigger] a[i] <= b[i],
    ensures
        used_slots(a) <= used_slots(b),
    decreases a.len(),
{
    if a.len() > 0 {
        let x = a.drop_last();
        let y = b.drop_last();
        assert forall|i: int| 0 <= i < x.len() implies #[trigger] x[i] <= y[i] by {
            assert(a[i] <= b[i]);
        }
        lemma_used_grows(x, y);
        assert(a[a.len() - 1] <= b[a.len() - 1]);
    }
}

/// The low byte of a slot number.
proof fn lemma_low_byte(n: int)
    requires
        0 <= n <= u64::MAX,
    ensures
        n as u8 == n % 256,
{
    let x = n as u64;
    assert(x as u8 == x % 256) by (bit_vector);
}

/// The signals of a slot lie one behind the other where no other used slot has
/// the same low byte.
proof fn lemma_slot_is_tight(v: Seq<SignalView>, slot_count: nat, slot: u8)
    requires
        slot_count <= u64::MAX,
        used_slots(packed(v, slot_count).fill) <= slot + 256,
    ensures
        ({
            let p = packed(v, slot_count);
            let u = slot_signals(p.unpack, slot);
            &&& contiguous(u)
            &&& slot < slot_count ==> total_len(u) == p.fill[slot as int]
        }),
    decreases v.len(),
{
    let p = packed(v, slot_count);
    if v.len() > 0 {
        let b = packed(v.drop_last(), slot_count);
        let x = v.last();
        let len = x.len as nat;
        let at = first_fit(b.fill, len);
        lemma_fit_bound(b.fill, len);
        used_slots_are_the_lowest(v.drop_last(), slot_count);
        used_slots_are_the_lowest(v, slot_count);
        assert forall|i: int| 0 <= i < b.fill.len() implies #[trigger] b.fill[i] <= p.fill[i] by {}
        lemma_used_grows(b.fill, p.fill);
        lemma_slot_is_tight(v.drop_last(), slot_count, slot);
        if finds_place(b.fill, x) && at as u8 == slot {
            assert(p.fill[at] > 0);
            assert forall|i: int| 0 <= i < at + 1 implies #[trigger] p.fill[i] > 0 by {
                if i < at {
                    assert(p.fill[at] > 0);
                }
            }
            lemma_used_front(p.fill, at + 1);
            lemma_low_byte(at);
            assert(at == slot);
            assert(slot_signals(p.unpack, slot).drop_last() =~= slot_signals(b.unpack, slot));
        }
    }
}

/// The used slots are the lowest ones, without a gap: starting the first so
/// many slots starts exactly those.
pub proof fn used_slots_are_the_lowest(v: Seq<SignalView>, slot_count: nat)
    ensures
        forall|i: int, j: int|
            0 <= i < j < slot_count && (#[trigger] packed(v, slot_count).fill[j]) > 0
                ==> #[trigger] packed(v, slot_count).fill[i] > 0,
        packed(v, slot_count).fill.len() == slot_count,
    decreases v.len(),
{
    if v.len() > 0 {
        used_slots_are_the_lowest(v.drop_last(), slot_count);
        let b = packed(v.drop_last(), slot_count);
        let p = packed(v, slot_count);
        let len = v.last().len as nat;
        let slot = first_fit(b.fill, len);
        lemma_fit_bound(b.fill, len);
        assert forall|i: int, j: int| 0 <= i < j < slot_count && (#[trigger] p.fill[j])
            > 0 implies #[trigger] p.fill[i] > 0 by {
            if finds_place(b.fill, v.last()) {
                if j == slot {
                    assert(b.fill[i] + len > SLOT_DATA_BYTES);
                } else {
                    assert(b.fill[j] > 0);
                    assert(b.fill[i] > 0);
                }
            } else {
                assert(b.fill[j] > 0);
                assert(b.fill[i] > 0);
            }
        }
    }
}

proof fn lemma_offsets(v: Seq<PackedView>)
    requires
        contiguous(v),
    ensures
        forall|i: int| 0 <= i < v.len() ==> (#[trigger] v[i]).offset == total_len(v.take(i)),
        forall|i: int| 0 <= i < v.len() ==> (#[trigger] v[i]).len > 0,
        forall|i: int, j: int|
            0 <= i < j < v.len() ==> (#[trigger] v[i]).offset + v[i].len <= (#[trigger] v[j]).offset,
    decreases v.len(),
{
    if v.len() > 0 {
        let head = v.drop_last();
        lemma_offsets(head);
        assert forall|i: int| 0 <= i < v.len() implies (#[trigger] v[i]).offset == total_len(
            v.take(i),
        ) && v[i].len > 0 by {
            if i < head.len() {
                assert(v[i] == head[i]);
                assert(v.take(i) =~= head.take(i));
            } else {
                assert(v.take(i) =~= head);
            }
        }
        assert forall|i: int, j: int| 0 <= i < j < v.len() implies (#[trigger] v[i]).offset
            + v[i].len <= (#[trigger] v[j]).offset by {
            if j < head.len() {
                assert(v[i] == head[i] && v[j] == head[j]);
            } else {
                assert(v[i] == head[i]);
                lemma_total_grows(head, i + 1);
                assert(head.take(i + 1).drop_last() =~= head.take(i));
                assert(v.take(j) =~= head);
            }
        }
    }
}

proof fn lemma_total_grows(v: Seq<PackedView>, n: int)
    requires
        0 <= n <= v.len(),
    ensures
        total_len(v.take(n)) <= total_len(v),
    decreases v.len() - n,
{
    if n == v.len() {
        assert(v.take(n) =~= v);
    } else {
        lemma_total_grows(v, n + 1);
        assert(v.take(n + 1).drop_last() =~= v.take(n));
    }
}

/// Taking a refused signal out leaves the others one behind the other: what
/// follows on the wire without it is decoded in the right places.
pub proof fn refusal_keeps_the_slot_tight(v: Seq<PackedView>, i: int)
    requires
        contiguous(v),
        0 <= i < v.len(),
    ensures
        contiguous(without_signal(v, i)),
        total_len(without_signal(v, i)) + v[i].len == total_len(v),
    decreases v.len(),
{
    lemma_offsets(v);
    let head = v.drop_last();
    let w = without_signal(v, i);
    if i == v.len() - 1 {
        assert forall|j: int| 0 <= j < head.len() implies #[trigger] w[j] == head[j] by {
            assert(v[j].offset + v[j].len <= v[i].offset);
        }
        assert(w =~= head);
    } else {
        assert(v[i] == head[i]);
        refusal_keeps_the_slot_tight(head, i);
        assert(v[i].offset + v[i].len <= v[v.len() - 1].offset);
        assert(w.drop_last() =~= without_signal(head, i)) by {
            assert(v.remove(i).drop_last() =~= head.remove(i));
        }
        assert(w.last().len == v.last().len);
        assert(w.last().offset == v.last().offset - v[i].len);
    }
}

/// Values one behind the other, as a controller sends them.
pub open spec fn on_the_wire(values: Seq<Seq<u8>>) -> Seq<u8>
    decreases values.len(),
{
    if values.len() == 0 {
        Seq::empty()
    } else {
        on_the_wire(values.drop_last()) + values.last()
    }
}

/// What a controller packs is read back: a frame that carries the values of a
/// slot's signals one behind the other decodes to those values, signal by
/// signal. Bytes behind them are ignored.
pub proof fn packed_values_are_read_back(
    id: Seq<char>,
    ids: Seq<Seq<char>>,
    slot: u8,
    unpack: Map<u8, Seq<PackedView>>,
    values: Seq<Seq<u8>>,
    tail: Seq<u8>,
)
    requires
        ids.contains(id),
        unpack.contains_key(slot),
        contiguous(unpack[slot]),
        values.len() == unpack[slot].len(),
        forall|i: int|
            0 <= i < values.len() ==> (#[trigger] values[i]).len() == unpack[slot][i].len,
    ensures
        decoded(id, seq![slot] + on_the_wire(values) + tail, ids, unpack) == Seq::new(
            values.len(),
            |i: int| (unpack[slot][i].pid, values[i]),
        ),
{
    let data = seq![slot] + on_the_wire(values) + tail;
    assert(data.skip(1) =~= on_the_wire(values) + tail);
    lemma_values_sliced(unpack[slot], values, tail);
}

/// Unpacking undoes packing: a frame of a defined slot that carries the values
/// of the slot's signals, in the order of their definitions, decodes to those
/// values under those pids; bytes behind them appear nowhere. A frame of another
/// id decodes to nothing. (A slot is named by one byte: where more than 256
/// slots are used, the law holds of the slots whose byte names no other.)
pub proof fn defined_signals_are_read_back(
    signals: Seq<SignalView>,
    profile: StreamProfile,
    d: DefineSet,
    id: Seq<char>,
    ids: Seq<Seq<char>>,
    slot: u8,
    values: Seq<Seq<u8>>,
    tail: Seq<u8>,
)
    requires
        is_define_set(signals, profile@, d),
        d.slots_used <= slot + 256,
        values.len() == members(signals, profile@.slot_count, slot).len(),
        forall|i: int|
            0 <= i < values.len() ==> (#[trigger] values[i]).len() == members(
                signals,
                profile@.slot_count,
                slot,
            )[i].len,
    ensures
        ({
            let m = members(signals, profile@.slot_count, slot);
            let r = decoded(
                id,
                seq![slot] + on_the_wire(values) + tail,
                ids,
                unpack_view(d.unpack@),
            );
            &&& ids.contains(id) ==> r == Seq::new(
                m.len(),
                |i: int| (text::upper(m[i].pid), values[i]),
            )
            &&& !ids.contains(id) ==> r.len() == 0
            &&& records_of(record_views(d.record_pids@), slot) == signal_pids(m)
            &&& unpack_view(d.unpack@).contains_key(slot) <==> m.len() > 0
            &&& forall|i: int|
                0 <= i < m.len() ==> (#[trigger] unpack_view(d.unpack@)[slot][i]).pid
                    == text::upper(m[i].pid) && unpack_view(d.unpack@)[slot][i].len == m[i].len
        }),
{
    let n = profile@.slot_count;
    let m = members(signals, n, slot);
    let unpack = unpack_view(d.unpack@);
    let data = seq![slot] + on_the_wire(values) + tail;
    slots_hold_their_signals(signals, n, slot);
    if ids.contains(id) {
        let want = Seq::new(m.len(), |i: int| (text::upper(m[i].pid), values[i]));
        if m.len() > 0 {
            lemma_slot_is_tight(signals, n, slot);
            assert forall|i: int| 0 <= i < values.len() implies (#[trigger] values[i]).len()
                == unpack[slot][i].len by {
                assert(slot_signals(unpack, slot)[i].len == m[i].len);
            }
            packed_values_are_read_back(id, ids, slot, unpack, values, tail);
            assert forall|i: int| 0 <= i < m.len() implies #[trigger] want[i] == (
                unpack[slot][i].pid,
                values[i],
            ) by {
                assert(slot_signals(unpack, slot)[i].pid == text::upper(m[i].pid));
            }
            assert(want =~= Seq::new(
                values.len(),
                |i: int| (unpack[slot][i].pid, values[i]),
            ));
        } else {
            assert(data[0] == slot);
            assert(want =~= Seq::empty());
        }
    }
}

proof fn lemma_values_sliced(v: Seq<PackedView>, values: Seq<Seq<u8>>, tail: Seq<u8>)
    requires
        contiguous(v),
        values.len() == v.len(),
        forall|i: int| 0 <= i < values.len() ==> (#[trigger] values[i]).len() == v[i].len,
    ensures
        on_the_wire(values).len() == total_len(v),
        sliced(v, on_the_wire(values) + tail) == Seq::new(
            values.len(),
            |i: int| (v[i].pid, values[i]),
        ),
    decreases v.len(),
{
    let all = on_the_wire(values) + tail;
    if v.len() > 0 {
        let head = values.drop_last();
        let last = values.last();
        assert forall|i: int| 0 <= i < head.len() implies (#[trigger] head[i]).len()
            == v.drop_last()[i].len by {
            assert(values[i] == head[i]);
        }
        assert(last == values[values.len() - 1]);
        lemma_values_sliced(v.drop_last(), head, last + tail);
        assert(on_the_wire(head) + (last + tail) =~= all);
        let s = v.last();
        assert(all.subrange(s.offset as int, (s.offset + s.len) as int) =~= last);
    }
    assert(sliced(v, all) =~= Seq::new(values.len(), |i: int| (v[i].pid, values[i])));
}

/// A slot whose signals lie one behind the other can always drop one.
pub proof fn tight_slots_can_drop(m: Map<u8, Seq<PackedView>>, slot: u8, pid: Seq<char>)
    requires
        m.contains_key(slot) ==> contiguous(m[slot]),
    ensures
        can_drop(m, slot, pid),
{
    if m.contains_key(slot) && place_of(m[slot], pid) >= 0 {
        let v = m[slot];
        lemma_offsets(v);
        let i = place_of(v, pid);
        lemma_packed_place(v, pid);
        assert forall|j: int| 0 <= j < v.len() && (#[trigger] v[j]).offset > v[i].offset implies v[j].offset
            >= v[i].len by {
            if j < i {
                assert(v[j].offset + v[j].len <= v[i].offset);
            } else if i < j {
                assert(v[i].offset + v[i].len <= v[j].offset);
            }
        }
    }
}

proof fn lemma_packed_place(v: Seq<PackedView>, pid: Seq<char>)
    ensures
        place_of(v, pid) < v.len(),
    decreases v.len(),
{
    if v.len() > 0 {
        lemma_packed_place(v.drop_last(), pid);
    }
}

/// A pid of mode 22 streams from the identifier that follows its mode; one of
/// mode 01 from the identifier that mirrors it, `F4` in front; no other pid
/// streams.
pub proof fn what_a_pid_streams_from(id: nat, pid: Seq<char>, two: Seq<char>)
    requires
        id <= 0xFFFF,
        two.len() == 2,
        text::all_hex(two),
        text::upper(two) == two,
    ensures
        source_of("22"@ + text::hex_padded(id, 4)) == Some(text::hex_padded(id, 4)),
        source_of("01"@ + two) is Some,
        source_of("01"@ + two) == Some("F4"@ + two),
        source_of(pid) is Some ==> source_of(pid)->0.len() == 4 && text::all_hex(source_of(pid)->0),
        source_of(pid) is Some ==> ({
            let p = text::upper(text::trim(pid));
            (p.take(2) == "22"@ && source_of(pid)->0 == p.skip(2)) || (p.take(2) == "01"@
                && source_of(pid)->0.skip(2) == p.skip(2))
        }),
{
    reveal_strlit("22");
    reveal_strlit("01");
    reveal_strlit("F4");
    let h = text::hex_padded(id, 4);
    let a = "22"@ + h;
    let b = "01"@ + two;
    lemma_four_digits(id);
    assert(text::all_hex(a)) by {
        assert forall|i: int| 0 <= i < a.len() implies text::is_hex_digit(#[trigger] a[i]) by {
            if i >= 2 {
                assert(a[i] == h[i - 2]);
            }
        }
    }
    assert(text::upper(a) =~= a) by {
        lemma_digits_stay(a);
        assert(text::all_ascii(a) && text::all_ascii(h)) by {
            lemma_digits_stay(h);
        }
        assert forall|i: int| 0 <= i < a.len() implies text::ascii_up(#[trigger] a[i]) == a[i] by {
            if i >= 2 {
                assert(text::upper(h)[i - 2] == text::ascii_up(h[i - 2]));
                assert(a[i] == h[i - 2]);
            }
        }
    }
    lemma_digits_stay(a);
    assert(a.take(2) =~= "22"@);
    assert(a.skip(2) =~= h);
    assert(text::all_hex(b)) by {
        assert forall|i: int| 0 <= i < b.len() implies text::is_hex_digit(#[trigger] b[i]) by {
            if i >= 2 {
                assert(b[i] == two[i - 2]);
            }
        }
    }
    lemma_digits_stay(b);
    lemma_digits_stay(two);
    assert(text::upper(b) =~= b) by {
        assert forall|i: int| 0 <= i < b.len() implies text::ascii_up(#[trigger] b[i]) == b[i] by {
            if i >= 2 {
                assert(text::upper(two)[i - 2] == text::ascii_up(two[i - 2]));
                assert(b[i] == two[i - 2]);
            }
        }
    }
    assert(b.take(2) =~= "01"@);
    assert(b.skip(2) =~= two);
    if source_of(pid) is Some {
        let p = text::upper(text::trim(pid));
        let s = source_of(pid)->0;
        if p.len() == 4 {
            assert(s == "F4"@ + p.skip(2));
            assert(s.skip(2) =~= p.skip(2));
            assert forall|i: int| 0 <= i < s.len() implies text::is_hex_digit(#[trigger] s[i]) by {
                if i >= 2 {
                    assert(s[i] == p.skip(2)[i - 2]);
                }
            }
        }
    }
}

/// Digits are not trimmed, and are ASCII.
proof fn lemma_digits_stay(s: Seq<char>)
    requires
        text::all_hex(s),
    ensures
        text::trim(s) == s,
        text::all_ascii(s),
{
    assert forall|i: int| 0 <= i < s.len() implies (#[trigger] s[i] as u32) < 128 by {
        assert(text::is_hex_digit(s[i]));
    }
    if s.len() > 0 {
        assert(text::is_hex_digit(s[0]));
        assert(text::is_hex_digit(s[s.len() - 1]));
        assert(!text::is_white(s[0]) && !text::is_white(s.last()));
    }
}

proof fn lemma_four_digits(id: nat)
    requires
        id <= 0xFFFF,
    ensures
        text::hex_padded(id, 4).len() == 4,
        text::all_hex(text::hex_padded(id, 4)),
        text::upper(text::hex_padded(id, 4)) == text::hex_padded(id, 4),
{
    let h = text::hex_padded(id, 4);
    text::lemma_hex_padded(id, 4);
    reveal_with_fuel(text::hex_padded, 6);
    assert(id / 16 / 16 / 16 / 16 == 0);
    lemma_digits_stay(h);
    assert(h =~= seq![
        text::digit_char(id / 16 / 16 / 16 % 16),
        text::digit_char(id / 16 / 16 % 16),
        text::digit_char(id / 16 % 16),
        text::digit_char(id % 16),
    ]);
    assert(text::upper(h) =~= h);
}

/// A definition spells out what it defines: the slot behind the identifier's
/// high byte, the source, its first byte, and the length, two digits each but
/// for the source.
pub proof fn a_definition_names_slot_source_and_length(slot: int, source: Seq<char>, len: nat)
    requires
        0 <= slot <= 255,
        source.len() == 4,
        len <= 255,
    ensures
        ({
            let c = define_command(slot, source, len);
            &&& c.len() == 16
            &&& c.take(6) == "2C01F2"@
            &&& text::hex_number(c.subrange(6, 8)) == slot
            &&& c.subrange(8, 12) == source
            &&& text::hex_number(c.subrange(12, 14)) == 1
            &&& text::hex_number(c.subrange(14, 16)) == len
        }),
{
    reveal_strlit("2C01F2");
    reveal_strlit("01");
    let c = define_command(slot, source, len);
    let a = text::hex_padded(slot as nat, 2);
    let b = text::hex_padded(len, 2);
    text::lemma_hex_padded(slot as nat, 2);
    text::lemma_hex_padded(len, 2);
    reveal_with_fuel(text::hex_padded, 4);
    assert((slot as nat) / 16 / 16 == 0);
    assert(len / 16 / 16 == 0);
    assert(a.len() == 2 && b.len() == 2);
    assert(c.take(6) =~= "2C01F2"@);
    assert(c.subrange(6, 8) =~= a);
    assert(c.subrange(8, 12) =~= source);
    let one = c.subrange(12, 14);
    assert(one =~= "01"@);
    assert(one.drop_last() =~= seq!['0']);
    assert(seq!['0'].drop_last() =~= Seq::<char>::empty());
    reveal_with_fuel(text::hex_number, 3);
    assert(c.subrange(14, 16) =~= b);
}

/// A signal is dropped only where it has no length, is wider than seven bytes,
/// has no source, or finds every slot too full for it; else it is recorded
/// under the lowest slot with room, defined there, and laid behind what the slot
/// holds.
pub proof fn where_a_signal_goes(s: PackView, x: SignalView, k: int)
    requires
        s.fill.len() <= 256,
        0 <= k < s.fill.len(),
    ensures
        ({
            let n = pack_one(s, x);
            let packs = n.records.len() == s.records.len() + 1;
            let slot = n.records.last().0;
            &&& packs ==> n.dropped == s.dropped
            &&& !packs ==> n == (PackView { dropped: s.dropped.push(text::upper(x.pid)), ..s })
            &&& !packs ==> x.len == 0 || x.len > 7 || source_of(x.pid) is None || s.fill[k] + x.len
                > 7
            &&& packs ==> 0 < x.len <= 7 && source_of(x.pid) is Some && slot < s.fill.len()
            &&& packs ==> n.records.last().1 == text::upper(x.pid) && s.fill[slot as int] + x.len
                <= 7 && n.fill[slot as int] == s.fill[slot as int] + x.len
            &&& packs && k < slot ==> s.fill[k] + x.len > 7
            &&& packs && k != slot ==> n.fill[k] == s.fill[k]
            &&& packs ==> n.commands.last() == define_command(
                slot as int,
                source_of(x.pid)->0,
                x.len as nat,
            )
            &&& packs ==> n.unpack[slot].last() == (PackedView {
                pid: text::upper(x.pid),
                offset: s.fill[slot as int],
                len: x.len as nat,
            })
        }),
{
    let n = pack_one(s, x);
    lemma_fit_bound(s.fill, x.len as nat);
    let at = first_fit(s.fill, x.len as nat);
    if finds_place(s.fill, x) {
        assert(at as u8 == at);
        assert(n.records.last() == (at as u8, text::upper(x.pid)));
    } else {
        assert(n.records == s.records);
    }
}

/// The command that starts a stream gives the rate and then the slots in use,
/// from zero on, two digits each.
pub proof fn the_start_names_the_used_slots(
    v: Seq<SignalView>,
    profile: ProfileView,
    d: DefineSet,
    i: int,
)
    requires
        is_define_set(v, profile, d),
        0 <= i < d.slots_used,
        i <= 255,
        d.slots_used <= 256,
    ensures
        ({
            let c = d.start_command@;
            &&& c.len() == 4 + 2 * d.slots_used
            &&& c.take(2) == "2A"@
            &&& text::hex_number(c.subrange(2, 4)) == profile.rate_mode
            &&& text::hex_number(c.subrange(4 + 2 * i, 6 + 2 * i)) == i
        }),
{
    reveal_strlit("2A");
    let c = d.start_command@;
    let n = used_slots(packed(v, profile.slot_count).fill);
    let r = text::hex_padded(profile.rate_mode as nat, 2);
    text::lemma_hex_padded(profile.rate_mode as nat, 2);
    lemma_two_digits(profile.rate_mode as nat);
    lemma_slot_list(n, i);
    assert(c =~= "2A"@ + r + slot_list(n));
    assert(c.take(2) =~= "2A"@);
    assert(c.subrange(2, 4) =~= r);
    assert(c.subrange(4 + 2 * i, 6 + 2 * i) =~= slot_list(n).subrange(2 * i, 2 * i + 2));
}

proof fn lemma_two_digits(n: nat)
    requires
        n <= 255,
    ensures
        text::hex_padded(n, 2).len() == 2,
{
    reveal_with_fuel(text::hex_padded, 4);
    assert(n / 16 / 16 == 0);
}

proof fn lemma_slot_list(n: nat, i: int)
    requires
        0 <= i < n <= 256,
    ensures
        slot_list(n).len() == 2 * n,
        text::hex_number(slot_list(n).subrange(2 * i, 2 * i + 2)) == i,
    decreases n,
{
    let m = (n - 1) as nat;
    let last = text::hex_padded(m, 2);
    lemma_two_digits(m);
    text::lemma_hex_padded(m, 2);
    if m > 0 {
        lemma_slot_list(
            m,
            if i < m {
                i
            } else {
                0
            },
        );
    }
    if i < m {
        assert(slot_list(n).subrange(2 * i, 2 * i + 2) =~= slot_list(m).subrange(
            2 * i,
            2 * i + 2,
        ));
    } else {
        assert(slot_list(n).subrange(2 * i, 2 * i + 2) =~= last);
    }
}

/// As many slots are used as hold at least a byte: a slot more in use counts
/// for one, wherever it stands.
pub proof fn used_slots_are_those_that_hold_something(fill: Seq<nat>, i: int, n: nat)
    requires
        0 <= i < fill.len(),
        fill[i] == 0,
        n > 0,
    ensures
        used_slots(fill.update(i, n)) == used_slots(fill) + 1,
        (forall|j: int| 0 <= j < fill.len() ==> fill[j] == 0) ==> used_slots(fill) == 0,
    decreases fill.len(),
{
    let now = fill.update(i, n);
    if i < fill.len() - 1 {
        assert(now.drop_last() =~= fill.drop_last().update(i, n));
        used_slots_are_those_that_hold_something(fill.drop_last(), i, n);
    } else {
        assert(now.drop_last() =~= fill.drop_last());
    }
    if forall|j: int| 0 <= j < fill.len() ==> fill[j] == 0 {
        lemma_none_used(fill);
    }
}

proof fn lemma_none_used(fill: Seq<nat>)
    requires
        forall|j: int| 0 <= j < fill.len() ==> fill[j] == 0,
    ensures
        used_slots(fill) == 0,
    decreases fill.len(),
{
    if fill.len() > 0 {
        assert forall|j: int| 0 <= j < fill.drop_last().len() implies fill.drop_last()[j] == 0 by {
            assert(fill[j] == 0);
        }
        lemma_none_used(fill.drop_last());
        assert(fill[fill.len() - 1] == 0);
    }
}

/// The three rates are numbered from one, the slowest first; without a word the
/// fastest is meant; any other word makes an entry malformed.
pub proof fn rates_are_numbered(word: Option<Seq<char>>)
    ensures
        rate_of(Some("slow"@)) == Some(1u8),
        rate_of(Some("medium"@)) == Some(2u8),
        rate_of(Some("fast"@)) == Some(3u8),
        rate_of(None) == Some(3u8),
        rate_of(word) is None <==> word is Some && word->0 != "slow"@ && word->0 != "medium"@
            && word->0 != "fast"@,
{
    reveal_strlit("slow");
    reveal_strlit("medium");
    reveal_strlit("fast");
    assert("slow"@.len() == 4 && "medium"@.len() == 6 && "fast"@.len() == 4);
    assert("slow"@[0] == 's' && "fast"@[0] == 'f');
}

/// The cleaned ids are the ids that are not blank, trimmed and in upper case,
/// in their order.
pub proof fn cleaned_ids_are_the_ids(ids: Seq<Seq<char>>, more: Seq<char>)
    ensures
        clean_ids(ids.push(more)) == clean_ids(ids) + (if text::upper(text::trim(more)).len() > 0 {
            seq![text::upper(text::trim(more))]
        } else {
            Seq::empty()
        }),
        clean_ids(Seq::empty()).len() == 0,
        forall|i: int| 0 <= i < clean_ids(ids).len() ==> (#[trigger] clean_ids(ids)[i]).len() > 0,
    decreases ids.len(),
{
    assert(ids.push(more).drop_last() =~= ids);
    assert(ids.push(more).last() == more);
    assert(clean_ids(ids.push(more)) =~= clean_ids(ids) + (if text::upper(
        text::trim(more),
    ).len() > 0 {
        seq![text::upper(text::trim(more))]
    } else {
        Seq::empty()
    }));
    if ids.len() > 0 {
        cleaned_ids_are_the_ids(ids.drop_last(), more);
    }
}

/// An entry makes a profile where it has a name, a target, an id, a rate and
/// between one and 256 slots; what it leaves out of the keepalive is four
/// seconds and a fifth of one.
pub proof fn what_makes_a_profile(raw: RawView)
    ensures
        profile_of(raw) is Some <==> raw.name is Some && raw.target is Some && raw.response_ids
            is Some && clean_ids(raw.response_ids->0).len() > 0 && raw.slot_count is Some && 1
            <= raw.slot_count->0 <= 256 && rate_of(raw.periodic_rate) is Some,
        profile_of(raw) is Some ==> ({
            let p = profile_of(raw)->0;
            &&& p.name == raw.name->0
            &&& p.target == text::upper(raw.target->0)
            &&& p.response_ids == clean_ids(raw.response_ids->0)
            &&& p.slot_count == raw.slot_count->0
            &&& Some(p.rate_mode) == rate_of(raw.periodic_rate)
            &&& raw.keepalive_interval_ms is Some ==> Some(p.keepalive_interval_ms)
                == raw.keepalive_interval_ms
            &&& raw.keepalive_interval_ms is None ==> p.keepalive_interval_ms == 4000
            &&& raw.keepalive_settle_ms is Some ==> Some(p.keepalive_settle_ms)
                == raw.keepalive_settle_ms
            &&& raw.keepalive_settle_ms is None ==> p.keepalive_settle_ms == 200
        }),
{
}

/// The fields of an entry are read from the members of their names.
pub proof fn fields_are_read_by_name(m: Seq<(Seq<char>, Seq<char>)>)
    ensures
        raw_of(m).name == string_field(m, "name"@),
        raw_of(m).target == string_field(m, "target"@),
        raw_of(m).response_ids == list_field(m, "responseIds"@),
        raw_of(m).slot_count == number_field(m, "slotCount"@),
        raw_of(m).periodic_rate == string_field(m, "periodicRate"@),
        raw_of(m).keepalive_interval_ms == number_field(m, "keepaliveIntervalMs"@),
        raw_of(m).keepalive_settle_ms == number_field(m, "keepaliveSettleMs"@),
{
}

/// A file's profiles are those of its members, in order; a member whose tag
/// begins with an underscore is a comment and gives none.
pub proof fn each_member_gives_its_profile(
    m: Seq<(Seq<char>, Seq<char>)>,
    tag: Seq<char>,
    value: Seq<char>,
)
    ensures
        profiles_of(m.push((tag, value))).len() <= profiles_of(m).len() + 1,
        profiles_of(m.push((tag, value))).take(profiles_of(m).len() as int) == profiles_of(m),
        tag.len() > 0 && tag[0] == '_' ==> profiles_of(m.push((tag, value))) == profiles_of(m),
        json::object_of(value) is None ==> profiles_of(m.push((tag, value))) == profiles_of(m),
        !(tag.len() > 0 && tag[0] == '_') && json::object_of(value) is Some && profile_of(
            raw_of(json::object_of(value)->0),
        ) is Some ==> profiles_of(m.push((tag, value))) == profiles_of(m).push(
            (tag, profile_of(raw_of(json::object_of(value)->0))->0),
        ),
{
    let n = m.push((tag, value));
    assert(n.drop_last() =~= m);
    assert(n.last() == (tag, value));
    assert(profiles_of(n).take(profiles_of(m).len() as int) =~= profiles_of(m));
}

/// A set is refused as soon as one signal names a target other than the
/// profile's, whatever the others say; a signal without a target never is the
/// reason.
pub proof fn a_foreign_target_refuses_the_set(v: Seq<SignalView>, x: SignalView, target: Seq<char>)
    ensures
        mixed_target(v.push(x), target) <==> mixed_target(v, target) || (x.target is Some
            && text::upper(x.target->0) != target),
        x.target is None ==> (mixed_target(v.push(x), target) <==> mixed_target(v, target)),
        !mixed_target(Seq::empty(), target),
{
    let w = v.push(x);
    if mixed_target(v, target) {
        let i = choose|i: int|
            0 <= i < v.len() && (#[trigger] v[i]).target is Some && text::upper(v[i].target->0)
                != target;
        assert(w[i] == v[i]);
    }
    if x.target is Some && text::upper(x.target->0) != target {
        assert(w[v.len() as int] == x);
    }
    if mixed_target(w, target) {
        let i = choose|i: int|
            0 <= i < w.len() && (#[trigger] w[i]).target is Some && text::upper(w[i].target->0)
                != target;
        if i < v.len() {
            assert(v[i] == w[i]);
        }
    }
}

/// A refused signal leaves its slot: the first one of that pid goes, the others
/// keep their pids, their lengths and their order; a slot that is left without a
/// signal goes too, and every other slot stays.
pub proof fn a_refused_signal_leaves_its_slot(
    m: Map<u8, Seq<PackedView>>,
    slot: u8,
    other: u8,
    i: int,
    j: int,
    pid: Seq<char>,
)
    requires
        m.contains_key(slot),
        0 <= i < m[slot].len(),
        m[slot][i].pid == pid,
        forall|k: int| 0 <= k < i ==> (#[trigger] m[slot][k]).pid != pid,
        other != slot,
        0 <= j < m[slot].len() - 1,
    ensures
        ({
            let n = without_refused(m, slot, pid);
            let from = if j < i {
                j
            } else {
                j + 1
            };
            &&& n.contains_key(slot) && n[slot].len() == m[slot].len() - 1
            &&& n[slot][j].pid == m[slot][from].pid && n[slot][j].len == m[slot][from].len
            &&& n.contains_key(other) <==> m.contains_key(other)
            &&& m.contains_key(other) ==> n[other] == m[other]
        }),
{
    lemma_place_is_first(m[slot], pid, i);
}

/// A slot of one signal goes with it; what is not there changes nothing.
pub proof fn an_emptied_slot_goes(m: Map<u8, Seq<PackedView>>, slot: u8, other: u8, pid: Seq<char>)
    requires
        other != slot,
    ensures
        m.contains_key(slot) && m[slot].len() == 1 && m[slot][0].pid == pid ==> without_refused(
            m,
            slot,
            pid,
        ) == m.remove(slot),
        !m.contains_key(slot) || (forall|k: int|
            0 <= k < m[slot].len() ==> (#[trigger] m[slot][k]).pid != pid) ==> without_refused(
            m,
            slot,
            pid,
        ) == m,
{
    if m.contains_key(slot) {
        if m[slot].len() == 1 && m[slot][0].pid == pid {
            lemma_place_is_first(m[slot], pid, 0);
        }
        lemma_place_found(m[slot], pid);
    }
}

proof fn lemma_place_found(v: Seq<PackedView>, pid: Seq<char>)
    ensures
        place_of(v, pid) < v.len(),
        place_of(v, pid) >= 0 ==> v[place_of(v, pid)].pid == pid,
    decreases v.len(),
{
    if v.len() > 0 {
        lemma_place_found(v.drop_last(), pid);
    }
}

proof fn lemma_place_is_first(v: Seq<PackedView>, pid: Seq<char>, i: int)
    requires
        0 <= i < v.len(),
        v[i].pid == pid,
        forall|k: int| 0 <= k < i ==> (#[trigger] v[k]).pid != pid,
    ensures
        place_of(v, pid) == i,
    decreases v.len(),
{
    let head = v.drop_last();
    if i < v.len() - 1 {
        lemma_place_is_first(head, pid, i);
    } else {
        lemma_place_found(head, pid);
        let p = place_of(head, pid);
        if p >= 0 {
            assert(v[p] == head[p]);
        }
    }
}

/// A frame that is cut off gives the signals that are whole in it and no other:
/// a signal more at the end changes nothing of those before it.
pub proof fn a_cut_frame_gives_whole_signals(v: Seq<PackedView>, s: PackedView, data: Seq<u8>)
    ensures
        s.offset + s.len <= data.len() ==> sliced(v.push(s), data) == sliced(v, data).push(
            (s.pid, Seq::new(s.len, |i: int| data[s.offset + i])),
        ),
        s.offset + s.len > data.len() ==> sliced(v.push(s), data) == sliced(v, data),
        sliced(Seq::empty(), data).len() == 0,
{
    assert(v.push(s).drop_last() =~= v);
    assert(v.push(s).last() == s);
    if s.offset + s.len <= data.len() {
        assert(data.subrange(s.offset as int, (s.offset + s.len) as int) =~= Seq::new(
            s.len,
            |i: int| data[s.offset + i],
        ));
    }
}

/// A frame that an 11-bit bus shows is decoded by its id and its bytes.
pub proof fn a_shown_frame_is_decoded(
    f: crate::link::dvi::codec::RxView,
    ids: Seq<Seq<char>>,
    unpack: Map<u8, Seq<PackedView>>,
)
    requires
        f.id <= 0x7FF,
        f.data.len() > 0,
    ensures
        line_decoded(crate::link::dvi::framing::rendered(f), ids, unpack) == decoded(
            text::hex_padded(f.id as nat, 3),
            f.data,
            ids,
            unpack,
        ),
{
    let line = crate::link::dvi::framing::rendered(f);
    crate::link::dvi::framing::a_rendered_frame_is_read_back(f);
    let t = text::words(line);
    let h = text::hex_padded(f.id as nat, 3);
    assert(t[0] == h);
    assert(t.len() == 1 + f.data.len());
    text::lemma_hex_padded(f.id as nat, 3);
    lemma_digits_stay(h);
    reveal_with_fuel(text::hex_padded, 5);
    assert((f.id as nat) / 16 / 16 / 16 == 0);
    assert(h =~= seq![
        text::digit_char((f.id as nat) / 16 / 16 % 16),
        text::digit_char((f.id as nat) / 16 % 16),
        text::digit_char((f.id as nat) % 16),
    ]);
    assert(text::upper(h) =~= h);
    assert forall|i: int| 1 <= i < t.len() implies text::bare_hex(#[trigger] t[i], 255) == Some(
        f.data[i - 1] as nat,
    ) by {
        text::lemma_hex_padded(f.data[i - 1] as nat, 2);
    }
    assert(bytes_behind(t) =~= f.data);
}

/// A frame decodes to nothing where its id is not listed, where it has no slot
/// byte, and where nothing was defined for the slot.
pub proof fn what_decodes_to_nothing(
    id: Seq<char>,
    data: Seq<u8>,
    ids: Seq<Seq<char>>,
    unpack: Map<u8, Seq<PackedView>>,
)
    ensures
        !ids.contains(id) ==> decoded(id, data, ids, unpack).len() == 0,
        data.len() == 0 ==> decoded(id, data, ids, unpack).len() == 0,
        data.len() > 0 && !unpack.contains_key(data[0]) ==> decoded(id, data, ids, unpack).len()
            == 0,
{
}

/// A line holds nothing where a word behind the first is no byte, and where
/// nothing stands behind the first word.
pub proof fn a_line_of_other_words_holds_nothing(
    words: Seq<Seq<char>>,
    i: int,
    ids: Seq<Seq<char>>,
    unpack: Map<u8, Seq<PackedView>>,
)
    requires
        forall|j: int| 0 <= j < words.len() ==> text::is_word(#[trigger] words[j]),
    ensures
        1 <= i < words.len() && (!text::all_hex(words[i]) || text::hex_number(words[i]) > 255)
            ==> line_decoded(text::join(words, " "@), ids, unpack).len() == 0,
        words.len() < 2 ==> line_decoded(text::join(words, " "@), ids, unpack).len() == 0,
{
    text::spaced_words_are_read_back(words);
    if 1 <= i < words.len() && (!text::all_hex(words[i]) || text::hex_number(words[i]) > 255) {
        assert(text::bare_hex(words[i], 255) is None);
        assert(!bytes_follow(words));
    }
}

} // verus!
