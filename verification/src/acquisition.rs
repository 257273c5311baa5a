//! Acquisition plugins: they turn the picks of the scheduler into wire
//! transactions and account for every member.
//!
//! Polling has two independent axes:
//! - pipes (per adapter): several segments in one exchange (`010C|010D`);
//! - chunks (per vehicle): several pids in one request (`010C0D`).
//!
//! With both off, the wire is the pid itself.
use crate::length_cache;
use crate::length_cache::LengthCache;
use crate::link::elm;
use crate::text;
use vstd::prelude::*;

verus! {

/// One due pick of the scheduler.
#[derive(Debug, Clone, PartialEq)]
pub struct DuePick {
    pub pid: String,
    pub controller: Option<String>,
    pub timeout_ms: Option<u32>,
}

/// A pick as a mathematical value.
#[verifier::ext_equal]
pub struct PickView {
    pub pid: Seq<char>,
    pub controller: Option<Seq<char>>,
    pub timeout_ms: Option<u32>,
}

impl View for DuePick {
    type V = PickView;

    open spec fn view(&self) -> PickView {
        PickView {
            pid: self.pid@,
            controller: text::opt(self.controller),
            timeout_ms: self.timeout_ms,
        }
    }
}

/// The views of picks.
pub open spec fn pick_views(v: Seq<DuePick>) -> Seq<PickView> {
    Seq::new(v.len(), |i: int| v[i]@)
}

/// The views of borrowed picks.
pub open spec fn pick_ref_views(v: Seq<&DuePick>) -> Seq<PickView> {
    Seq::new(v.len(), |i: int| v[i]@)
}

/// The pids of picks.
pub open spec fn pids_of(v: Seq<PickView>) -> Seq<Seq<char>> {
    Seq::new(v.len(), |i: int| v[i].pid)
}

/// A copy of an optional text.
fn copy_opt(s: &Option<String>) -> (r: Option<String>)
    ensures
        text::opt(r) == text::opt(*s),
{
    match s {
        Some(t) => Some(t.clone()),
        None => None,
    }
}

impl DuePick {
    /// A copy of the pick.
    pub fn duplicate(&self) -> (r: DuePick)
        ensures
            r@ == self@,
    {
        DuePick {
            pid: self.pid.clone(),
            controller: copy_opt(&self.controller),
            timeout_ms: self.timeout_ms,
        }
    }
}

/// One wire transaction with its members: segment `j` of the reply belongs to
/// `segments[j]`. A segment of one member is an ordinary request, a longer one
/// a chunk.
#[derive(Debug, Clone, PartialEq)]
pub struct NextCommand {
    /// The exact text for the wire.
    pub wire: String,
    /// Member pids per segment, in wire order.
    pub segments: Vec<Vec<String>>,
    /// Target controller.
    pub target: Option<String>,
    /// Timeout of this command, where it has one of its own.
    pub timeout_ms: Option<u32>,
}

/// The members of all segments one after the other.
pub open spec fn flat_members(segments: Seq<Seq<Seq<char>>>) -> Seq<Seq<char>>
    decreases segments.len(),
{
    if segments.len() == 0 {
        Seq::empty()
    } else {
        flat_members(segments.drop_last()) + segments.last()
    }
}

impl NextCommand {
    /// All member pids in wire order.
    pub fn members(&self) -> (r: Vec<String>)
        ensures
            text::views(r@) == flat_members(elm::segment_views(self.segments@)),
    {
        let ghost all = elm::segment_views(self.segments@);
        let mut out: Vec<String> = Vec::new();
        let mut i: usize = 0;
        assert(text::views(out@) =~= flat_members(all.take(0)));
        while i < self.segments.len()
            invariant
                i <= self.segments@.len(),
                all == elm::segment_views(self.segments@),
                text::views(out@) == flat_members(all.take(i as int)),
            decreases self.segments@.len() - i,
        {
            assert(all.take(i + 1).drop_last() =~= all.take(i as int));
            let mut more = text::clone_strings(&self.segments[i]);
            let ghost before = text::views(out@);
            let ghost added = text::views(more@);
            out.append(&mut more);
            assert(text::views(out@) =~= before + added);
            i += 1;
        }
        assert(all.take(i as int) =~= all);
        out
    }
}

/// Services that plugins share.
pub struct PluginCtx {
    pub length_cache: LengthCache,
}

impl PluginCtx {
    /// The confirmed data length of a pid; nothing means that it rides alone.
    pub fn pid_len(&self, pid: &str) -> (r: Option<u8>)
        ensures
            r == length_cache::learned(self.length_cache@, pid@),
    {
        self.length_cache.get(pid)
    }
}

/// Pids per chunk.
pub const CHUNK_MAX_PIDS: usize = 6;

/// Identifiers per mode 22 chunk; a controller that answers a pair may refuse
/// three.
pub const MODE22_CHUNK_MAX_DIDS: usize = 2;

/// Segments per piped exchange.
pub const PIPE_MAX_SEGMENTS: usize = 12;

/// What is known of mode 22 chunks: the first pair that is sent decides.
#[derive(Debug, Clone, Copy, PartialEq, Eq, Structural)]
pub enum Mode22ChunkState {
    /// Off until it is armed.
    Disabled,
    /// The next pair is the probe.
    Untried,
    /// A pair was answered.
    Capable,
    /// A pair was refused: no further one until it is armed anew.
    Refused,
}

/// What is known of mode 22 chunks after a pair was answered or refused.
pub open spec fn pair_noted(state: Mode22ChunkState, ok: bool) -> Mode22ChunkState {
    match state {
        Mode22ChunkState::Disabled => Mode22ChunkState::Disabled,
        Mode22ChunkState::Refused => Mode22ChunkState::Refused,
        _ => if ok {
            Mode22ChunkState::Capable
        } else {
            Mode22ChunkState::Refused
        },
    }
}

/// Whether `p`, in upper case, is a mode 01 data pid.
pub open spec fn plain_mode01(p: Seq<char>) -> bool {
    &&& p.len() == 4
    &&& p.take(2) == "01"@
    &&& text::all_hex(p.skip(2))
    &&& p.skip(2) != "00"@
    &&& p.skip(2) != "20"@
    &&& p.skip(2) != "40"@
    &&& p.skip(2) != "60"@
    &&& p.skip(2) != "01"@
}

/// Whether `p`, in upper case, is a mode 22 data pid.
pub open spec fn plain_mode22(p: Seq<char>) -> bool {
    &&& p.len() == 6
    &&& p.take(2) == "22"@
    &&& text::all_hex(p.skip(2))
    &&& !text::starts_with(p.skip(2), "F2"@)
    &&& !text::starts_with(p.skip(2), "00"@)
}

fn split_pid(pid: &str, width: usize) -> (r: Option<(String, String)>)
    ensures
        ({
            let p = text::upper(text::trim(pid@));
            if p.len() == width && width >= 2 {
                r matches Some(x) && x.0@ == p.take(2) && x.1@ == p.skip(2)
            } else {
                r is None
            }
        }),
{
    let t = text::trim_text(pid, text::Blank::White);
    let u = text::to_upper(t.as_str());
    let v = text::chars_of(u.as_str());
    if v.len() != width || width < 2 {
        return None;
    }
    let a = text::substring(v.as_slice(), 0, 2);
    let b = text::substring(v.as_slice(), 2, width);
    assert(a@ =~= v@.take(2));
    assert(b@ =~= v@.skip(2));
    Some((a, b))
}

/// A plain mode 01 data pid, the only kind that joins a mode 01 chunk. Support
/// queries, monitor status and everything that is not exactly `01XX` are not.
pub fn is_plain_mode01_data_pid(pid: &str) -> (r: bool)
    ensures
        r == plain_mode01(text::upper(text::trim(pid@))),
{
    match split_pid(pid, 4) {
        None => false,
        Some(p) => {
            let rest = p.1.as_str();
            text::same(p.0.as_str(), "01") && text::is_all_hex(rest)
                && !text::same(rest, "00") && !text::same(rest, "20") && !text::same(rest, "40")
                && !text::same(rest, "60") && !text::same(rest, "01")
        },
    }
}

/// A plain mode 22 data pid, the only kind that joins a mode 22 chunk. Dynamic
/// identifiers (`F2xx`) and those whose high byte is `00`, which look like
/// padding, are not.
pub fn is_plain_mode22_data_pid(pid: &str) -> (r: bool)
    ensures
        r == plain_mode22(text::upper(text::trim(pid@))),
{
    match split_pid(pid, 6) {
        None => false,
        Some(p) => {
            let rest = p.1.as_str();
            text::same(p.0.as_str(), "22") && text::is_all_hex(rest)
                && !text::begins_with(rest, "F2") && !text::begins_with(rest, "00")
        },
    }
}

/// Which chunk a pid may join; modes never mix in one wire.
#[derive(Debug, Clone, Copy, PartialEq, Eq, Structural)]
pub enum ChunkClass {
    Mode01,
    Mode22,
}

/// What may ride together in one exchange.
pub struct Admission {
    /// Segments per exchange (1 without pipes).
    pub max_segments: usize,
    /// Pids per mode 01 chunk (1 without chunks).
    pub chunk_limit: usize,
    /// Identifiers per mode 22 chunk (1 without chunks).
    pub chunk22_limit: usize,
    /// Pids, in upper case, that this vehicle leaves out of chunk replies; they
    /// ride alone.
    pub chunk_excluded: Vec<String>,
}

/// What may ride together, as a mathematical value.
#[verifier::ext_equal]
pub struct AdmissionView {
    pub max_segments: nat,
    pub chunk_limit: nat,
    pub chunk22_limit: nat,
    pub chunk_excluded: Set<Seq<char>>,
}

impl View for Admission {
    type V = AdmissionView;

    open spec fn view(&self) -> AdmissionView {
        AdmissionView {
            max_segments: self.max_segments as nat,
            chunk_limit: self.chunk_limit as nat,
            chunk22_limit: self.chunk22_limit as nat,
            chunk_excluded: text::views(self.chunk_excluded@).to_set(),
        }
    }
}

/// The chunk that a pid may join: one of its mode, where that mode has chunks,
/// the pid's length is confirmed and the vehicle does not leave it out.
pub open spec fn class_of(a: AdmissionView, lengths: Map<Seq<char>, u8>, pid: Seq<char>) -> Option<
    ChunkClass,
> {
    let p = text::upper(text::trim(pid));
    let admitted = !a.chunk_excluded.contains(p) && length_cache::learned(lengths, pid) is Some;
    if a.chunk_limit > 1 && plain_mode01(p) {
        if admitted {
            Some(ChunkClass::Mode01)
        } else {
            None
        }
    } else if a.chunk22_limit > 1 && plain_mode22(p) {
        if admitted {
            Some(ChunkClass::Mode22)
        } else {
            None
        }
    } else {
        None
    }
}

/// The size of a chunk.
pub open spec fn limit_of(a: AdmissionView, class: ChunkClass) -> nat {
    match class {
        ChunkClass::Mode01 => a.chunk_limit,
        ChunkClass::Mode22 => a.chunk22_limit,
    }
}

/// A chunk that is being filled. A mode 22 chunk goes to one controller.
#[verifier::ext_equal]
pub struct ChunkView {
    pub class: ChunkClass,
    pub controller: Option<Seq<char>>,
    pub members: Seq<PickView>,
}

/// The controller that a chunk for a pick is bound to.
pub open spec fn chunk_controller(class: ChunkClass, p: PickView) -> Option<Seq<char>> {
    match class {
        ChunkClass::Mode01 => None,
        ChunkClass::Mode22 => p.controller,
    }
}

/// Whether a chunk takes one more pick of this class and controller.
pub open spec fn has_room(
    c: ChunkView,
    class: ChunkClass,
    controller: Option<Seq<char>>,
    limit: nat,
) -> bool {
    c.class == class && c.controller == controller && c.members.len() < limit
}

/// The first chunk that takes one more pick; -1 where there is none.
pub open spec fn first_room(
    chunks: Seq<ChunkView>,
    class: ChunkClass,
    controller: Option<Seq<char>>,
    limit: nat,
) -> int
    decreases chunks.len(),
{
    if chunks.len() == 0 {
        -1
    } else {
        let before = first_room(chunks.drop_last(), class, controller, limit);
        if before >= 0 {
            before
        } else if has_room(chunks.last(), class, controller, limit) {
            chunks.len() - 1
        } else {
            -1
        }
    }
}

/// The chunks and the lone picks of a list, filled in order.
pub open spec fn filled(
    a: AdmissionView,
    lengths: Map<Seq<char>, u8>,
    due: Seq<PickView>,
) -> (Seq<ChunkView>, Seq<PickView>)
    decreases due.len(),
{
    if due.len() == 0 {
        (Seq::empty(), Seq::empty())
    } else {
        let (chunks, solos) = filled(a, lengths, due.drop_last());
        let p = due.last();
        match class_of(a, lengths, p.pid) {
            None => (chunks, solos.push(p)),
            Some(class) => {
                let controller = chunk_controller(class, p);
                let i = first_room(chunks, class, controller, limit_of(a, class));
                if i >= 0 {
                    (
                        chunks.update(
                            i,
                            ChunkView { members: chunks[i].members.push(p), ..chunks[i] },
                        ),
                        solos,
                    )
                } else {
                    (chunks.push(ChunkView { class, controller, members: seq![p] }), solos)
                }
            },
        }
    }
}

/// The segments of a list of picks: its chunks in the order in which they were
/// opened, then the lone picks.
pub open spec fn grouped(
    a: AdmissionView,
    lengths: Map<Seq<char>, u8>,
    due: Seq<PickView>,
) -> Seq<Seq<PickView>> {
    let (chunks, solos) = filled(a, lengths, due);
    Seq::new(chunks.len(), |i: int| chunks[i].members) + Seq::new(
        solos.len(),
        |i: int| seq![solos[i]],
    )
}

/// The views of groups.
pub open spec fn group_views(v: Seq<Vec<&DuePick>>) -> Seq<Seq<PickView>> {
    Seq::new(v.len(), |i: int| pick_ref_views(v[i]@))
}

/// A chunk that is being filled.
struct Chunk<'a> {
    class: ChunkClass,
    controller: Option<&'a String>,
    members: Vec<&'a DuePick>,
}

/// The view of an optional borrowed text.
spec fn opt_ref_text(s: Option<&String>) -> Option<Seq<char>> {
    match s {
        Some(t) => Some(t@),
        None => None,
    }
}

spec fn chunk_view(c: Chunk<'_>) -> ChunkView {
    ChunkView {
        class: c.class,
        controller: opt_ref_text(c.controller),
        members: pick_ref_views(c.members@),
    }
}

spec fn chunk_views(v: Seq<Chunk<'_>>) -> Seq<ChunkView> {
    Seq::new(v.len(), |i: int| chunk_view(v[i]))
}

fn same_controller(a: &Option<&String>, b: &Option<&String>) -> (r: bool)
    ensures
        r == (opt_ref_text(*a) == opt_ref_text(*b)),
{
    match (a, b) {
        (Some(x), Some(y)) => text::same(x.as_str(), y.as_str()),
        (None, None) => true,
        _ => false,
    }
}

fn find_room<'a>(
    chunks: &Vec<Chunk<'a>>,
    class: ChunkClass,
    controller: &Option<&'a String>,
    limit: usize,
) -> (r: Option<usize>)
    ensures
        match r {
            Some(i) => i < chunks@.len() && first_room(
                chunk_views(chunks@),
                class,
                opt_ref_text(*controller),
                limit as nat,
            ) == i,
            None => first_room(
                chunk_views(chunks@),
                class,
                opt_ref_text(*controller),
                limit as nat,
            ) < 0,
        },
{
    let ghost all = chunk_views(chunks@);
    let ghost ctrl = opt_ref_text(*controller);
    let mut i: usize = 0;
    while i < chunks.len()
        invariant
            i <= chunks@.len(),
            all == chunk_views(chunks@),
            ctrl == opt_ref_text(*controller),
            first_room(all.take(i as int), class, ctrl, limit as nat) < 0,
        decreases chunks@.len() - i,
    {
        assert(all.take(i + 1).drop_last() =~= all.take(i as int));
        assert(all.take(i + 1).last() == chunk_view(chunks@[i as int]));
        if chunks[i].class == class && same_controller(&chunks[i].controller, controller)
            && chunks[i].members.len() < limit {
            proof {
                lemma_room_stays(all, i + 1, class, ctrl, limit as nat);
            }
            return Some(i);
        }
        i += 1;
    }
    assert(all.take(i as int) =~= all);
    None
}

proof fn lemma_room_stays(
    v: Seq<ChunkView>,
    n: int,
    class: ChunkClass,
    controller: Option<Seq<char>>,
    limit: nat,
)
    requires
        0 <= n <= v.len(),
        first_room(v.take(n), class, controller, limit) >= 0,
    ensures
        first_room(v, class, controller, limit) == first_room(v.take(n), class, controller, limit),
    decreases v.len() - n,
{
    if n == v.len() {
        assert(v.take(n) =~= v);
    } else {
        assert(v.take(n + 1).drop_last() =~= v.take(n));
        lemma_room_stays(v, n + 1, class, controller, limit);
    }
}

impl Admission {
    /// One pick at a time.
    pub fn single() -> (r: Self)
        ensures
            r@ == one_at_a_time(),
    {
        let r = Admission {
            max_segments: 1,
            chunk_limit: 1,
            chunk22_limit: 1,
            chunk_excluded: Vec::new(),
        };
        assert(r@.chunk_excluded =~= Set::<Seq<char>>::empty());
        r
    }

    /// Whether a pid joins a chunk, as against riding in a segment of its own.
    pub fn is_chunk_member(&self, pid: &str, lengths: &LengthCache) -> (r: bool)
        ensures
            r == (class_of(self@, lengths@, pid@) is Some),
    {
        self.chunk_class(pid, lengths).is_some()
    }

    /// Which chunk, if any, a pid may join. Only pids with a confirmed length
    /// are batched, and the limits of the modes hold independently.
    pub fn chunk_class(&self, pid: &str, lengths: &LengthCache) -> (r: Option<ChunkClass>)
        ensures
            r == class_of(self@, lengths@, pid@),
    {
        let class = if self.chunk_limit > 1 && is_plain_mode01_data_pid(pid) {
            ChunkClass::Mode01
        } else if self.chunk22_limit > 1 && is_plain_mode22_data_pid(pid) {
            ChunkClass::Mode22
        } else {
            return None;
        };
        let t = text::trim_text(pid, text::Blank::White);
        let p = text::to_upper(t.as_str());
        proof {
            text::lemma_contains_view(self.chunk_excluded@, p@);
        }
        if !text::has_text(&self.chunk_excluded, p.as_str()) && lengths.get(pid).is_some() {
            Some(class)
        } else {
            None
        }
    }

    fn class_limit(&self, class: ChunkClass) -> (r: usize)
        ensures
            r == limit_of(self@, class),
    {
        match class {
            ChunkClass::Mode01 => self.chunk_limit,
            ChunkClass::Mode22 => self.chunk22_limit,
        }
    }

    /// The segments of a list of picks: picks that may be batched are merged
    /// into chunks of their mode (a mode 22 chunk goes to one controller),
    /// everything else rides in a segment of its own. Chunks come first, in
    /// the order in which they were opened.
    pub fn group<'a>(&self, due: &'a [DuePick], lengths: &LengthCache) -> (r: Vec<Vec<&'a DuePick>>)
        ensures
            group_views(r@) == grouped(self@, lengths@, pick_views(due@)),
    {
        let ghost all = pick_views(due@);
        let ghost adm = self@;
        let mut chunks: Vec<Chunk<'a>> = Vec::new();
        let mut solos: Vec<&'a DuePick> = Vec::new();
        let mut i: usize = 0;
        assert(chunk_views(chunks@) =~= filled(adm, lengths@, all.take(0)).0);
        assert(pick_ref_views(solos@) =~= filled(adm, lengths@, all.take(0)).1);
        while i < due.len()
            invariant
                i <= due@.len(),
                all == pick_views(due@),
                adm == self@,
                chunk_views(chunks@) == filled(adm, lengths@, all.take(i as int)).0,
                pick_ref_views(solos@) == filled(adm, lengths@, all.take(i as int)).1,
            decreases due@.len() - i,
        {
            let p: &'a DuePick = &due[i];
            assert(all.take(i + 1).drop_last() =~= all.take(i as int));
            assert(all.take(i + 1).last() == p@);
            let ghost chunks0 = chunk_views(chunks@);
            let ghost solos0 = pick_ref_views(solos@);
            match self.chunk_class(p.pid.as_str(), lengths) {
                Some(class) => {
                    let controller: Option<&'a String> = match class {
                        ChunkClass::Mode01 => None,
                        ChunkClass::Mode22 => p.controller.as_ref(),
                    };
                    assert(opt_ref_text(controller) == chunk_controller(class, p@));
                    match find_room(&chunks, class, &controller, self.class_limit(class)) {
                        Some(k) => {
                            let mut c = chunks.remove(k);
                            let ghost c0 = chunk_view(c);
                            assert(c0 == chunks0[k as int]);
                            c.members.push(p);
                            assert(pick_ref_views(c.members@) =~= c0.members.push(p@));
                            let ghost c1 = chunk_view(c);
                            chunks.insert(k, c);
                            assert(chunk_views(chunks@) =~= chunks0.update(k as int, c1));
                        },
                        None => {
                            let mut members: Vec<&'a DuePick> = Vec::new();
                            members.push(p);
                            assert(pick_ref_views(members@) =~= seq![p@]);
                            let c = Chunk { class, controller, members };
                            let ghost c1 = chunk_view(c);
                            chunks.push(c);
                            assert(chunk_views(chunks@) =~= chunks0.push(c1));
                        },
                    }
                },
                None => {
                    solos.push(p);
                    assert(pick_ref_views(solos@) =~= solos0.push(p@));
                },
            }
            i += 1;
        }
        assert(all.take(i as int) =~= all);
        let ghost done = chunk_views(chunks@);
        let ghost chunks1 = chunks@;
        let mut out: Vec<Vec<&'a DuePick>> = Vec::new();
        for c in it: chunks
            invariant
                it.seq() == chunks1,
                done == chunk_views(chunks1),
                out@.len() == it.index(),
                forall|j: int|
                    0 <= j < out@.len() ==> pick_ref_views((#[trigger] out@[j])@)
                        == done[j].members,
        {
            assert(chunk_view(c) == done[it.index() as int]);
            out.push(c.members);
        }
        let ghost n = out@.len();
        let mut k: usize = 0;
        while k < solos.len()
            invariant
                k <= solos@.len(),
                n == done.len(),
                out@.len() == n + k,
                forall|j: int|
                    0 <= j < n ==> pick_ref_views((#[trigger] out@[j])@) == done[j].members,
                forall|j: int|
                    n <= j < out@.len() ==> pick_ref_views((#[trigger] out@[j])@) == seq![
                        pick_ref_views(solos@)[j - n],
                    ],
            decreases solos@.len() - k,
        {
            let mut one: Vec<&'a DuePick> = Vec::new();
            one.push(solos[k]);
            assert(pick_ref_views(one@) =~= seq![pick_ref_views(solos@)[k as int]]);
            out.push(one);
            k += 1;
        }
        assert(group_views(out@) =~= grouped(adm, lengths@, all));
        out
    }

    /// Whether one more pick still fits the exchange.
    pub fn fits(&self, already: &[DuePick], candidate: &DuePick, lengths: &LengthCache) -> (r:
        bool)
        ensures
            r == (grouped(self@, lengths@, pick_views(already@).push(candidate@)).len()
                <= self@.max_segments),
    {
        let mut all: Vec<DuePick> = Vec::new();
        let mut i: usize = 0;
        while i < already.len()
            invariant
                i <= already@.len(),
                all@.len() == i,
                forall|j: int| 0 <= j < i ==> (#[trigger] all@[j])@ == already@[j]@,
            decreases already@.len() - i,
        {
            all.push(already[i].duplicate());
            i += 1;
        }
        all.push(candidate.duplicate());
        assert(pick_views(all@) =~= pick_views(already@).push(candidate@));
        let groups = self.group(all.as_slice(), lengths);
        assert(group_views(groups@).len() == groups@.len());
        groups.len() <= self.max_segments
    }
}

/// The wire order of a segment: a chunk is sorted, so that the same members
/// always give the same wire.
pub open spec fn segment_pids(g: Seq<PickView>) -> Seq<Seq<char>> {
    if g.len() > 1 {
        text::sorted_texts(pids_of(g))
    } else {
        pids_of(g)
    }
}

/// The segments of a list of picks in wire order.
pub open spec fn wire_segments(
    a: AdmissionView,
    lengths: Map<Seq<char>, u8>,
    due: Seq<PickView>,
) -> Seq<Seq<Seq<char>>> {
    if due.len() == 1 {
        seq![seq![due[0].pid]]
    } else {
        let g = grouped(a, lengths, due);
        Seq::new(g.len(), |i: int| segment_pids(g[i]))
    }
}

/// The longest timeout of a list of picks, where any has one.
pub open spec fn longest_timeout(due: Seq<PickView>) -> Option<u32>
    decreases due.len(),
{
    if due.len() == 0 {
        None
    } else {
        match (longest_timeout(due.drop_last()), due.last().timeout_ms) {
            (Some(a), Some(b)) => Some(
                if a < b {
                    b
                } else {
                    a
                },
            ),
            (Some(a), None) => Some(a),
            (None, b) => b,
        }
    }
}

/// Whether all segments of a list can be put on the wire.
pub open spec fn encodable(
    a: AdmissionView,
    lengths: Map<Seq<char>, u8>,
    due: Seq<PickView>,
) -> bool {
    forall|i: int|
        0 <= i < wire_segments(a, lengths, due).len() ==> elm::joinable(
            #[trigger] wire_segments(a, lengths, due)[i],
        )
}

/// Whether `c` is the transaction for a list of picks.
pub open spec fn is_transaction(
    a: AdmissionView,
    lengths: Map<Seq<char>, u8>,
    due: Seq<PickView>,
    c: NextCommand,
) -> bool {
    let segments = wire_segments(a, lengths, due);
    &&& elm::segment_views(c.segments@) == segments
    &&& c.wire@ == elm::wire_of(segments)
    &&& text::opt(c.target) == due[0].controller
    &&& c.timeout_ms == longest_timeout(due)
}

/// One pick at a time.
pub open spec fn one_at_a_time() -> AdmissionView {
    AdmissionView {
        max_segments: 1,
        chunk_limit: 1,
        chunk22_limit: 1,
        chunk_excluded: Set::empty(),
    }
}

/// A way to get subscription data on and off the wire.
pub trait AcquisitionPlugin {
    /// What may ride together, as far as the plugin knows: one pick at a time,
    /// where it does not say.
    open spec fn policy(&self) -> AdmissionView {
        one_at_a_time()
    }

    /// A stable name.
    fn id(&self) -> &'static str;

    /// How many picks to gather for the next exchange at most; one, where a
    /// plugin does not say.
    fn max_picks(&self) -> (r: usize)
        default_ensures
            r == 1,
    {
        1
    }

    /// Whether the adapter takes piped exchanges; a plugin may not care.
    fn set_pipe_capable(&mut self, capable: bool)
        default_ensures
            final(self).policy() == old(self).policy(),
    {
    }

    /// Whether the vehicle takes chunks; a plugin may not care.
    fn set_chunk_capable(&mut self, capable: bool)
        default_ensures
            final(self).policy() == old(self).policy(),
    {
    }

    /// The vehicle leaves this pid out of chunk replies; a plugin may not care.
    fn exclude_from_chunks(&mut self, pid: &str)
        default_ensures
            final(self).policy() == old(self).policy(),
    {
    }

    /// A chunk failed on the way: the new chunk size, which is one where a
    /// plugin has no chunks.
    fn clamp_chunk(&mut self) -> (r: usize)
        default_ensures
            r == 1,
            final(self).policy() == old(self).policy(),
    {
        1
    }

    /// Whether mode 22 chunks are tried on this connection; a plugin may not
    /// care.
    fn set_mode22_enabled(&mut self, enabled: bool)
        default_ensures
            final(self).policy() == old(self).policy(),
    {
    }

    /// What came of a mode 22 chunk; whether that is news.
    fn note_mode22_chunk_outcome(&mut self, ok: bool, size: usize) -> (r: bool)
        default_ensures
            !r,
            final(self).policy() == old(self).policy(),
    {
        false
    }

    /// The largest chunk that the adapter can handle; a plugin may not care.
    fn set_chunk_cap(&mut self, cap: usize)
        default_ensures
            final(self).policy() == old(self).policy(),
    {
    }

    /// What may ride together.
    fn admission(&self) -> (r: Admission)
        ensures
            r@ == self.policy(),
    ;

    /// Turns due picks of one target into a wire transaction; nothing for no
    /// picks.
    fn next_command(&mut self, due: &[DuePick], ctx: &PluginCtx) -> (r: Option<NextCommand>)
        requires
            encodable(old(self).policy(), ctx.length_cache@, pick_views(due@)),
        ensures
            final(self).policy() == old(self).policy(),
            r is Some <==> due@.len() > 0,
            r matches Some(c) ==> is_transaction(
                old(self).policy(),
                ctx.length_cache@,
                pick_views(due@),
                c,
            ),
    ;
}

/// Request and response: the serial path, with pipes and chunks where adapter
/// and vehicle take them.
pub struct PollPlugin {
    pipe_limit: usize,
    chunk_limit: usize,
    chunk_excluded: Vec<String>,
    chunk22: Mode22ChunkState,
    chunk22_cap: usize,
}

/// The policy state of the poll plugin.
#[verifier::ext_equal]
pub struct PollView {
    pub pipe_limit: nat,
    pub chunk_limit: nat,
    pub chunk_excluded: Set<Seq<char>>,
    pub chunk22: Mode22ChunkState,
    pub chunk22_cap: nat,
}

impl View for PollPlugin {
    type V = PollView;

    closed spec fn view(&self) -> PollView {
        PollView {
            pipe_limit: self.pipe_limit as nat,
            chunk_limit: self.chunk_limit as nat,
            chunk_excluded: text::views(self.chunk_excluded@).to_set(),
            chunk22: self.chunk22,
            chunk22_cap: self.chunk22_cap as nat,
        }
    }
}

impl PollView {
    /// Limits are at least one, and at most what the wire allows.
    pub open spec fn in_bounds(self) -> bool {
        &&& 1 <= self.pipe_limit <= PIPE_MAX_SEGMENTS
        &&& 1 <= self.chunk_limit <= CHUNK_MAX_PIDS
        &&& 1 <= self.chunk22_cap <= MODE22_CHUNK_MAX_DIDS
    }

    /// Identifiers per mode 22 chunk.
    pub open spec fn chunk22_limit(self) -> nat {
        match self.chunk22 {
            Mode22ChunkState::Disabled | Mode22ChunkState::Refused => 1,
            Mode22ChunkState::Untried | Mode22ChunkState::Capable => self.chunk22_cap,
        }
    }

    /// What may ride together.
    pub open spec fn admits(self) -> AdmissionView {
        AdmissionView {
            max_segments: self.pipe_limit,
            chunk_limit: self.chunk_limit,
            chunk22_limit: self.chunk22_limit(),
            chunk_excluded: self.chunk_excluded,
        }
    }
}

/// Half of `n`, at least one.
pub open spec fn halved(n: nat) -> nat {
    if n / 2 < 1 {
        1
    } else {
        n / 2
    }
}

/// `n`, at most `cap` and at least one.
pub open spec fn capped_at(n: nat, cap: nat) -> nat {
    let c = if cap < 1 {
        1
    } else {
        cap
    };
    if n < c {
        n
    } else {
        c
    }
}

impl PollPlugin {
    #[verifier::type_invariant]
    spec fn limits(self) -> bool {
        self@.in_bounds()
    }

    /// The serial path.
    pub fn new() -> (r: Self)
        ensures
            r@ == (PollView {
                pipe_limit: 1,
                chunk_limit: 1,
                chunk_excluded: Set::empty(),
                chunk22: Mode22ChunkState::Disabled,
                chunk22_cap: MODE22_CHUNK_MAX_DIDS as nat,
            }),
    {
        let r = PollPlugin {
            pipe_limit: 1,
            chunk_limit: 1,
            chunk_excluded: Vec::new(),
            chunk22: Mode22ChunkState::Disabled,
            chunk22_cap: MODE22_CHUNK_MAX_DIDS,
        };
        assert(r@.chunk_excluded =~= Set::<Seq<char>>::empty());
        r
    }

    fn chunk22_limit(&self) -> (r: usize)
        ensures
            r == self@.chunk22_limit(),
    {
        proof {
            use_type_invariant(&*self);
        }
        match self.chunk22 {
            Mode22ChunkState::Disabled | Mode22ChunkState::Refused => 1,
            Mode22ChunkState::Untried | Mode22ChunkState::Capable => self.chunk22_cap,
        }
    }
}

fn at_least_one(n: usize) -> (r: usize)
    ensures
        r == (if n < 1 {
            1
        } else {
            n as int
        }),
{
    if n < 1 {
        1
    } else {
        n
    }
}

impl AcquisitionPlugin for PollPlugin {
    open spec fn policy(&self) -> AdmissionView {
        self@.admits()
    }

    fn id(&self) -> (r: &'static str)
        ensures
            r@ == "poll"@,
    {
        "poll"
    }

    /// Segments times the largest chunk of either mode.
    fn max_picks(&self) -> (r: usize)
        ensures
            r == self@.pipe_limit * (if self@.chunk_limit < self@.chunk22_limit() {
                self@.chunk22_limit()
            } else {
                self@.chunk_limit
            }),
    {
        proof {
            use_type_invariant(&*self);
        }
        let c22 = self.chunk22_limit();
        let widest: usize = if self.chunk_limit < c22 {
            c22
        } else {
            self.chunk_limit
        };
        assert(self.pipe_limit * widest <= 12 * 6) by (nonlinear_arith)
            requires
                self.pipe_limit <= 12,
                widest <= 6,
        ;
        self.pipe_limit * widest
    }

    fn set_pipe_capable(&mut self, capable: bool)
        ensures
            final(self)@ == (PollView {
                pipe_limit: if capable {
                    PIPE_MAX_SEGMENTS as nat
                } else {
                    1
                },
                ..old(self)@
            }),
    {
        proof {
            use_type_invariant(&*self);
        }
        self.pipe_limit = if capable {
            PIPE_MAX_SEGMENTS
        } else {
            1
        };
    }

    /// Losing the capability is a new vehicle or connection: what was learned of
    /// chunks is forgotten too.
    fn set_chunk_capable(&mut self, capable: bool)
        ensures
            final(self)@ == (if capable {
                PollView { chunk_limit: CHUNK_MAX_PIDS as nat, ..old(self)@ }
            } else {
                PollView {
                    chunk_limit: 1,
                    chunk_excluded: Set::empty(),
                    chunk22: Mode22ChunkState::Disabled,
                    chunk22_cap: MODE22_CHUNK_MAX_DIDS as nat,
                    ..old(self)@
                }
            }),
    {
        proof {
            use_type_invariant(&*self);
        }
        if capable {
            self.chunk_limit = CHUNK_MAX_PIDS;
        } else {
            self.chunk_limit = 1;
            self.chunk_excluded = Vec::new();
            self.chunk22 = Mode22ChunkState::Disabled;
            self.chunk22_cap = MODE22_CHUNK_MAX_DIDS;
            assert(self@.chunk_excluded =~= Set::<Seq<char>>::empty());
        }
    }

    fn exclude_from_chunks(&mut self, pid: &str)
        ensures
            final(self)@ == (PollView {
                chunk_excluded: old(self)@.chunk_excluded.insert(text::upper(text::trim(pid@))),
                ..old(self)@
            }),
    {
        proof {
            use_type_invariant(&*self);
        }
        let t = text::trim_text(pid, text::Blank::White);
        let p = text::to_upper(t.as_str());
        let mut excluded = text::clone_strings(&self.chunk_excluded);
        let ghost before = text::views(excluded@);
        let ghost pv = p@;
        proof {
            text::lemma_contains_view(excluded@, pv);
        }
        if !text::has_text(&excluded, p.as_str()) {
            excluded.push(p);
            assert(text::views(excluded@) =~= before.push(pv));
            assert(before.push(pv).to_set() =~= before.to_set().insert(pv)) by {
                text::lemma_push_contains(before, pv);
            }
        } else {
            assert(before.to_set().insert(pv) =~= before.to_set());
        }
        self.chunk_excluded = excluded;
    }

    /// Six becomes three and then one. Mode 22 shares the clamp: what chokes is
    /// the length of the wire.
    fn clamp_chunk(&mut self) -> (r: usize)
        ensures
            final(self)@ == (PollView {
                chunk_limit: halved(old(self)@.chunk_limit),
                chunk22_cap: halved(old(self)@.chunk22_cap),
                ..old(self)@
            }),
            r == final(self)@.chunk_limit,
    {
        proof {
            use_type_invariant(&*self);
        }
        self.chunk_limit = at_least_one(self.chunk_limit / 2);
        self.chunk22_cap = at_least_one(self.chunk22_cap / 2);
        self.chunk_limit
    }

    fn set_mode22_enabled(&mut self, enabled: bool)
        ensures
            final(self)@ == (PollView {
                chunk22: if enabled {
                    Mode22ChunkState::Untried
                } else {
                    Mode22ChunkState::Disabled
                },
                ..old(self)@
            }),
    {
        proof {
            use_type_invariant(&*self);
        }
        self.chunk22 = if enabled {
            Mode22ChunkState::Untried
        } else {
            Mode22ChunkState::Disabled
        };
    }

    fn note_mode22_chunk_outcome(&mut self, ok: bool, size: usize) -> (r: bool)
        ensures
            final(self)@ == (PollView {
                chunk22: pair_noted(old(self)@.chunk22, ok),
                ..old(self)@
            }),
            r == (old(self)@.chunk22 != final(self)@.chunk22),
    {
        proof {
            use_type_invariant(&*self);
        }
        let next = match self.chunk22 {
            Mode22ChunkState::Disabled => Mode22ChunkState::Disabled,
            Mode22ChunkState::Refused => Mode22ChunkState::Refused,
            _ => if ok {
                Mode22ChunkState::Capable
            } else {
                Mode22ChunkState::Refused
            },
        };
        let changed = self.chunk22 != next;
        self.chunk22 = next;
        changed
    }

    fn set_chunk_cap(&mut self, cap: usize)
        ensures
            final(self)@ == (PollView {
                chunk_limit: capped_at(old(self)@.chunk_limit, cap as nat),
                chunk22_cap: capped_at(old(self)@.chunk22_cap, cap as nat),
                ..old(self)@
            }),
    {
        proof {
            use_type_invariant(&*self);
        }
        let c = at_least_one(cap);
        if self.chunk_limit > c {
            self.chunk_limit = c;
        }
        if self.chunk22_cap > c {
            self.chunk22_cap = c;
        }
    }

    fn admission(&self) -> (r: Admission) {
        Admission {
            max_segments: self.pipe_limit,
            chunk_limit: self.chunk_limit,
            chunk22_limit: self.chunk22_limit(),
            chunk_excluded: text::clone_strings(&self.chunk_excluded),
        }
    }

    fn next_command(&mut self, due: &[DuePick], ctx: &PluginCtx) -> (r: Option<NextCommand>)
        ensures
            final(self)@ == old(self)@,
    {
        let ghost all = pick_views(due@);
        let ghost segs = wire_segments(self.policy(), ctx.length_cache@, all);
        if due.len() == 0 {
            return None;
        }
        let target = copy_opt(&due[0].controller);
        let timeout_ms = max_timeout(due);
        let mut segments: Vec<Vec<String>> = Vec::new();
        if due.len() == 1 {
            let mut one: Vec<String> = Vec::new();
            one.push(due[0].pid.clone());
            assert(text::views(one@) =~= seq![all[0].pid]);
            segments.push(one);
            assert(elm::segment_views(segments@) =~= segs);
        } else {
            let admission = self.admission();
            let groups = admission.group(due, &ctx.length_cache);
            let ghost g = grouped(self.policy(), ctx.length_cache@, all);
            let mut i: usize = 0;
            while i < groups.len()
                invariant
                    i <= groups@.len(),
                    group_views(groups@) == g,
                    segments@.len() == i,
                    forall|j: int|
                        0 <= j < i ==> text::views((#[trigger] segments@[j])@) == segment_pids(
                            g[j],
                        ),
                decreases groups@.len() - i,
            {
                assert(g[i as int] == pick_ref_views(groups@[i as int]@));
                let pids = ref_pids(&groups[i]);
                let seg = if pids.len() > 1 {
                    text::sort_strings(&pids)
                } else {
                    pids
                };
                segments.push(seg);
                i += 1;
            }
            assert(elm::segment_views(segments@) =~= segs);
        }
        let wire = elm::encode_wire(segments.as_slice());
        Some(NextCommand { wire, segments, target, timeout_ms })
    }
}

fn ref_pids(v: &Vec<&DuePick>) -> (r: Vec<String>)
    ensures
        text::views(r@) == pids_of(pick_ref_views(v@)),
{
    let mut out: Vec<String> = Vec::new();
    let mut i: usize = 0;
    while i < v.len()
        invariant
            i <= v@.len(),
            out@.len() == i,
            forall|j: int| 0 <= j < i ==> (#[trigger] out@[j])@ == v@[j].pid@,
        decreases v@.len() - i,
    {
        out.push(v[i].pid.clone());
        i += 1;
    }
    assert(text::views(out@) =~= pids_of(pick_ref_views(v@)));
    out
}

fn max_timeout(due: &[DuePick]) -> (r: Option<u32>)
    ensures
        r == longest_timeout(pick_views(due@)),
{
    let ghost all = pick_views(due@);
    let mut best: Option<u32> = None;
    let mut i: usize = 0;
    while i < due.len()
        invariant
            i <= due@.len(),
            all == pick_views(due@),
            best == longest_timeout(all.take(i as int)),
        decreases due@.len() - i,
    {
        assert(all.take(i + 1).drop_last() =~= all.take(i as int));
        assert(all.take(i + 1).last() == due@[i as int]@);
        best = match (best, due[i].timeout_ms) {
            (Some(a), Some(b)) => if a < b {
                Some(b)
            } else {
                Some(a)
            },
            (Some(a), None) => Some(a),
            (None, b) => b,
        };
        i += 1;
    }
    assert(all.take(i as int) =~= all);
    best
}

// ---- laws ----

/// All picks of some groups one after the other.
pub open spec fn flat_picks(g: Seq<Seq<PickView>>) -> Seq<PickView>
    decreases g.len(),
{
    if g.len() == 0 {
        Seq::empty()
    } else {
        flat_picks(g.drop_last()) + g.last()
    }
}

proof fn lemma_flat_concat(a: Seq<Seq<PickView>>, b: Seq<Seq<PickView>>)
    ensures
        flat_picks(a + b) == flat_picks(a) + flat_picks(b),
    decreases b.len(),
{
    if b.len() == 0 {
        assert(a + b =~= a);
        assert(flat_picks(a) + flat_picks(b) =~= flat_picks(a));
    } else {
        assert((a + b).drop_last() =~= a + b.drop_last());
        lemma_flat_concat(a, b.drop_last());
        assert(flat_picks(a) + (flat_picks(b.drop_last()) + b.last()) =~= (flat_picks(a)
            + flat_picks(b.drop_last())) + b.last());
    }
}

proof fn lemma_flat_solos(solos: Seq<PickView>)
    ensures
        flat_picks(Seq::new(solos.len(), |i: int| seq![solos[i]])) == solos,
    decreases solos.len(),
{
    let g = Seq::new(solos.len(), |i: int| seq![solos[i]]);
    if solos.len() > 0 {
        lemma_flat_solos(solos.drop_last());
        assert(g.drop_last() =~= Seq::new(
            solos.drop_last().len(),
            |i: int| seq![solos.drop_last()[i]],
        ));
        assert(solos.drop_last() + seq![solos.last()] =~= solos);
    }
}

/// The members of chunks.
spec fn members_of(chunks: Seq<ChunkView>) -> Seq<Seq<PickView>> {
    Seq::new(chunks.len(), |i: int| chunks[i].members)
}

proof fn lemma_flat_update(g: Seq<Seq<PickView>>, i: int, p: PickView)
    requires
        0 <= i < g.len(),
    ensures
        flat_picks(g.update(i, g[i].push(p))).to_multiset() =~= flat_picks(g).to_multiset().insert(
            p,
        ),
    decreases g.len(),
{
    broadcast use vstd::seq_lib::group_to_multiset_ensures;

    let u = g.update(i, g[i].push(p));
    if i == g.len() - 1 {
        assert(u.drop_last() =~= g.drop_last());
        assert(flat_picks(u) =~= flat_picks(g).push(p));
    } else {
        assert(u.drop_last() =~= g.drop_last().update(i, g.drop_last()[i].push(p)));
        lemma_flat_update(g.drop_last(), i, p);
        vstd::seq_lib::lemma_multiset_commutative(flat_picks(u.drop_last()), u.last());
        vstd::seq_lib::lemma_multiset_commutative(flat_picks(g.drop_last()), g.last());
        assert(u.last() == g.last());
    }
}

/// Grouping is a partition: every pick is in exactly one segment.
pub proof fn grouping_is_a_partition(
    a: AdmissionView,
    lengths: Map<Seq<char>, u8>,
    due: Seq<PickView>,
)
    ensures
        flat_picks(grouped(a, lengths, due)).to_multiset() =~= due.to_multiset(),
    decreases due.len(),
{
    broadcast use vstd::seq_lib::group_to_multiset_ensures;

    let (chunks, solos) = filled(a, lengths, due);
    let cm = members_of(chunks);
    let sm = Seq::new(solos.len(), |i: int| seq![solos[i]]);
    assert(grouped(a, lengths, due) =~= cm + sm);
    lemma_flat_concat(cm, sm);
    lemma_flat_solos(solos);
    vstd::seq_lib::lemma_multiset_commutative(flat_picks(cm), solos);
    if due.len() == 0 {
        assert(flat_picks(cm) + solos =~= due);
    } else {
        let p = due.last();
        let (chunks0, solos0) = filled(a, lengths, due.drop_last());
        let cm0 = members_of(chunks0);
        let sm0 = Seq::new(solos0.len(), |i: int| seq![solos0[i]]);
        grouping_is_a_partition(a, lengths, due.drop_last());
        assert(grouped(a, lengths, due.drop_last()) =~= cm0 + sm0);
        lemma_flat_concat(cm0, sm0);
        lemma_flat_solos(solos0);
        vstd::seq_lib::lemma_multiset_commutative(flat_picks(cm0), solos0);
        assert(due =~= due.drop_last().push(p));
        match class_of(a, lengths, p.pid) {
            None => {
                assert(cm =~= cm0);
            },
            Some(class) => {
                let controller = chunk_controller(class, p);
                let i = first_room(chunks0, class, controller, limit_of(a, class));
                lemma_room_bound(chunks0, class, controller, limit_of(a, class));
                if i >= 0 {
                    assert(cm =~= cm0.update(i, cm0[i].push(p)));
                    lemma_flat_update(cm0, i, p);
                } else {
                    assert(cm =~= cm0.push(seq![p]));
                    assert(cm.drop_last() =~= cm0);
                    assert(flat_picks(cm) =~= flat_picks(cm0).push(p));
                }
            },
        }
    }
}

proof fn lemma_room_bound(
    v: Seq<ChunkView>,
    class: ChunkClass,
    controller: Option<Seq<char>>,
    limit: nat,
)
    ensures
        first_room(v, class, controller, limit) < v.len(),
        first_room(v, class, controller, limit) >= 0 ==> has_room(
            v[first_room(v, class, controller, limit)],
            class,
            controller,
            limit,
        ),
    decreases v.len(),
{
    if v.len() > 0 {
        lemma_room_bound(v.drop_last(), class, controller, limit);
    }
}

/// Whether a chunk keeps the rules: not larger than its mode allows, all members
/// of its mode, and a mode 22 chunk for one controller.
pub open spec fn keeps_rules(
    a: AdmissionView,
    lengths: Map<Seq<char>, u8>,
    c: ChunkView,
) -> bool {
    &&& 1 <= c.members.len() <= limit_of(a, c.class)
    &&& forall|i: int|
        0 <= i < c.members.len() ==> class_of(a, lengths, (#[trigger] c.members[i]).pid) == Some(
            c.class,
        ) && chunk_controller(c.class, c.members[i]) == c.controller
}

/// Chunks never grow beyond the limit of their mode, never mix modes, and a
/// mode 22 chunk never mixes controllers.
pub proof fn chunks_keep_the_rules(
    a: AdmissionView,
    lengths: Map<Seq<char>, u8>,
    due: Seq<PickView>,
)
    ensures
        forall|i: int|
            0 <= i < filled(a, lengths, due).0.len() ==> keeps_rules(
                a,
                lengths,
                #[trigger] filled(a, lengths, due).0[i],
            ),
    decreases due.len(),
{
    if due.len() > 0 {
        chunks_keep_the_rules(a, lengths, due.drop_last());
        let before = filled(a, lengths, due.drop_last()).0;
        let now = filled(a, lengths, due).0;
        let p = due.last();
        match class_of(a, lengths, p.pid) {
            None => {},
            Some(class) => {
                let controller = chunk_controller(class, p);
                let k = first_room(before, class, controller, limit_of(a, class));
                lemma_room_bound(before, class, controller, limit_of(a, class));
                assert forall|i: int| 0 <= i < now.len() implies keeps_rules(
                    a,
                    lengths,
                    #[trigger] now[i],
                ) by {
                    if k >= 0 {
                        assert(keeps_rules(a, lengths, before[k]));
                        if i != k {
                            assert(now[i] == before[i]);
                        } else {
                            let m = before[k].members.push(p);
                            assert(now[i].members == m);
                            assert forall|j: int| 0 <= j < m.len() implies class_of(
                                a,
                                lengths,
                                (#[trigger] m[j]).pid,
                            ) == Some(class) && chunk_controller(class, m[j]) == controller by {
                                if j < before[k].members.len() {
                                    assert(m[j] == before[k].members[j]);
                                }
                            }
                        }
                    } else if i < before.len() {
                        assert(now[i] == before[i]);
                    } else {
                        assert(now[i].members =~= seq![p]);
                    }
                }
            },
        }
    }
}

/// How many picks may share chunks of a class and controller.
pub open spec fn sharing_picks(
    a: AdmissionView,
    lengths: Map<Seq<char>, u8>,
    due: Seq<PickView>,
    class: ChunkClass,
    controller: Option<Seq<char>>,
) -> nat
    decreases due.len(),
{
    if due.len() == 0 {
        0
    } else {
        sharing_picks(a, lengths, due.drop_last(), class, controller) + (if class_of(
            a,
            lengths,
            due.last().pid,
        ) == Some(class) && chunk_controller(class, due.last()) == controller {
            1nat
        } else {
            0nat
        })
    }
}

/// How many chunks of a class and controller there are, and how many members
/// they have together.
pub open spec fn shared_chunks(
    chunks: Seq<ChunkView>,
    class: ChunkClass,
    controller: Option<Seq<char>>,
) -> (nat, nat)
    decreases chunks.len(),
{
    if chunks.len() == 0 {
        (0, 0)
    } else {
        let before = shared_chunks(chunks.drop_last(), class, controller);
        let c = chunks.last();
        if c.class == class && c.controller == controller {
            (before.0 + 1, before.1 + c.members.len())
        } else {
            before
        }
    }
}

/// Whether no chunk of a class and controller is larger than the limit.
pub open spec fn within_limit(
    chunks: Seq<ChunkView>,
    class: ChunkClass,
    controller: Option<Seq<char>>,
    limit: nat,
) -> bool {
    forall|i: int|
        0 <= i < chunks.len() && (#[trigger] chunks[i]).class == class && chunks[i].controller
            == controller ==> chunks[i].members.len() <= limit
}

/// Chunks within the limit hold no more than the limit each; where one has room
/// they hold less, and where none has they are all full.
proof fn lemma_shared_room(
    chunks: Seq<ChunkView>,
    class: ChunkClass,
    controller: Option<Seq<char>>,
    limit: nat,
)
    requires
        within_limit(chunks, class, controller, limit),
    ensures
        ({
            let (n, m) = shared_chunks(chunks, class, controller);
            &&& m <= n * limit
            &&& first_room(chunks, class, controller, limit) >= 0 ==> m < n * limit
            &&& first_room(chunks, class, controller, limit) < 0 ==> m == n * limit
        }),
    decreases chunks.len(),
{
    if chunks.len() == 0 {
        assert(0 * limit == 0) by (nonlinear_arith);
    } else {
        let head = chunks.drop_last();
        assert forall|i: int|
            0 <= i < head.len() && (#[trigger] head[i]).class == class && head[i].controller
                == controller implies head[i].members.len() <= limit by {
            assert(chunks[i] == head[i]);
        }
        lemma_shared_room(head, class, controller, limit);
        let n = shared_chunks(head, class, controller).0;
        assert((n + 1) * limit == n * limit + limit) by (nonlinear_arith);
        assert(chunks[chunks.len() - 1] == chunks.last());
    }
}

/// A chunk that takes one more member changes the counts by that member.
proof fn lemma_shared_update(
    chunks: Seq<ChunkView>,
    i: int,
    p: PickView,
    class: ChunkClass,
    controller: Option<Seq<char>>,
)
    requires
        0 <= i < chunks.len(),
    ensures
        ({
            let c = ChunkView { members: chunks[i].members.push(p), ..chunks[i] };
            let before = shared_chunks(chunks, class, controller);
            shared_chunks(chunks.update(i, c), class, controller) == (if chunks[i].class == class
                && chunks[i].controller == controller {
                (before.0, before.1 + 1)
            } else {
                before
            })
        }),
    decreases chunks.len(),
{
    let c = ChunkView { members: chunks[i].members.push(p), ..chunks[i] };
    let now = chunks.update(i, c);
    if i == chunks.len() - 1 {
        assert(now.drop_last() =~= chunks.drop_last());
    } else {
        assert(now.drop_last() =~= chunks.drop_last().update(i, c));
        lemma_shared_update(chunks.drop_last(), i, p, class, controller);
    }
}

/// Filling keeps all but the newest chunk of a class and controller full.
proof fn lemma_filling_is_dense(
    a: AdmissionView,
    lengths: Map<Seq<char>, u8>,
    due: Seq<PickView>,
    class: ChunkClass,
    controller: Option<Seq<char>>,
)
    ensures
        ({
            let (n, m) = shared_chunks(filled(a, lengths, due).0, class, controller);
            let limit = limit_of(a, class);
            &&& m == sharing_picks(a, lengths, due, class, controller)
            &&& n > 0 ==> limit > 1 && (n - 1) * limit < m
            &&& m <= n * limit
            &&& n == 0 ==> m == 0
        }),
    decreases due.len(),
{
    let limit = limit_of(a, class);
    let now = filled(a, lengths, due).0;
    chunks_keep_the_rules(a, lengths, due);
    assert(within_limit(now, class, controller, limit)) by {
        assert forall|i: int|
            0 <= i < now.len() && (#[trigger] now[i]).class == class && now[i].controller
                == controller implies now[i].members.len() <= limit by {
            assert(keeps_rules(a, lengths, now[i]));
        }
    }
    lemma_shared_room(now, class, controller, limit);
    assert(0 * limit == 0) by (nonlinear_arith);
    if due.len() > 0 {
        let before = filled(a, lengths, due.drop_last()).0;
        lemma_filling_is_dense(a, lengths, due.drop_last(), class, controller);
        chunks_keep_the_rules(a, lengths, due.drop_last());
        assert(within_limit(before, class, controller, limit)) by {
            assert forall|i: int|
                0 <= i < before.len() && (#[trigger] before[i]).class == class
                    && before[i].controller == controller implies before[i].members.len()
                <= limit by {
                assert(keeps_rules(a, lengths, before[i]));
            }
        }
        lemma_shared_room(before, class, controller, limit);
        let p = due.last();
        match class_of(a, lengths, p.pid) {
            None => {},
            Some(own) => {
                let bound = chunk_controller(own, p);
                let k = first_room(before, own, bound, limit_of(a, own));
                lemma_room_bound(before, own, bound, limit_of(a, own));
                if k >= 0 {
                    lemma_shared_update(before, k, p, class, controller);
                } else {
                    assert(now.drop_last() =~= before);
                }
            },
        }
    }
}

/// Filling the first chunk with room uses as many chunks as it must: the picks
/// of a class and controller, divided by the limit of the class and rounded up.
pub proof fn filling_uses_the_fewest_chunks(
    a: AdmissionView,
    lengths: Map<Seq<char>, u8>,
    due: Seq<PickView>,
    class: ChunkClass,
    controller: Option<Seq<char>>,
)
    ensures
        ({
            let picks = sharing_picks(a, lengths, due, class, controller);
            let (chunks, members) = shared_chunks(filled(a, lengths, due).0, class, controller);
            let limit = limit_of(a, class);
            &&& members == picks
            &&& picks == 0 ==> chunks == 0
            &&& picks > 0 ==> limit > 1 && chunks == (picks + limit - 1) / (limit as int)
        }),
{
    let picks = sharing_picks(a, lengths, due, class, controller);
    let n = shared_chunks(filled(a, lengths, due).0, class, controller).0;
    let limit = limit_of(a, class);
    lemma_filling_is_dense(a, lengths, due, class, controller);
    if n > 0 {
        assert((n - 1) * limit >= 0) by (nonlinear_arith)
            requires
                n > 0,
        ;
        let r = picks - 1 - (n - 1) * limit;
        assert(n * limit == (n - 1) * limit + limit) by (nonlinear_arith);
        vstd::arithmetic::div_mod::lemma_fundamental_div_mod_converse(
            picks + limit - 1,
            limit as int,
            n as int,
            r,
        );
    }
}

/// No other way to put the same picks into chunks within the limit uses fewer.
pub proof fn no_filling_uses_fewer_chunks(
    a: AdmissionView,
    lengths: Map<Seq<char>, u8>,
    due: Seq<PickView>,
    class: ChunkClass,
    controller: Option<Seq<char>>,
    other: Seq<ChunkView>,
)
    requires
        within_limit(other, class, controller, limit_of(a, class)),
        shared_chunks(other, class, controller).1 == sharing_picks(
            a,
            lengths,
            due,
            class,
            controller,
        ),
    ensures
        shared_chunks(filled(a, lengths, due).0, class, controller).0 <= shared_chunks(
            other,
            class,
            controller,
        ).0,
{
    let limit = limit_of(a, class);
    let n = shared_chunks(filled(a, lengths, due).0, class, controller).0;
    let k = shared_chunks(other, class, controller).0;
    lemma_filling_is_dense(a, lengths, due, class, controller);
    lemma_shared_room(other, class, controller, limit);
    if k < n {
        assert(k * limit <= (n - 1) * limit) by (nonlinear_arith)
            requires
                k <= n - 1,
                limit >= 0,
        ;
    }
}

/// A member of a group is one of all picks.
proof fn lemma_grouped_are_due(g: Seq<Seq<PickView>>, i: int, j: int)
    requires
        0 <= i < g.len(),
        0 <= j < g[i].len(),
    ensures
        flat_picks(g).contains(g[i][j]),
    decreases g.len(),
{
    let head = flat_picks(g.drop_last());
    if i == g.len() - 1 {
        assert(flat_picks(g)[head.len() + j] == g[i][j]);
    } else {
        lemma_grouped_are_due(g.drop_last(), i, j);
        let k = choose|k: int| 0 <= k < head.len() && head[k] == g[i][j];
        assert(flat_picks(g)[k] == g[i][j]);
    }
}

/// Picks whose pids start with a two-byte mode can always be put on the wire.
pub proof fn ordinary_picks_are_encodable(
    a: AdmissionView,
    lengths: Map<Seq<char>, u8>,
    due: Seq<PickView>,
)
    requires
        forall|i: int| 0 <= i < due.len() ==> elm::mode_chars((#[trigger] due[i]).pid) is Some,
    ensures
        encodable(a, lengths, due),
{
    broadcast use vstd::seq_lib::group_to_multiset_ensures;

    if due.len() != 1 {
        let g = grouped(a, lengths, due);
        let w = wire_segments(a, lengths, due);
        grouping_is_a_partition(a, lengths, due);
        chunks_keep_the_rules(a, lengths, due);
        let (chunks, solos) = filled(a, lengths, due);
        assert forall|i: int| 0 <= i < w.len() implies elm::joinable(#[trigger] w[i]) by {
            if i < chunks.len() {
                assert(keeps_rules(a, lengths, chunks[i]));
                assert(g[i] == chunks[i].members);
            } else {
                assert(g[i] == seq![solos[i - chunks.len()]]);
            }
            let pids = pids_of(g[i]);
            if g[i].len() > 1 {
                text::sorted_texts_are_sorted(pids);
                let first = w[i][0];
                assert(w[i].contains(first));
                assert(pids.to_multiset().count(first) > 0);
                assert(pids.contains(first));
                let j = choose|j: int| 0 <= j < pids.len() && pids[j] == first;
                lemma_grouped_are_due(g, i, j);
                assert(flat_picks(g).to_multiset().count(g[i][j]) > 0);
                assert(due.contains(g[i][j]));
                let k = choose|k: int| 0 <= k < due.len() && due[k] == g[i][j];
                assert(elm::mode_chars(due[k].pid) is Some);
            }
        }
    }
}

/// Pids of the same picks in another order are the same pids.
proof fn lemma_pids_of_same_picks(s: Seq<PickView>, t: Seq<PickView>)
    requires
        s.to_multiset() =~= t.to_multiset(),
    ensures
        pids_of(s).to_multiset() =~= pids_of(t).to_multiset(),
    decreases s.len(),
{
    broadcast use vstd::seq_lib::group_to_multiset_ensures;

    assert(s.to_multiset().len() == s.len() && t.to_multiset().len() == t.len());
    if s.len() > 0 {
        let x = s.last();
        assert(s.contains(x));
        assert(t.to_multiset().count(x) > 0);
        let k = choose|k: int| 0 <= k < t.len() && t[k] == x;
        let t1 = t.remove(k);
        assert(s =~= s.drop_last().push(x));
        assert(s.drop_last().to_multiset() =~= s.to_multiset().remove(x));
        lemma_pids_of_same_picks(s.drop_last(), t1);
        assert(pids_of(s) =~= pids_of(s.drop_last()).push(x.pid));
        assert(pids_of(t1) =~= pids_of(t).remove(k));
        assert(pids_of(t)[k] == x.pid);
        assert(pids_of(t).contains(x.pid));
    } else {
        assert(pids_of(s) =~= pids_of(t));
    }
}

/// The members of segments are the pids of their groups, though a chunk is
/// sorted.
proof fn lemma_members_are_pids(g: Seq<Seq<PickView>>)
    ensures
        flat_members(Seq::new(g.len(), |i: int| segment_pids(g[i]))).to_multiset() =~= pids_of(
            flat_picks(g),
        ).to_multiset(),
    decreases g.len(),
{
    broadcast use vstd::seq_lib::group_to_multiset_ensures;

    let w = Seq::new(g.len(), |i: int| segment_pids(g[i]));
    if g.len() == 0 {
        assert(pids_of(flat_picks(g)) =~= flat_members(w));
    } else {
        let g0 = g.drop_last();
        let w0 = Seq::new(g0.len(), |i: int| segment_pids(g0[i]));
        lemma_members_are_pids(g0);
        assert(w.drop_last() =~= w0);
        assert(w.last() == segment_pids(g.last()));
        text::sorted_texts_are_sorted(pids_of(g.last()));
        assert(pids_of(flat_picks(g)) =~= pids_of(flat_picks(g0)) + pids_of(g.last()));
        vstd::seq_lib::lemma_multiset_commutative(flat_members(w0), w.last());
        vstd::seq_lib::lemma_multiset_commutative(pids_of(flat_picks(g0)), pids_of(g.last()));
    }
}

/// A transaction accounts for every pick: its members are the pids of the picks,
/// each as often as it was picked.
pub proof fn every_pick_is_accounted_for(
    a: AdmissionView,
    lengths: Map<Seq<char>, u8>,
    due: Seq<PickView>,
)
    ensures
        flat_members(wire_segments(a, lengths, due)).to_multiset() =~= pids_of(due).to_multiset(),
{
    broadcast use vstd::seq_lib::group_to_multiset_ensures;

    if due.len() == 1 {
        let w = wire_segments(a, lengths, due);
        let none: Seq<Seq<Seq<char>>> = Seq::empty();
        assert(w.drop_last() =~= none);
        assert(flat_members(none) =~= Seq::empty());
        assert(w.last() =~= pids_of(due));
        assert(flat_members(w) =~= pids_of(due));
    } else {
        let g = grouped(a, lengths, due);
        grouping_is_a_partition(a, lengths, due);
        lemma_members_are_pids(g);
        lemma_pids_of_same_picks(flat_picks(g), due);
    }
}

/// Where neither mode has chunks, every pick rides in a segment of its own, in
/// the order in which the picks came.
pub proof fn without_chunks_picks_ride_alone(
    a: AdmissionView,
    lengths: Map<Seq<char>, u8>,
    due: Seq<PickView>,
)
    requires
        a.chunk_limit <= 1,
        a.chunk22_limit <= 1,
    ensures
        grouped(a, lengths, due) =~= Seq::new(due.len(), |i: int| seq![due[i]]),
        filled(a, lengths, due).0 =~= Seq::empty(),
        filled(a, lengths, due).1 =~= due,
    decreases due.len(),
{
    if due.len() > 0 {
        without_chunks_picks_ride_alone(a, lengths, due.drop_last());
    }
}

/// A single pick is its own pid on the wire, whatever may be batched.
pub proof fn a_single_pick_is_its_own_wire(
    a: AdmissionView,
    lengths: Map<Seq<char>, u8>,
    p: PickView,
)
    ensures
        elm::wire_of(wire_segments(a, lengths, seq![p])) == p.pid,
{
    elm::single_pid_is_itself(p.pid);
}

/// What is known of mode 22 chunks after some pairs, in their order.
pub open spec fn pairs_noted(state: Mode22ChunkState, outcomes: Seq<bool>) -> Mode22ChunkState
    decreases outcomes.len(),
{
    if outcomes.len() == 0 {
        state
    } else {
        pair_noted(pairs_noted(state, outcomes.drop_last()), outcomes.last())
    }
}

/// A refused pair settles it until pairs are armed anew, whatever comes in
/// later, and what is off stays off.
pub proof fn a_refusal_lasts(state: Mode22ChunkState, outcomes: Seq<bool>)
    ensures
        state == Mode22ChunkState::Disabled ==> pairs_noted(state, outcomes) == state,
        state != Mode22ChunkState::Disabled && (state == Mode22ChunkState::Refused
            || outcomes.contains(false)) ==> pairs_noted(state, outcomes)
            == Mode22ChunkState::Refused,
    decreases outcomes.len(),
{
    if outcomes.len() > 0 {
        let head = outcomes.drop_last();
        a_refusal_lasts(state, head);
        assert(outcomes =~= head.push(outcomes.last()));
        text::lemma_push_contains(head, outcomes.last());
        if state != Mode22ChunkState::Disabled {
            lemma_armed_stays(state, head);
        }
    }
}

proof fn lemma_armed_stays(state: Mode22ChunkState, outcomes: Seq<bool>)
    requires
        state != Mode22ChunkState::Disabled,
    ensures
        pairs_noted(state, outcomes) != Mode22ChunkState::Disabled,
    decreases outcomes.len(),
{
    if outcomes.len() > 0 {
        lemma_armed_stays(state, outcomes.drop_last());
    }
}

/// The clamp never raises a limit and never goes below one.
pub proof fn clamp_only_shrinks(n: nat)
    requires
        n >= 1,
    ensures
        1 <= halved(n) <= n,
{
}

/// The longest timeout is one of the picks', and none of theirs is longer.
proof fn lemma_longest(due: Seq<PickView>)
    ensures
        forall|i: int|
            0 <= i < due.len() && (#[trigger] due[i]).timeout_ms is Some ==> longest_timeout(due)
                is Some && longest_timeout(due)->0 >= due[i].timeout_ms->0,
        longest_timeout(due) is Some ==> exists|i: int|
            0 <= i < due.len() && (#[trigger] due[i]).timeout_ms == longest_timeout(due),
    decreases due.len(),
{
    if due.len() > 0 {
        let head = due.drop_last();
        lemma_longest(head);
        assert forall|i: int| 0 <= i < due.len() && (#[trigger] due[i]).timeout_ms
            is Some implies longest_timeout(due) is Some && longest_timeout(due)->0
            >= due[i].timeout_ms->0 by {
            if i < head.len() {
                assert(head[i] == due[i]);
            }
        }
        if longest_timeout(due) is Some {
            if longest_timeout(due) == due.last().timeout_ms {
                assert(due[due.len() - 1].timeout_ms == longest_timeout(due));
            } else {
                let i = choose|i: int|
                    0 <= i < head.len() && (#[trigger] head[i]).timeout_ms == longest_timeout(head);
                assert(due[i] == head[i]);
                assert(due[i].timeout_ms == longest_timeout(due));
            }
        }
    }
}

/// A transaction waits as long as its most patient pick: no pick has a longer
/// timeout, some pick has this one, and there is none only where no pick has
/// one.
pub proof fn a_transaction_waits_for_all_its_picks(
    a: AdmissionView,
    lengths: Map<Seq<char>, u8>,
    due: Seq<PickView>,
    c: NextCommand,
)
    requires
        is_transaction(a, lengths, due, c),
    ensures
        forall|i: int|
            0 <= i < due.len() && (#[trigger] due[i]).timeout_ms is Some ==> c.timeout_ms is Some
                && c.timeout_ms->0 >= due[i].timeout_ms->0,
        c.timeout_ms is Some ==> exists|i: int|
            0 <= i < due.len() && (#[trigger] due[i]).timeout_ms == c.timeout_ms,
{
    lemma_longest(due);
}

/// The same picks in another order have the same timeout.
pub proof fn the_timeout_does_not_depend_on_the_order(
    a: AdmissionView,
    lengths: Map<Seq<char>, u8>,
    due: Seq<PickView>,
    other: Seq<PickView>,
    c: NextCommand,
    d: NextCommand,
)
    requires
        is_transaction(a, lengths, due, c),
        is_transaction(a, lengths, other, d),
        due.to_multiset() == other.to_multiset(),
    ensures
        c.timeout_ms == d.timeout_ms,
{
    lemma_timeout_reaches(due, other);
    lemma_timeout_reaches(other, due);
}

proof fn lemma_timeout_reaches(due: Seq<PickView>, other: Seq<PickView>)
    requires
        due.to_multiset() == other.to_multiset(),
    ensures
        longest_timeout(due) is Some ==> longest_timeout(other) is Some && longest_timeout(other)->0
            >= longest_timeout(due)->0,
{
    broadcast use vstd::seq_lib::group_to_multiset_ensures;

    lemma_longest(due);
    lemma_longest(other);
    if longest_timeout(due) is Some {
        let i = choose|i: int|
            0 <= i < due.len() && (#[trigger] due[i]).timeout_ms == longest_timeout(due);
        assert(due.contains(due[i]));
        assert(due.to_multiset().count(due[i]) > 0);
        assert(other.contains(due[i]));
        let j = choose|j: int| 0 <= j < other.len() && other[j] == due[i];
        assert(other[j].timeout_ms is Some);
    }
}

/// A transaction for picks of one controller goes to that controller.
pub proof fn a_transaction_goes_to_its_controller(
    a: AdmissionView,
    lengths: Map<Seq<char>, u8>,
    due: Seq<PickView>,
    c: NextCommand,
    controller: Option<Seq<char>>,
)
    requires
        is_transaction(a, lengths, due, c),
        due.len() > 0,
        forall|i: int| 0 <= i < due.len() ==> (#[trigger] due[i]).controller == controller,
    ensures
        text::opt(c.target) == controller,
{
    assert(due[0].controller == controller);
}

/// Every identifier of mode 01 may ride in a chunk but the support queries `00`,
/// `20`, `40` and `60` and the monitor status `01`; every one of mode 22 but the
/// dynamic ones, `F2xx`, and those that begin with `00`. Small letters count as
/// capitals.
pub proof fn which_pids_may_share_a_chunk(h: u8, l: u8)
    ensures
        plain_mode01("01"@ + text::hex_padded(h as nat, 2)) <==> h != 0x00 && h != 0x01 && h != 0x20
            && h != 0x40 && h != 0x60,
        plain_mode22("22"@ + text::hex_padded(h as nat, 2) + text::hex_padded(l as nat, 2)) <==> h
            != 0x00 && h != 0xF2,
{
    reveal_strlit("01");
    reveal_strlit("22");
    reveal_strlit("00");
    reveal_strlit("20");
    reveal_strlit("40");
    reveal_strlit("60");
    reveal_strlit("F2");
    let x = text::hex_padded(h as nat, 2);
    let y = text::hex_padded(l as nat, 2);
    crate::addressing::lemma_byte_width(h as nat);
    crate::addressing::lemma_byte_width(l as nat);
    crate::addressing::lemma_two_chars(h as nat);
    let p = "01"@ + x;
    let q = "22"@ + x + y;
    assert(p.take(2) =~= "01"@);
    assert(p.skip(2) =~= x);
    assert(q.take(2) =~= "22"@);
    assert(q.skip(2) =~= x + y);
    assert((x + y).take(2) =~= x);
    lemma_written("00"@, 0x00);
    lemma_written("01"@, 0x01);
    lemma_written("20"@, 0x20);
    lemma_written("40"@, 0x40);
    lemma_written("60"@, 0x60);
    lemma_written("F2"@, 0xF2);
    let z = x + y;
    assert forall|i: int| 0 <= i < z.len() implies text::is_hex_digit(#[trigger] z[i]) by {
        if i < 2 {
            assert(z[i] == x[i]);
        } else {
            assert(z[i] == y[i - 2]);
        }
    }
}

/// Two digits that write a byte are the only way to write it.
proof fn lemma_written(s: Seq<char>, b: nat)
    requires
        b < 256,
        s.len() == 2,
        s[0] == text::digit_char(b / 16),
        s[1] == text::digit_char(b % 16),
    ensures
        s == text::hex_padded(b, 2),
        forall|n: nat| n < 256 && #[trigger] text::hex_padded(n, 2) == s ==> n == b,
{
    crate::addressing::lemma_two_chars(b);
    assert(s =~= text::hex_padded(b, 2));
    assert forall|n: nat| n < 256 && #[trigger] text::hex_padded(n, 2) == s implies n == b by {
        text::lemma_hex_padded(n, 2);
        text::lemma_hex_padded(b, 2);
    }
}

/// A pid rides in a chunk only where chunks of its mode are on, its length is
/// confirmed and the vehicle does not leave it out; the modes have chunks of
/// their own.
pub proof fn who_rides_in_a_chunk(a: AdmissionView, lengths: Map<Seq<char>, u8>, pid: Seq<char>)
    ensures
        ({
            let p = text::upper(text::trim(pid));
            let class = class_of(a, lengths, pid);
            &&& class is Some ==> length_cache::learned(lengths, pid) is Some
                && !a.chunk_excluded.contains(p)
            &&& class == Some(ChunkClass::Mode01) ==> plain_mode01(p) && a.chunk_limit >= 2
            &&& class == Some(ChunkClass::Mode22) ==> plain_mode22(p) && a.chunk22_limit >= 2
            &&& plain_mode01(p) && a.chunk_limit >= 2 && length_cache::learned(lengths, pid) is Some
                && !a.chunk_excluded.contains(p) ==> class == Some(ChunkClass::Mode01)
            &&& plain_mode22(p) && a.chunk22_limit >= 2 && length_cache::learned(lengths, pid)
                is Some && !a.chunk_excluded.contains(p) ==> class == Some(ChunkClass::Mode22)
        }),
{
    reveal_strlit("01");
    reveal_strlit("22");
    assert("01"@[0] != "22"@[0]);
}

/// A sorted list holds what was sorted.
proof fn lemma_sorted_member(v: Seq<Seq<char>>, i: int)
    requires
        0 <= i < text::sorted_texts(v).len(),
    ensures
        v.contains(text::sorted_texts(v)[i]),
        text::sorted_texts(v).len() == v.len(),
{
    broadcast use vstd::seq_lib::group_to_multiset_ensures;

    let s = text::sorted_texts(v);
    text::sorted_texts_are_sorted(v);
    assert(s.contains(s[i]));
    assert(s.to_multiset().count(s[i]) > 0);
    assert(s.to_multiset().len() == v.to_multiset().len());
}

/// Whether a pid is written as on the wire: mode and identifier in capitals, the
/// identifier of two digits, or of four in mode 22.
pub open spec fn wire_pid(p: Seq<char>) -> bool {
    &&& crate::addressing::plain_header(p)
    &&& p.len() == (if p.take(2) == "22"@ {
        6int
    } else {
        4
    })
}

/// Whether some pick of a group is for a pid.
spec fn picks_pid(g: Seq<PickView>, p: Seq<char>) -> bool {
    exists|k: int| 0 <= k < g.len() && (#[trigger] g[k]).pid == p
}

/// The members of a segment share their mode.
proof fn lemma_segment_shares_mode(
    a: AdmissionView,
    lengths: Map<Seq<char>, u8>,
    due: Seq<PickView>,
    i: int,
)
    requires
        forall|k: int| 0 <= k < due.len() ==> wire_pid((#[trigger] due[k]).pid),
        0 <= i < wire_segments(a, lengths, due).len(),
    ensures
        ({
            let w = wire_segments(a, lengths, due)[i];
            &&& w.len() > 0
            &&& forall|j: int|
                0 <= j < w.len() ==> wire_pid(#[trigger] w[j]) && w[j].take(2) == w[0].take(2)
        }),
{
    broadcast use vstd::seq_lib::group_to_multiset_ensures;

    let w = wire_segments(a, lengths, due)[i];
    if due.len() == 1 {
        assert(w =~= seq![due[0].pid]);
    } else {
        let g = grouped(a, lengths, due);
        let (chunks, solos) = filled(a, lengths, due);
        grouping_is_a_partition(a, lengths, due);
        chunks_keep_the_rules(a, lengths, due);
        let pids = pids_of(g[i]);
        if i < chunks.len() {
            assert(keeps_rules(a, lengths, chunks[i]));
            assert(g[i] == chunks[i].members);
        } else {
            assert(g[i] == seq![solos[i - chunks.len()]]);
        }
        if g[i].len() > 1 {
            lemma_sorted_member(pids, 0);
        }
        assert forall|j: int| 0 <= j < w.len() implies picks_pid(g[i], #[trigger] w[j]) && wire_pid(
            w[j],
        ) by {
            if g[i].len() > 1 {
                lemma_sorted_member(pids, j);
            } else {
                assert(pids[j] == w[j]);
                assert(pids.contains(w[j]));
            }
            let k = choose|k: int| 0 <= k < pids.len() && pids[k] == w[j];
            assert(g[i][k].pid == w[j]);
            lemma_grouped_are_due(g, i, k);
            assert(flat_picks(g).to_multiset().count(g[i][k]) > 0);
            assert(due.contains(g[i][k]));
            let d = choose|d: int| 0 <= d < due.len() && due[d] == g[i][k];
            assert(wire_pid(due[d].pid));
        }
        assert forall|j: int| 0 <= j < w.len() implies wire_pid(#[trigger] w[j]) && w[j].take(2)
            == w[0].take(2) by {
            let k = choose|k: int| 0 <= k < g[i].len() && (#[trigger] g[i][k]).pid == w[j];
            let k0 = choose|k: int| 0 <= k < g[i].len() && (#[trigger] g[i][k]).pid == w[0];
            if i < chunks.len() {
                let class = chunks[i].class;
                assert(class_of(a, lengths, chunks[i].members[k].pid) == Some(class));
                assert(class_of(a, lengths, chunks[i].members[k0].pid) == Some(class));
                crate::addressing::lemma_plain_is_normal(w[j]);
                crate::addressing::lemma_plain_is_normal(w[0]);
            } else {
                assert(k == 0 && k0 == 0);
            }
        }
    }
}

/// The wire of a transaction says what its segments hold: cut at the pipes, its
/// parts carry the pids of the segments, one part per segment, in order. The
/// segments hold every pick once.
pub proof fn the_wire_carries_the_segments(
    a: AdmissionView,
    lengths: Map<Seq<char>, u8>,
    due: Seq<PickView>,
    c: NextCommand,
)
    requires
        is_transaction(a, lengths, due, c),
        due.len() > 0,
        forall|k: int| 0 <= k < due.len() ==> wire_pid((#[trigger] due[k]).pid),
    ensures
        ({
            let parts = text::pieces(c.wire@, text::Blank::One('|'));
            let segments = elm::segment_views(c.segments@);
            &&& parts.len() == segments.len()
            &&& forall|i: int|
                0 <= i < parts.len() ==> crate::link::dvi::framing::wire_pids(#[trigger] parts[i])
                    == segments[i]
            &&& flat_members(segments).to_multiset() == pids_of(due).to_multiset()
        }),
{
    broadcast use vstd::seq_lib::group_to_multiset_ensures;

    let segments = wire_segments(a, lengths, due);
    let wires = elm::segment_wires(segments);
    every_pick_is_accounted_for(a, lengths, due);
    if segments.len() == 0 {
        assert(flat_members(segments).len() == 0);
        assert(flat_members(segments).to_multiset().len() == 0);
        assert(pids_of(due).to_multiset().len() == due.len());
        assert(false);
    }
    assert forall|i: int| 0 <= i < wires.len() implies !(#[trigger] wires[i]).contains('|')
        && crate::link::dvi::framing::wire_pids(wires[i]) == segments[i] by {
        let w = segments[i];
        lemma_segment_shares_mode(a, lengths, due, i);
        let mode = w[0].take(2);
        assert(wire_pid(w[0]));
        assert(wires[i] == elm::chunk_wire(w));
        assert forall|j: int| 0 <= j < w.len() implies (#[trigger] w[j]).take(2) == mode
            && crate::addressing::plain_header(w[j]) && w[j].len() == (if mode == "22"@ {
            6int
        } else {
            4
        }) by {
            assert(wire_pid(w[j]));
        }
        crate::link::dvi::framing::joined_pids_are_carried(w, mode);
        if wires[i].contains('|') {
            let k = choose|k: int| 0 <= k < wires[i].len() && wires[i][k] == '|';
            crate::link::dvi::framing::lemma_joined_is_plain(w, mode);
            assert(('0' <= wires[i][k] <= '9') || ('A' <= wires[i][k] <= 'F'));
        }
    }
    elm::pipes_mirror(wires);
}

/// The clamp halves: from six to three to one, and from two to one. A cap that
/// the adapter names is kept to, and no limit goes below one.
pub proof fn limits_are_kept_to(n: nat, cap: nat)
    requires
        n >= 1,
    ensures
        n >= 2 ==> 2 * halved(n) <= n < 2 * halved(n) + 2,
        halved(6) == 3,
        halved(3) == 1,
        halved(1) == 1,
        1 <= capped_at(n, cap) <= n,
        cap >= 1 ==> capped_at(n, cap) <= cap,
        capped_at(n, cap) < n ==> capped_at(n, cap) == cap || cap == 0,
{
}

/// What may ride together never exceeds twelve segments, six pids of mode 01 and
/// two identifiers of mode 22; where pairs of mode 22 are off or were refused, it
/// is one.
pub proof fn what_may_ride_together(p: PollView)
    requires
        p.in_bounds(),
    ensures
        1 <= p.admits().max_segments <= 12,
        1 <= p.admits().chunk_limit <= 6,
        1 <= p.admits().chunk22_limit <= 2,
        p.chunk22 == Mode22ChunkState::Disabled || p.chunk22 == Mode22ChunkState::Refused
            ==> p.admits().chunk22_limit == 1,
        p.chunk22 == Mode22ChunkState::Untried || p.chunk22 == Mode22ChunkState::Capable
            ==> p.admits().chunk22_limit == p.chunk22_cap,
        p.admits().max_segments == p.pipe_limit,
        p.admits().chunk_limit == p.chunk_limit,
        p.admits().chunk_excluded == p.chunk_excluded,
{
}

/// The first pair decides: where pairs are tried, an answered one makes the
/// vehicle capable, and a refused one, the first or a later one, ends it.
pub proof fn the_first_pair_decides(state: Mode22ChunkState, ok: bool)
    requires
        state == Mode22ChunkState::Untried || state == Mode22ChunkState::Capable,
    ensures
        ok <==> pair_noted(state, ok) == Mode22ChunkState::Capable,
        !ok <==> pair_noted(state, ok) == Mode22ChunkState::Refused,
{
}

/// A plugin that says nothing sends one pick at a time: one segment, one pid in
/// it, whatever its mode.
pub proof fn one_pick_rides_alone(pid: Seq<char>)
    ensures
        one_at_a_time().max_segments == 1,
        one_at_a_time().chunk_limit == 1,
        one_at_a_time().chunk22_limit == 1,
        !one_at_a_time().chunk_excluded.contains(pid),
{
}

/// The pids of a segment go out in ascending order, each as often as it was
/// picked: the order of the picks does not show on the wire.
pub proof fn a_segment_goes_out_in_order(g: Seq<PickView>)
    ensures
        text::is_ascending(segment_pids(g)),
        segment_pids(g).to_multiset() =~= pids_of(g).to_multiset(),
        segment_pids(g).len() == g.len(),
{
    text::sorted_texts_are_sorted(pids_of(g));
}

} // verus!
