//! The decisions behind the C interface: results and their messages, checked
//! handles, and what the arguments of a call ask for. Pointers are the caller's.
use crate::cache;
use crate::cache::{CacheEntry, CacheManager, VehicleCache};
use crate::ids;
use crate::json;
use crate::platform::ConnectionStatus;
use crate::table::Table;
use crate::text;
use vstd::prelude::*;

verus! {

/// Result of a call.
#[derive(Debug, Clone, Copy, PartialEq, Eq, Structural)]
pub enum OBDResult {
    Success,
    Error,
}

impl OBDResult {
    /// The code of a result.
    pub fn code(self) -> (r: i32)
        ensures
            r == (match self {
                OBDResult::Success => 0i32,
                OBDResult::Error => 1i32,
            }),
    {
        match self {
            OBDResult::Success => 0,
            OBDResult::Error => 1,
        }
    }
}

/// Result of a call, with a message where it failed.
#[derive(Debug)]
pub struct OBDError {
    pub code: OBDResult,
    pub message: Option<String>,
}

/// Whether `e` is a failure with this message.
pub open spec fn is_failure(e: OBDError, message: Seq<char>) -> bool {
    e.code == OBDResult::Error && (e.message matches Some(m) && m@ == message)
}

/// A failure with a message. A message that holds a NUL character cannot be
/// handed over.
pub fn create_error(message: String) -> (r: OBDError)
    ensures
        r.code == OBDResult::Error,
        message@.contains('\0') ==> r.message is None,
        !message@.contains('\0') ==> r.message == Some(message),
{
    OBDError {
        code: OBDResult::Error,
        message: if text::has_nul(message.as_str()) {
            None
        } else {
            Some(message)
        },
    }
}

/// A success.
pub fn create_success() -> (r: OBDError)
    ensures
        r.code == OBDResult::Success,
        r.message is None,
{
    OBDError { code: OBDResult::Success, message: None }
}

/// A failure whose message is the last error of the thread.
pub fn ffi_error_result() -> (r: OBDError)
    ensures
        r.code == OBDResult::Error,
        r.message is None,
{
    OBDError { code: OBDResult::Error, message: None }
}

/// What the thread's last error says of a call that panicked.
pub fn panic_text(message: Option<&str>) -> (r: String)
    ensures
        r@ == "panic in FFI call: "@ + (match message {
            Some(m) => m@,
            None => "unknown panic"@,
        }),
{
    match message {
        Some(m) => text::concat("panic in FFI call: ", m),
        None => text::concat("panic in FFI call: ", "unknown panic"),
    }
}

// ---- handles ----

/// The tag of a session on the pretend adapter.
pub const MOCK_SESSION_MAGIC: u32 = 0x4D4F_434B;

/// The tag of a session on a host's adapter.
pub const EXTERNAL_SESSION_MAGIC: u32 = 0x4558_5450;

/// The kind of session that a call expects.
#[derive(Debug, Clone, Copy, PartialEq, Eq, Structural)]
pub enum SessionKind {
    Mock,
    External,
}

/// What a handle is.
#[derive(Debug, Clone, Copy, PartialEq, Eq, Structural)]
pub enum HandleCheck {
    Valid,
    Null,
    /// The handle is of a session of another kind.
    Mismatch,
}

impl SessionKind {
    /// The tag of a kind.
    pub open spec fn spec_magic(self) -> u32 {
        match self {
            SessionKind::Mock => MOCK_SESSION_MAGIC,
            SessionKind::External => EXTERNAL_SESSION_MAGIC,
        }
    }

    /// The tag of a kind.
    pub fn magic(self) -> (r: u32)
        ensures
            r == self.spec_magic(),
    {
        match self {
            SessionKind::Mock => MOCK_SESSION_MAGIC,
            SessionKind::External => EXTERNAL_SESSION_MAGIC,
        }
    }

    /// What a handle is, by its tag; a null handle has none.
    pub fn check(self, tag: Option<u32>) -> (r: HandleCheck)
        ensures
            r == (match tag {
                None => HandleCheck::Null,
                Some(t) => if t == self.spec_magic() {
                    HandleCheck::Valid
                } else {
                    HandleCheck::Mismatch
                },
            }),
    {
        match tag {
            None => HandleCheck::Null,
            Some(t) => if t == self.magic() {
                HandleCheck::Valid
            } else {
                HandleCheck::Mismatch
            },
        }
    }

    /// What is said of a handle of another kind.
    pub fn mismatch_text(self) -> (r: &'static str)
        ensures
            r@ == (match self {
                SessionKind::Mock => "session pointer type mismatch: expected a mock session"@,
                SessionKind::External => {
                    "session pointer type mismatch: expected an external session"@
                },
            }),
    {
        match self {
            SessionKind::Mock => "session pointer type mismatch: expected a mock session",
            SessionKind::External => "session pointer type mismatch: expected an external session",
        }
    }
}

// ---- arguments ----

/// The status of a host's status code.
pub open spec fn status_of(code: i32) -> Option<ConnectionStatus> {
    if code == 0 {
        Some(ConnectionStatus::Connected)
    } else if code == 1 {
        Some(ConnectionStatus::Disconnected)
    } else if code == 2 {
        Some(ConnectionStatus::Connecting)
    } else if code == 3 {
        Some(ConnectionStatus::ConnectionFailed)
    } else if code == 4 {
        Some(ConnectionStatus::Reconnecting)
    } else {
        None
    }
}

/// Reads a host's status code.
pub fn obd_external_update_connection(status: i32) -> (r: Result<ConnectionStatus, OBDError>)
    ensures
        match status_of(status) {
            Some(s) => r matches Ok(x) && x == s,
            None => r matches Err(e) && is_failure(e, "Invalid status code"@),
        },
{
    match status {
        0 => Ok(ConnectionStatus::Connected),
        1 => Ok(ConnectionStatus::Disconnected),
        2 => Ok(ConnectionStatus::Connecting),
        3 => Ok(ConnectionStatus::ConnectionFailed),
        4 => Ok(ConnectionStatus::Reconnecting),
        _ => {
            proof {
                reveal_strlit("Invalid status code");
            }
            Err(create_error("Invalid status code".to_owned()))
        },
    }
}

/// Reads the identifier of a subscription; the text that an identifier is handed
/// out as reads back.
pub fn subscription_arg(id: Option<&str>) -> (r: Result<u128, OBDError>)
    ensures
        ({
            let value = match id {
                Some(t) => ids::uuid_value(t@),
                None => None,
            };
            match value {
                Some(n) => r matches Ok(x) && x == n,
                None => r matches Err(e) && is_failure(e, "Invalid subscription ID"@),
            }
        }),
        id matches Some(t) ==> forall|n: u128|
            t@ == #[trigger] ids::hyphenated(n) ==> (r matches Ok(x) && x == n),
{
    match ids::parse_uuid_arg(id) {
        Some(n) => Ok(n),
        None => {
            proof {
                reveal_strlit("Invalid subscription ID");
            }
            Err(create_error("Invalid subscription ID".to_owned()))
        },
    }
}

/// Reads a list of pids that is handed over as JSON; the error says what is
/// wrong with it.
pub fn pids_arg(pids_json: &str) -> (r: Result<Vec<String>, String>)
    ensures
        match json::string_list_of(pids_json@) {
            Ok(v) => r matches Ok(p) && text::views(p@) == v,
            Err(e) => r matches Err(m) && m@ == "Failed to parse PIDs JSON: "@ + e,
        },
{
    match json::string_list(pids_json) {
        Ok(v) => Ok(v),
        Err(e) => Err(text::concat("Failed to parse PIDs JSON: ", e.as_str())),
    }
}

/// Whether a length may be seeded.
pub fn obd_seed_pid_length(len: u32) -> (r: Option<u8>)
    ensures
        r == (if 1 <= len <= 64 {
            Some(len as u8)
        } else {
            None
        }),
{
    if 1 <= len && len <= 64 {
        Some(len as u8)
    } else {
        None
    }
}

/// A text that counts: an empty one is none.
pub fn nonempty_arg(s: Option<String>) -> (r: Option<String>)
    ensures
        r == (match s {
            Some(t) => if t@.len() == 0 {
                None
            } else {
                s
            },
            None => None,
        }),
{
    match s {
        Some(t) => {
            let v = text::chars_of(t.as_str());
            if v.len() == 0 {
                None
            } else {
                Some(t)
            }
        },
        None => None,
    }
}

// ---- run counts ----

/// Which pids run once: those of a subscription that are among the named ones.
pub open spec fn runs_once(
    pids: Seq<Seq<char>>,
    once: Seq<Seq<char>>,
    pid: Seq<char>,
) -> bool {
    pids.contains(pid) && once.contains(pid)
}

/// How often the pids of a subscription run: those that are named run once, the
/// others without end. Nothing is said where none is named.
pub fn obd_create_subscription_with_run_once(pids: &Vec<String>, run_once: &Vec<String>) -> (r:
    Option<Table<Option<u32>>>)
    ensures
        r is None <==> run_once@.len() == 0,
        r matches Some(t) ==> forall|p: Seq<char>|
            (#[trigger] t@.contains_key(p) <==> runs_once(
                text::views(pids@),
                text::views(run_once@),
                p,
            )) && (t@.contains_key(p) ==> t@[p] == Some(1u32)),
{
    if run_once.len() == 0 {
        return None;
    }
    let ghost all = text::views(pids@);
    let ghost once = text::views(run_once@);
    let mut t: Table<Option<u32>> = Table::new();
    let mut i: usize = 0;
    while i < pids.len()
        invariant
            i <= pids@.len(),
            all == text::views(pids@),
            once == text::views(run_once@),
            forall|p: Seq<char>|
                (#[trigger] t@.contains_key(p) <==> runs_once(all.take(i as int), once, p)) && (
                t@.contains_key(p) ==> t@[p] == Some(1u32)),
        decreases pids@.len() - i,
    {
        let ghost here = all.take(i as int);
        let ghost next = all.take(i + 1);
        let ghost pv = all[i as int];
        let ghost before = t@;
        assert(pv == pids@[i as int]@);
        proof {
            text::lemma_contains_view(run_once@, pv);
            text::lemma_take_step(all, i as int);
        }
        if text::has_text(run_once, pids[i].as_str()) {
            t.insert(pids[i].clone(), Some(1));
        }
        assert forall|p: Seq<char>|
            (#[trigger] t@.contains_key(p) <==> runs_once(next, once, p)) && (t@.contains_key(p)
                ==> t@[p] == Some(1u32)) by {
            assert(before.contains_key(p) <==> runs_once(here, once, p));
            assert(next.contains(p) <==> here.contains(p) || p == pv);
        }
        i += 1;
    }
    assert(all.take(i as int) =~= all);
    Some(t)
}

// ---- tiers ----

/// The tiers that a host asks for.
#[derive(Debug)]
pub enum TierChoice {
    /// The built-in ones.
    Defaults,
    /// A divisor per pid.
    Given(Table<u8>),
}

/// Reads the tiers of a subscription: nothing and an empty object ask for the
/// built-in ones.
pub fn obd_set_subscription_tiers(tiers_json: Option<&str>) -> (r: Result<TierChoice, String>)
    ensures
        match tiers_json {
            None => r matches Ok(c) && c is Defaults,
            Some(s) => match json::byte_map_of(s@) {
                Err(e) => r matches Err(m) && m@ == "Failed to parse tiers JSON: "@ + e,
                Ok(map) => if map =~= Map::empty() {
                    r matches Ok(c) && c is Defaults
                } else {
                    r matches Ok(TierChoice::Given(t)) && t@ == map
                },
            },
        },
{
    match tiers_json {
        None => Ok(TierChoice::Defaults),
        Some(s) => match json::byte_map(s) {
            Err(e) => Err(text::concat("Failed to parse tiers JSON: ", e.as_str())),
            Ok(rows) => {
                if rows.len() == 0 {
                    assert(crate::table::rows_map(rows@) =~= Map::empty());
                    Ok(TierChoice::Defaults)
                } else {
                    assert(crate::table::rows_map(rows@).contains_key(rows@.last().0@));
                    Ok(TierChoice::Given(Table { rows }))
                }
            },
        },
    }
}

// ---- probing with the cache ----

/// What the cache says of some pids.
#[derive(Debug)]
pub struct ProbeAnswer {
    pub cached_available: Vec<String>,
    pub cached_unavailable: Vec<String>,
    pub uncached: Vec<String>,
}

/// The pids that are cached with this availability, in order.
pub open spec fn cached_as(
    pids: Seq<Seq<char>>,
    entries: Map<Seq<char>, CacheEntry>,
    available: bool,
) -> Seq<Seq<char>>
    decreases pids.len(),
{
    if pids.len() == 0 {
        pids
    } else {
        let before = cached_as(pids.drop_last(), entries, available);
        let p = pids.last();
        if entries.contains_key(p) && entries[p].available == available {
            before.push(p)
        } else {
            before
        }
    }
}

/// The results that a vehicle's cache holds.
pub open spec fn entries_of(c: Option<&VehicleCache>) -> Map<Seq<char>, CacheEntry> {
    match c {
        Some(v) => v.entries@,
        None => Map::empty(),
    }
}

/// Sorts pids into those that are known to be there, those that are known not
/// to be, and those that are to be probed. Without a cache all are to be probed.
pub fn probe_answer(pids: &Vec<String>, cache: Option<&VehicleCache>) -> (r: ProbeAnswer)
    ensures
        text::views(r.cached_available@) == cached_as(text::views(pids@), entries_of(cache), true),
        text::views(r.cached_unavailable@) == cached_as(
            text::views(pids@),
            entries_of(cache),
            false,
        ),
        text::views(r.uncached@) == cache::split_known(
            text::views(pids@),
            entries_of(cache).dom(),
        ).1,
{
    let ghost all = text::views(pids@);
    let ghost entries = entries_of(cache);
    let mut yes: Vec<String> = Vec::new();
    let mut no: Vec<String> = Vec::new();
    let mut i: usize = 0;
    assert(text::views(yes@) =~= cached_as(all.take(0), entries, true));
    assert(text::views(no@) =~= cached_as(all.take(0), entries, false));
    while i < pids.len()
        invariant
            i <= pids@.len(),
            all == text::views(pids@),
            entries == entries_of(cache),
            text::views(yes@) == cached_as(all.take(i as int), entries, true),
            text::views(no@) == cached_as(all.take(i as int), entries, false),
        decreases pids@.len() - i,
    {
        assert(all.take(i + 1).drop_last() =~= all.take(i as int));
        assert(all.take(i + 1).last() == pids@[i as int]@);
        let ghost a = text::views(yes@);
        let ghost b = text::views(no@);
        let ghost pv = pids@[i as int]@;
        let known = match cache {
            Some(c) => match c.entries.get(pids[i].as_str()) {
                Some(e) => Some(e.available),
                None => None,
            },
            None => None,
        };
        match known {
            Some(true) => {
                yes.push(pids[i].clone());
                assert(text::views(yes@) =~= a.push(pv));
            },
            Some(false) => {
                no.push(pids[i].clone());
                assert(text::views(no@) =~= b.push(pv));
            },
            None => {},
        }
        i += 1;
    }
    assert(all.take(i as int) =~= all);
    let (_, uncached) = CacheManager::get_cached_pids(cache, pids.as_slice());
    ProbeAnswer { cached_available: yes, cached_unavailable: no, uncached }
}

/// Sorts the pids of a list that is handed over as JSON; the error is the JSON
/// text that says what is wrong with it.
pub fn obd_probe_pids_cached(pids_json: &str, cache: Option<&VehicleCache>) -> (r: Result<
    ProbeAnswer,
    String,
>)
    ensures
        match json::string_list_of(pids_json@) {
            Ok(v) => r matches Ok(a) && text::views(a.cached_available@) == cached_as(
                v,
                entries_of(cache),
                true,
            ) && text::views(a.cached_unavailable@) == cached_as(v, entries_of(cache), false)
                && text::views(a.uncached@) == cache::split_known(v, entries_of(cache).dom()).1,
            Err(e) => r matches Err(m) && m@ == "{\"error\":\"Failed to parse PIDs: "@ + e
                + "\"}"@,
        },
{
    match json::string_list(pids_json) {
        Ok(pids) => Ok(probe_answer(&pids, cache)),
        Err(e) => {
            let mut m = text::concat("{\"error\":\"Failed to parse PIDs: ", e.as_str());
            m.append("\"}");
            Err(m)
        },
    }
}

/// What probing one pid gave.
#[derive(Debug)]
pub struct ProbeResult {
    pub pid: String,
    pub raw_response: String,
    pub available: bool,
}

/// Results of probing as rows of the cache, at `now`.
pub open spec fn probe_rows(results: Seq<ProbeResult>, now: u64) -> Seq<(String, CacheEntry)> {
    Seq::new(
        results.len(),
        |i: int|
            (
                results[i].pid,
                CacheEntry {
                    raw_response: results[i].raw_response,
                    available: results[i].available,
                    cached_at: now,
                },
            ),
    )
}

fn probe_entries(results: Vec<ProbeResult>, now: u64) -> (r: Vec<(String, CacheEntry)>)
    ensures
        r@ == probe_rows(results@, now),
{
    let mut out: Vec<(String, CacheEntry)> = Vec::new();
    for p in it: results
        invariant
            it.seq() == results@,
            out@ == probe_rows(results@, now).take(it.index() as int),
    {
        let ghost i = it.index() as int;
        out.push(
            (
                p.pid,
                CacheEntry {
                    raw_response: p.raw_response,
                    available: p.available,
                    cached_at: now,
                },
            ),
        );
        assert(out@ =~= probe_rows(results@, now).take(i + 1));
    }
    assert(probe_rows(results@, now).take(results@.len() as int) =~= probe_rows(results@, now));
    out
}

/// Reads the available pids that are handed over as JSON; the error says what
/// is wrong with them.
pub fn available_pids_arg(available_pids_json: &str) -> (r: Result<Vec<String>, String>)
    ensures
        match json::string_list_of(available_pids_json@) {
            Ok(v) => r matches Ok(p) && text::views(p@) == v,
            Err(e) => r matches Err(m) && m@ == "Failed to parse available PIDs: "@ + e,
        },
{
    match json::string_list(available_pids_json) {
        Ok(v) => Ok(v),
        Err(e) => Err(text::concat("Failed to parse available PIDs: ", e.as_str())),
    }
}

/// What is known of a vehicle once the results of probing are added, at `now`.
pub fn obd_save_probe_results(
    cache: Option<VehicleCache>,
    vin: &str,
    results: Vec<ProbeResult>,
    available_pids: Vec<String>,
    now: u64,
) -> (r: VehicleCache)
    ensures
        cache::is_updated(
            cache,
            vin@,
            probe_rows(results@, now),
            text::views(available_pids@),
            now,
            r,
        ),
{
    CacheManager::update_cache(cache, vin, probe_entries(results, now), available_pids, now)
}

// ---- laws ----

/// Every pid of a probe comes back once: known to be there, known not to be, or
/// to be probed.
pub proof fn a_probe_loses_no_pid(pids: Seq<Seq<char>>, entries: Map<Seq<char>, CacheEntry>)
    ensures
        cached_as(pids, entries, true).to_multiset().add(
            cached_as(pids, entries, false).to_multiset(),
        ).add(cache::split_known(pids, entries.dom()).1.to_multiset()) =~= pids.to_multiset(),
    decreases pids.len(),
{
    broadcast use vstd::seq_lib::group_to_multiset_ensures;

    if pids.len() > 0 {
        a_probe_loses_no_pid(pids.drop_last(), entries);
        assert(pids =~= pids.drop_last().push(pids.last()));
    }
}

/// The result that was saved last for a pid is what a probe of that pid finds.
pub proof fn a_saved_probe_is_found(
    have: Map<Seq<char>, CacheEntry>,
    results: Seq<ProbeResult>,
    now: u64,
    pids: Seq<Seq<char>>,
    i: int,
)
    requires
        0 <= i < results.len(),
        forall|j: int| i < j < results.len() ==> (#[trigger] results[j]).pid@ != results[i].pid@,
        pids.contains(results[i].pid@),
    ensures
        cached_as(
            pids,
            cache::merged(have, probe_rows(results, now)),
            results[i].available,
        ).contains(results[i].pid@),
{
    let rows = probe_rows(results, now);
    let entries = cache::merged(have, rows);
    lemma_last_row_counts(have, rows, i);
    let k = choose|k: int| 0 <= k < pids.len() && pids[k] == results[i].pid@;
    lemma_cached_as_has(pids, entries, results[i].available, k);
}

proof fn lemma_last_row_counts(
    have: Map<Seq<char>, CacheEntry>,
    rows: Seq<(String, CacheEntry)>,
    i: int,
)
    requires
        0 <= i < rows.len(),
        forall|j: int| i < j < rows.len() ==> (#[trigger] rows[j]).0@ != rows[i].0@,
    ensures
        cache::merged(have, rows).contains_key(rows[i].0@),
        cache::merged(have, rows)[rows[i].0@] == rows[i].1,
    decreases rows.len(),
{
    if i < rows.len() - 1 {
        let head = rows.drop_last();
        assert(head[i] == rows[i]);
        lemma_last_row_counts(have, head, i);
        assert(rows.last() == rows[rows.len() - 1]);
    }
}

proof fn lemma_cached_as_has(
    pids: Seq<Seq<char>>,
    entries: Map<Seq<char>, CacheEntry>,
    available: bool,
    k: int,
)
    requires
        0 <= k < pids.len(),
        entries.contains_key(pids[k]),
        entries[pids[k]].available == available,
    ensures
        cached_as(pids, entries, available).contains(pids[k]),
    decreases pids.len(),
{
    let all = cached_as(pids, entries, available);
    let before = cached_as(pids.drop_last(), entries, available);
    text::lemma_push_contains(before, pids.last());
    if k < pids.len() - 1 {
        assert(pids.drop_last()[k] == pids[k]);
        lemma_cached_as_has(pids.drop_last(), entries, available, k);
    }
}

/// A handle of one kind is never taken for one of another.
pub proof fn handles_are_told_apart(a: SessionKind, b: SessionKind)
    requires
        a != b,
    ensures
        a.spec_magic() != b.spec_magic(),
{
}

/// Hosts number the states of a link from zero: up, down, coming up, failed,
/// coming up again. No other number is a state.
pub proof fn states_are_numbered(code: i32)
    ensures
        status_of(code) is Some <==> 0 <= code <= 4,
        status_of(0) == Some(ConnectionStatus::Connected),
        status_of(1) == Some(ConnectionStatus::Disconnected),
        status_of(2) == Some(ConnectionStatus::Connecting),
        status_of(3) == Some(ConnectionStatus::ConnectionFailed),
        status_of(4) == Some(ConnectionStatus::Reconnecting),
{
}

/// A pid runs once where the subscription wants it and it is named; naming one
/// that is not wanted does nothing.
pub proof fn named_pids_run_once(pids: Seq<Seq<char>>, once: Seq<Seq<char>>, pid: Seq<char>)
    ensures
        runs_once(pids, once, pid) ==> pids.contains(pid) && once.contains(pid),
        pids.contains(pid) && once.contains(pid) ==> runs_once(pids, once, pid),
{
}

/// One more pid is listed behind the others of its availability, and not at all
/// where the cache does not hold it.
pub proof fn cached_pids_keep_their_order(
    pids: Seq<Seq<char>>,
    pid: Seq<char>,
    entries: Map<Seq<char>, CacheEntry>,
    available: bool,
)
    ensures
        entries.contains_key(pid) && entries[pid].available == available ==> cached_as(
            pids.push(pid),
            entries,
            available,
        ) == cached_as(pids, entries, available).push(pid),
        !entries.contains_key(pid) || entries[pid].available != available ==> cached_as(
            pids.push(pid),
            entries,
            available,
        ) == cached_as(pids, entries, available),
{
    assert(pids.push(pid).drop_last() =~= pids);
}

/// A probe's result is cached under its pid, with what came back, whether it is
/// there, and when.
pub proof fn a_result_becomes_its_row(results: Seq<ProbeResult>, now: u64, i: int)
    requires
        0 <= i < results.len(),
    ensures
        probe_rows(results, now).len() == results.len(),
        probe_rows(results, now)[i].0 == results[i].pid,
        probe_rows(results, now)[i].1.raw_response == results[i].raw_response,
        probe_rows(results, now)[i].1.available == results[i].available,
        probe_rows(results, now)[i].1.cached_at == now,
{
}

} // verus!
