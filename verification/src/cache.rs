//! Discovery results of vehicles, so that a vehicle that was seen before need
//! not be probed again. Reading and writing the files is the caller's.
use crate::table;
use crate::table::Table;
use crate::text;
use vstd::prelude::*;

verus! {

/// What probing one pid gave.
#[derive(Debug, Clone)]
pub struct CacheEntry {
    pub raw_response: String,
    pub available: bool,
    /// When it was probed, in seconds since the epoch.
    pub cached_at: u64,
}

/// The discovery results of one vehicle.
#[derive(Debug, Clone)]
pub struct VehicleCache {
    pub vin: String,
    /// Version of the format.
    pub version: u32,
    /// When it was last updated, in seconds since the epoch.
    pub updated_at: u64,
    /// Results by command.
    pub entries: Table<CacheEntry>,
    /// The pids that the vehicle has.
    pub available_pids: Vec<String>,
}

impl VehicleCache {
    /// Nothing is known of a vehicle.
    pub fn new(vin: String, now: u64) -> (r: Self)
        ensures
            r.vin@ == vin@,
            r.version == 1,
            r.updated_at == now,
            r.entries@ == Map::<Seq<char>, CacheEntry>::empty(),
            r.available_pids@.len() == 0,
    {
        VehicleCache {
            vin,
            version: 1,
            updated_at: now,
            entries: Table::new(),
            available_pids: Vec::new(),
        }
    }
}

/// What is wrong with a cache file.
#[derive(Debug)]
pub enum CacheError {
    IoError(String),
    ParseError(String),
}

impl CacheError {
    /// The error for people.
    pub fn message(&self) -> (r: String)
        ensures
            r@ == (match *self {
                CacheError::IoError(m) => "Cache I/O error: "@ + m@,
                CacheError::ParseError(m) => "Cache parse error: "@ + m@,
            }),
    {
        match self {
            CacheError::IoError(m) => text::concat("Cache I/O error: ", m.as_str()),
            CacheError::ParseError(m) => text::concat("Cache parse error: ", m.as_str()),
        }
    }
}

/// Where the cache files are.
pub struct CacheManager {
    pub cache_dir: String,
}

/// What `char::is_alphanumeric` says of a character.
pub uninterp spec fn alphanumeric(c: char) -> bool;

/// `char::is_alphanumeric`: of the ASCII characters the digits and letters; the
/// others follow the Unicode tables, which are only named here.
#[verifier::external_body]
fn is_alphanumeric(c: char) -> (r: bool)
    ensures
        r == alphanumeric(c),
        (c as u32) < 128 ==> r == ('0' <= c <= '9' || 'a' <= c <= 'z' || 'A' <= c <= 'Z'),
{
    c.is_alphanumeric()
}

/// A vehicle's name as part of a file name: everything but letters and digits
/// becomes an underscore.
pub open spec fn safe_name(s: Seq<char>) -> Seq<char> {
    Seq::new(
        s.len(),
        |i: int|
            if alphanumeric(s[i]) {
                s[i]
            } else {
                '_'
            },
    )
}

/// The pids that are among the keys, and those that are not.
pub open spec fn split_known(
    pids: Seq<Seq<char>>,
    known: Set<Seq<char>>,
) -> (Seq<Seq<char>>, Seq<Seq<char>>)
    decreases pids.len(),
{
    if pids.len() == 0 {
        (pids, pids)
    } else {
        let (a, b) = split_known(pids.drop_last(), known);
        if known.contains(pids.last()) {
            (a.push(pids.last()), b)
        } else {
            (a, b.push(pids.last()))
        }
    }
}

/// A list with the texts of another that it does not hold yet.
pub open spec fn with_new(have: Seq<Seq<char>>, more: Seq<Seq<char>>) -> Seq<Seq<char>>
    decreases more.len(),
{
    if more.len() == 0 {
        have
    } else {
        let before = with_new(have, more.drop_last());
        if before.contains(more.last()) {
            before
        } else {
            before.push(more.last())
        }
    }
}

/// Results with newer ones, which replace the old of the same command.
pub open spec fn merged(
    have: Map<Seq<char>, CacheEntry>,
    more: Seq<(String, CacheEntry)>,
) -> Map<Seq<char>, CacheEntry>
    decreases more.len(),
{
    if more.len() == 0 {
        have
    } else {
        merged(have, more.drop_last()).insert(more.last().0@, more.last().1)
    }
}

/// Whether `r` is what is known of a vehicle after an update: newer results
/// replace older ones, and the available pids are joined and put in order.
pub open spec fn is_updated(
    cache: Option<VehicleCache>,
    vin: Seq<char>,
    new_entries: Seq<(String, CacheEntry)>,
    new_available_pids: Seq<Seq<char>>,
    now: u64,
    r: VehicleCache,
) -> bool {
    let have = match cache {
        Some(c) => c.entries@,
        None => Map::empty(),
    };
    let pids = match cache {
        Some(c) => text::views(c.available_pids@),
        None => Seq::empty(),
    };
    &&& r.updated_at == now
    &&& r.entries@ == merged(have, new_entries)
    &&& text::views(r.available_pids@) == text::sorted_texts(with_new(pids, new_available_pids))
    &&& r.vin@ == (match cache {
        Some(c) => c.vin@,
        None => vin,
    })
    &&& r.version == (match cache {
        Some(c) => c.version,
        None => 1,
    })
}

impl CacheManager {
    /// The name of the file of a vehicle.
    pub fn cache_file_name(vin: &str) -> (r: String)
        ensures
            r@ == safe_name(vin@) + ".cache"@,
    {
        let v = text::chars_of(vin);
        let mut out = String::new();
        let mut i: usize = 0;
        assert(out@ =~= safe_name(v@.take(0)));
        while i < v.len()
            invariant
                i <= v@.len(),
                out@ == safe_name(v@.take(i as int)),
            decreases v@.len() - i,
        {
            if is_alphanumeric(v[i]) {
                out.push(v[i]);
            } else {
                out.push('_');
            }
            assert(out@ =~= safe_name(v@.take(i + 1)));
            i += 1;
        }
        assert(v@.take(i as int) =~= v@);
        out.append(".cache");
        out
    }

    /// Which pids a vehicle's cache knows, and which it does not.
    pub fn get_cached_pids(cache: Option<&VehicleCache>, requested_pids: &[String]) -> (r: (
        Vec<String>,
        Vec<String>,
    ))
        ensures
            (text::views(r.0@), text::views(r.1@)) == split_known(
                text::views(requested_pids@),
                match cache {
                    Some(c) => c.entries@.dom(),
                    None => Set::empty(),
                },
            ),
    {
        let ghost known = match cache {
            Some(c) => c.entries@.dom(),
            None => Set::empty(),
        };
        let ghost all = text::views(requested_pids@);
        let mut cached: Vec<String> = Vec::new();
        let mut uncached: Vec<String> = Vec::new();
        let mut i: usize = 0;
        assert(text::views(cached@) =~= split_known(all.take(0), known).0);
        assert(text::views(uncached@) =~= split_known(all.take(0), known).1);
        while i < requested_pids.len()
            invariant
                i <= requested_pids@.len(),
                all == text::views(requested_pids@),
                known == (match cache {
                    Some(c) => c.entries@.dom(),
                    None => Set::empty(),
                }),
                text::views(cached@) == split_known(all.take(i as int), known).0,
                text::views(uncached@) == split_known(all.take(i as int), known).1,
            decreases requested_pids@.len() - i,
        {
            assert(all.take(i + 1).drop_last() =~= all.take(i as int));
            let ghost a = text::views(cached@);
            let ghost b = text::views(uncached@);
            let pid = requested_pids[i].clone();
            let ghost pv = pid@;
            assert(all.take(i + 1).last() == pv);
            let hit = match cache {
                Some(c) => c.entries.has(pid.as_str()),
                None => false,
            };
            assert(hit == known.contains(pv));
            if hit {
                cached.push(pid);
                assert(text::views(cached@) =~= a.push(pv));
            } else {
                uncached.push(pid);
                assert(text::views(uncached@) =~= b.push(pv));
            }
            i += 1;
        }
        assert(all.take(i as int) =~= all);
        (cached, uncached)
    }

    /// Adds new results to what is known of a vehicle: newer results replace
    /// older ones, and the available pids are joined and put in order.
    pub fn update_cache(
        cache: Option<VehicleCache>,
        vin: &str,
        new_entries: Vec<(String, CacheEntry)>,
        new_available_pids: Vec<String>,
        now: u64,
    ) -> (r: VehicleCache)
        ensures
            is_updated(cache, vin@, new_entries@, text::views(new_available_pids@), now, r),
    {
        let ghost given = cache;
        let mut c = match cache {
            Some(c) => c,
            None => VehicleCache::new(vin.to_owned(), now),
        };
        let ghost have = c.entries@;
        let ghost pids = text::views(c.available_pids@);
        assert(given is None ==> pids =~= Seq::<Seq<char>>::empty());
        let mut entries: Table<CacheEntry> = Table::new();
        std::mem::swap(&mut entries, &mut c.entries);
        let ghost new_rows = new_entries@;
        assert(new_rows.take(0) =~= Seq::<(String, CacheEntry)>::empty());
        for row in it: new_entries
            invariant
                it.seq() == new_rows,
                entries@ == merged(have, new_rows.take(it.index() as int)),
        {
            let ghost i = it.index() as int;
            assert(new_rows.take(i + 1).drop_last() =~= new_rows.take(i));
            assert(new_rows.take(i + 1).last() == row);
            let (pid, entry) = row;
            entries.insert(pid, entry);
        }
        assert(new_rows.take(new_rows.len() as int) =~= new_rows);
        c.entries = entries;
        let mut all = text::clone_strings(&c.available_pids);
        let ghost more = text::views(new_available_pids@);
        let mut i: usize = 0;
        assert(more.take(0) =~= Seq::<Seq<char>>::empty());
        while i < new_available_pids.len()
            invariant
                i <= new_available_pids@.len(),
                more == text::views(new_available_pids@),
                text::views(all@) == with_new(pids, more.take(i as int)),
            decreases new_available_pids@.len() - i,
        {
            assert(more.take(i + 1).drop_last() =~= more.take(i as int));
            let ghost before = text::views(all@);
            let pid = new_available_pids[i].as_str();
            assert(more.take(i + 1).last() == pid@);
            proof {
                text::lemma_contains_view(all@, pid@);
            }
            if !text::has_text(&all, pid) {
                all.push(new_available_pids[i].clone());
                assert(text::views(all@) =~= before.push(pid@));
            }
            i += 1;
        }
        assert(more.take(i as int) =~= more);
        c.available_pids = text::sort_strings(&all);
        c.updated_at = now;
        c
    }
}

// ---- laws ----

/// Every requested pid comes back exactly once, known or not: together the two
/// lists hold what was asked for.
pub proof fn nothing_requested_is_lost(pids: Seq<Seq<char>>, known: Set<Seq<char>>)
    ensures
        split_known(pids, known).0.to_multiset().add(split_known(pids, known).1.to_multiset())
            =~= pids.to_multiset(),
        forall|i: int|
            0 <= i < split_known(pids, known).0.len() ==> known.contains(
                #[trigger] split_known(pids, known).0[i],
            ),
        forall|i: int|
            0 <= i < split_known(pids, known).1.len() ==> !known.contains(
                #[trigger] split_known(pids, known).1[i],
            ),
    decreases pids.len(),
{
    broadcast use vstd::seq_lib::group_to_multiset_ensures;

    if pids.len() > 0 {
        nothing_requested_is_lost(pids.drop_last(), known);
        assert(pids =~= pids.drop_last().push(pids.last()));
    }
}

/// After an update the commands that were known or are new are known, the new
/// results being those of the update.
pub proof fn an_update_keeps_what_was_known(
    have: Map<Seq<char>, CacheEntry>,
    more: Seq<(String, CacheEntry)>,
    k: Seq<char>,
)
    ensures
        have.contains_key(k) ==> merged(have, more).contains_key(k),
        table::rows_map(more).contains_key(k) ==> merged(have, more).contains_key(k) && merged(
            have,
            more,
        )[k] == table::rows_map(more)[k],
        have.contains_key(k) && !table::rows_map(more).contains_key(k) ==> merged(have, more)[k]
            == have[k],
    decreases more.len(),
{
    if more.len() > 0 {
        an_update_keeps_what_was_known(have, more.drop_last(), k);
    }
}

/// After an update the available pids are those that were available and the new
/// ones, in order; none stands twice where none stood twice before.
pub proof fn available_pids_are_joined(have: Seq<Seq<char>>, more: Seq<Seq<char>>, pid: Seq<char>)
    ensures
        with_new(have, more).contains(pid) <==> have.contains(pid) || more.contains(pid),
        text::is_ascending(text::sorted_texts(with_new(have, more))),
        text::sorted_texts(with_new(have, more)).contains(pid) <==> have.contains(pid)
            || more.contains(pid),
        have.no_duplicates() ==> with_new(have, more).no_duplicates(),
        have.no_duplicates() ==> text::sorted_texts(with_new(have, more)).no_duplicates(),
    decreases more.len(),
{
    broadcast use vstd::seq_lib::group_to_multiset_ensures;

    let all = with_new(have, more);
    text::sorted_texts_are_sorted(all);
    let sorted = text::sorted_texts(all);
    if more.len() > 0 {
        let head = more.drop_last();
        let before = with_new(have, head);
        available_pids_are_joined(have, head, pid);
        assert(more =~= head.push(more.last()));
        text::lemma_push_contains(head, more.last());
        text::lemma_push_contains(before, more.last());
    }
    if have.no_duplicates() {
        all.lemma_multiset_has_no_duplicates();
        sorted.lemma_multiset_has_no_duplicates_conv();
    }
    assert(sorted.contains(pid) <==> sorted.to_multiset().count(pid) > 0);
    assert(all.contains(pid) <==> all.to_multiset().count(pid) > 0);
}

/// Vehicles whose identifications are made of letters and digits have cache
/// files of their own.
pub proof fn vehicles_have_files_of_their_own(a: Seq<char>, b: Seq<char>)
    requires
        a != b,
        forall|i: int| 0 <= i < a.len() ==> alphanumeric(#[trigger] a[i]),
        forall|i: int| 0 <= i < b.len() ==> alphanumeric(#[trigger] b[i]),
    ensures
        safe_name(a) + ".cache"@ != safe_name(b) + ".cache"@,
{
    assert(safe_name(a) =~= a);
    assert(safe_name(b) =~= b);
    text::lemma_same_tail(a, b, ".cache"@);
}

/// One more request goes behind those of its list, so that both lists keep the
/// order of the requests.
pub proof fn requests_keep_their_order(pids: Seq<Seq<char>>, pid: Seq<char>, known: Set<Seq<char>>)
    ensures
        known.contains(pid) ==> split_known(pids.push(pid), known) == (
            split_known(pids, known).0.push(pid),
            split_known(pids, known).1,
        ),
        !known.contains(pid) ==> split_known(pids.push(pid), known) == (
            split_known(pids, known).0,
            split_known(pids, known).1.push(pid),
        ),
{
    assert(pids.push(pid).drop_last() =~= pids);
}

/// An update is of the vehicle that was cached, or of the one that was named
/// where nothing was; it carries the time of the update.
pub proof fn an_update_is_of_its_vehicle(
    cache: Option<VehicleCache>,
    vin: Seq<char>,
    new_entries: Seq<(String, CacheEntry)>,
    pids: Seq<Seq<char>>,
    now: u64,
    r: VehicleCache,
    pid: Seq<char>,
)
    requires
        is_updated(cache, vin, new_entries, pids, now, r),
    ensures
        r.updated_at == now,
        cache is Some ==> r.vin@ == cache->0.vin@ && r.version == cache->0.version,
        cache is None ==> r.vin@ == vin && r.version == 1,
        pids.contains(pid) ==> text::views(r.available_pids@).contains(pid),
        cache is Some && text::views(cache->0.available_pids@).contains(pid) ==> text::views(
            r.available_pids@,
        ).contains(pid),
        cache is None && text::views(r.available_pids@).contains(pid) ==> pids.contains(pid),
        table::rows_map(new_entries).contains_key(pid) ==> r.entries@.contains_key(pid)
            && r.entries@[pid] == table::rows_map(new_entries)[pid],
        cache is Some && cache->0.entries@.contains_key(pid) ==> r.entries@.contains_key(pid),
{
    let have = match cache {
        Some(c) => text::views(c.available_pids@),
        None => Seq::empty(),
    };
    let known = match cache {
        Some(c) => c.entries@,
        None => Map::empty(),
    };
    available_pids_are_joined(have, pids, pid);
    an_update_keeps_what_was_known(known, new_entries, pid);
}

/// A file name keeps the letters and digits of the vehicle's name in their
/// places, as many characters as it has, and nothing that could lead to another
/// directory.
pub proof fn a_file_name_is_safe(s: Seq<char>, i: int)
    requires
        0 <= i < s.len(),
    ensures
        safe_name(s).len() == s.len(),
        alphanumeric(s[i]) ==> safe_name(s)[i] == s[i],
        !alphanumeric(s[i]) ==> safe_name(s)[i] == '_',
{
}

} // verus!
