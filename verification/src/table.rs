//! A map from text to values, kept as rows.
use crate::text;
use vstd::prelude::*;

verus! {

/// The map that rows write: a later row for a key replaces an earlier one.
pub open spec fn rows_map<V>(rows: Seq<(String, V)>) -> Map<Seq<char>, V>
    decreases rows.len(),
{
    if rows.len() == 0 {
        Map::empty()
    } else {
        rows_map(rows.drop_last()).insert(rows.last().0@, rows.last().1)
    }
}

/// A map from text to values.
#[derive(Debug, Clone)]
pub struct Table<V> {
    pub rows: Vec<(String, V)>,
}

impl<V> View for Table<V> {
    type V = Map<Seq<char>, V>;

    open spec fn view(&self) -> Map<Seq<char>, V> {
        rows_map(self.rows@)
    }
}

impl<V> Table<V> {
    /// The empty map.
    pub fn new() -> (r: Self)
        ensures
            r@ == Map::<Seq<char>, V>::empty(),
            r.rows@.len() == 0,
    {
        Table { rows: Vec::new() }
    }

    /// The value of a key.
    pub fn get(&self, key: &str) -> (r: Option<&V>)
        ensures
            r is Some <==> self@.contains_key(key@),
            r matches Some(v) ==> *v == self@[key@],
    {
        let mut i: usize = self.rows.len();
        let ghost all = self.rows@;
        assert(all.take(i as int) =~= all);
        while i > 0
            invariant
                i <= self.rows@.len(),
                all == self.rows@,
                self@.contains_key(key@) == rows_map(all.take(i as int)).contains_key(key@),
                self@.contains_key(key@) ==> self@[key@] == rows_map(all.take(i as int))[key@],
            decreases i,
        {
            assert(all.take(i as int).drop_last() =~= all.take(i - 1));
            i -= 1;
            if text::same(self.rows[i].0.as_str(), key) {
                return Some(&self.rows[i].1);
            }
        }
        None
    }

    /// Whether a key has a value.
    pub fn has(&self, key: &str) -> (r: bool)
        ensures
            r == self@.contains_key(key@),
    {
        self.get(key).is_some()
    }

    /// Takes a key out; its value, where it had one.
    pub fn remove(&mut self, key: &str) -> (r: Option<V>)
        ensures
            final(self)@ == old(self)@.remove(key@),
            r == (if old(self)@.contains_key(key@) {
                Some(old(self)@[key@])
            } else {
                None
            }),
    {
        let mut rows: Vec<(String, V)> = Vec::new();
        let ghost start = self@;
        std::mem::swap(&mut rows, &mut self.rows);
        let ghost all = rows@;
        let mut kept: Vec<(String, V)> = Vec::new();
        let mut found: Option<V> = None;
        assert(rows_map(all.take(0)).remove(key@) =~= Map::<Seq<char>, V>::empty());
        for row in it: rows
            invariant
                it.seq() == all,
                start == rows_map(all),
                rows_map(kept@) == rows_map(all.take(it.index() as int)).remove(key@),
                found == (if rows_map(all.take(it.index() as int)).contains_key(key@) {
                    Some(rows_map(all.take(it.index() as int))[key@])
                } else {
                    None
                }),
        {
            let ghost i = it.index() as int;
            let ghost here = rows_map(all.take(i));
            let ghost kept_before = kept@;
            assert(all.take(i + 1).drop_last() =~= all.take(i));
            assert(row == all[i]);
            let ghost k = row.0@;
            let ghost v = row.1;
            if text::same(row.0.as_str(), key) {
                found = Some(row.1);
                assert(here.insert(k, v).remove(key@) =~= here.remove(key@));
            } else {
                kept.push(row);
                assert(kept@.drop_last() =~= kept_before);
                assert(here.insert(k, v).remove(key@) =~= here.remove(key@).insert(k, v));
            }
        }
        assert(all.take(all.len() as int) =~= all);
        self.rows = kept;
        found
    }

    /// Gives a key a value, in place of the one it had.
    pub fn insert(&mut self, key: String, value: V)
        ensures
            final(self)@ == old(self)@.insert(key@, value),
    {
        let ghost start = self@;
        let ghost k = key@;
        let _ = self.remove(key.as_str());
        let ghost before = self.rows@;
        self.rows.push((key, value));
        assert(self.rows@.drop_last() =~= before);
        assert(start.remove(k).insert(k, value) =~= start.insert(k, value));
    }

    /// The keys, each once.
    pub fn keys(&self) -> (r: Vec<String>)
        ensures
            text::views(r@).no_duplicates(),
            text::views(r@).to_set() == self@.dom(),
    {
        let mut out: Vec<String> = Vec::new();
        let ghost all = self.rows@;
        let mut i: usize = 0;
        assert(text::views(out@).to_set() =~= rows_map(all.take(0)).dom());
        while i < self.rows.len()
            invariant
                i <= self.rows@.len(),
                all == self.rows@,
                text::views(out@).no_duplicates(),
                text::views(out@).to_set() == rows_map(all.take(i as int)).dom(),
            decreases self.rows@.len() - i,
        {
            assert(all.take(i + 1).drop_last() =~= all.take(i as int));
            let ghost before = text::views(out@);
            let key = self.rows[i].0.as_str();
            let ghost kv = key@;
            proof {
                text::lemma_contains_view(out@, kv);
            }
            if !text::has_text(&out, key) {
                out.push(self.rows[i].0.clone());
                let ghost now = text::views(out@);
                assert(now =~= before.push(kv));
                proof {
                    text::lemma_push_contains(before, kv);
                }
                assert(now.to_set() =~= before.to_set().insert(kv));
            } else {
                assert(before.to_set().contains(kv));
                assert(before.to_set() =~= before.to_set().insert(kv));
            }
            assert(rows_map(all.take(i + 1)).dom() =~= rows_map(all.take(i as int)).dom().insert(
                kv,
            ));
            i += 1;
        }
        assert(all.take(i as int) =~= all);
        out
    }
}

// ---- laws ----

/// A row more says what its key maps to from then on; other keys keep what they
/// had.
pub proof fn the_last_row_of_a_key_counts<V>(rows: Seq<(String, V)>, key: String, value: V, k: Seq<char>)
    ensures
        rows_map(rows.push((key, value))).contains_key(key@),
        rows_map(rows.push((key, value)))[key@] == value,
        k != key@ ==> (rows_map(rows.push((key, value))).contains_key(k) <==> rows_map(
            rows,
        ).contains_key(k)),
        k != key@ && rows_map(rows).contains_key(k) ==> rows_map(rows.push((key, value)))[k]
            == rows_map(rows)[k],
{
    assert(rows.push((key, value)).drop_last() =~= rows);
}

} // verus!
