//! The adapter catalog: what a connector's name says about the adapter.
use crate::text;
use vstd::prelude::*;

verus! {

/// Known adapters.
#[derive(Debug, Clone)]
pub struct Catalog {
    pub adapters: Vec<Adapter>,
}

/// One known adapter.
#[derive(Debug, Clone)]
pub struct Adapter {
    pub name: String,
    pub max_chunk: Option<usize>,
    pub supports_periodic: Option<bool>,
    /// "elm", which also holds where nothing is said, or "dvi".
    pub protocol: Option<String>,
    pub ble: Option<Patterns>,
    pub classic: Option<Patterns>,
    pub usb: Option<Patterns>,
    pub wifi: Option<Patterns>,
}

/// What the names of an adapter's connectors hold.
#[derive(Debug, Clone)]
pub struct Patterns {
    pub name_patterns: Vec<String>,
}

/// What a matched adapter says.
#[derive(Debug, Clone, PartialEq, Eq)]
pub struct CatalogFacts {
    pub adapter_name: String,
    pub supports_periodic: Option<bool>,
    pub max_chunk: Option<usize>,
    pub protocol: Option<String>,
}

/// Whether a connector name matches a pattern, case aside: it begins with it or
/// holds it anywhere.
pub open spec fn name_matches(name: Seq<char>, pattern: Seq<char>, prefix: bool) -> bool {
    if prefix {
        text::starts_with(text::lower(name), text::lower(pattern))
    } else {
        text::contains(text::lower(name), text::lower(pattern))
    }
}

/// Whether a connector name matches one of some patterns.
pub open spec fn one_matches(v: Seq<String>, name: Seq<char>, prefix: bool) -> bool {
    exists|i: int| 0 <= i < v.len() && name_matches(name, (#[trigger] v[i])@, prefix)
}

/// Whether a connector name matches one of an adapter's patterns of a kind.
pub open spec fn any_matches(p: Option<Patterns>, name: Seq<char>, prefix: bool) -> bool {
    match p {
        Some(q) => one_matches(q.name_patterns@, name, prefix),
        None => false,
    }
}

/// Whether an adapter has a connector of that name and kind. Names of classic
/// Bluetooth connectors match from their beginning.
pub open spec fn adapter_matches(a: Adapter, name: Seq<char>, kind: Seq<char>) -> bool {
    if kind == "ble"@ {
        any_matches(a.ble, name, false)
    } else if kind == "classic"@ {
        any_matches(a.classic, name, true)
    } else if kind == "usb"@ {
        any_matches(a.usb, name, false)
    } else if kind == "wifi"@ {
        any_matches(a.wifi, name, false)
    } else {
        false
    }
}

/// The first adapter with a connector of that name and kind; -1 where there is
/// none.
pub open spec fn first_match(v: Seq<Adapter>, name: Seq<char>, kind: Seq<char>) -> int
    decreases v.len(),
{
    if v.len() == 0 {
        -1
    } else if first_match(v.drop_last(), name, kind) >= 0 {
        first_match(v.drop_last(), name, kind)
    } else if adapter_matches(v.last(), name, kind) {
        v.len() - 1
    } else {
        -1
    }
}

/// Whether `f` is what an adapter says.
pub open spec fn facts_of(a: Adapter, f: CatalogFacts) -> bool {
    &&& f.adapter_name@ == a.name@
    &&& f.supports_periodic == a.supports_periodic
    &&& f.max_chunk == a.max_chunk
    &&& text::opt(f.protocol) == text::opt(a.protocol)
}

fn patterns_match(p: &Option<Patterns>, name: &str, lname: &str, prefix: bool) -> (r: bool)
    requires
        lname@ == text::lower(name@),
    ensures
        r == any_matches(*p, name@, prefix),
{
    match p {
        None => false,
        Some(q) => {
            let mut i: usize = 0;
            while i < q.name_patterns.len()
                invariant
                    i <= q.name_patterns@.len(),
                    lname@ == text::lower(name@),
                    *p == Some(*q),
                    forall|j: int|
                        0 <= j < i ==> !name_matches(
                            name@,
                            (#[trigger] q.name_patterns@[j])@,
                            prefix,
                        ),
                decreases q.name_patterns@.len() - i,
            {
                let lp = text::to_lower(q.name_patterns[i].as_str());
                let hit = if prefix {
                    text::begins_with(lname, lp.as_str())
                } else {
                    text::has_part(lname, lp.as_str())
                };
                if hit {
                    assert(name_matches(name@, q.name_patterns@[i as int]@, prefix));
                    assert(one_matches(q.name_patterns@, name@, prefix));
                    return true;
                }
                i += 1;
            }
            false
        },
    }
}

impl Catalog {
    /// What the catalog says of a connector, by its name and kind: the first
    /// adapter that matches counts.
    pub fn resolve(&self, name: &str, connector_type: &str) -> (r: Option<CatalogFacts>)
        ensures
            ({
                let at = first_match(self.adapters@, name@, connector_type@);
                if at < 0 {
                    r is None
                } else {
                    r matches Some(f) && facts_of(self.adapters@[at], f)
                }
            }),
    {
        let lname = text::to_lower(name);
        let ghost all = self.adapters@;
        let mut i: usize = 0;
        while i < self.adapters.len()
            invariant
                i <= self.adapters@.len(),
                all == self.adapters@,
                lname@ == text::lower(name@),
                first_match(all.take(i as int), name@, connector_type@) < 0,
            decreases self.adapters@.len() - i,
        {
            assert(all.take(i + 1).drop_last() =~= all.take(i as int));
            let a = &self.adapters[i];
            let hit = if text::same(connector_type, "ble") {
                patterns_match(&a.ble, name, lname.as_str(), false)
            } else if text::same(connector_type, "classic") {
                patterns_match(&a.classic, name, lname.as_str(), true)
            } else if text::same(connector_type, "usb") {
                patterns_match(&a.usb, name, lname.as_str(), false)
            } else if text::same(connector_type, "wifi") {
                patterns_match(&a.wifi, name, lname.as_str(), false)
            } else {
                false
            };
            assert(hit == adapter_matches(all[i as int], name@, connector_type@));
            if hit {
                proof {
                    lemma_first_stays(all, i + 1, name@, connector_type@);
                }
                let protocol = match &a.protocol {
                    Some(p) => Some(p.clone()),
                    None => None,
                };
                return Some(
                    CatalogFacts {
                        adapter_name: a.name.clone(),
                        supports_periodic: a.supports_periodic,
                        max_chunk: a.max_chunk,
                        protocol,
                    },
                );
            }
            i += 1;
        }
        assert(all.take(i as int) =~= all);
        None
    }
}

proof fn lemma_first_stays(v: Seq<Adapter>, n: int, name: Seq<char>, kind: Seq<char>)
    requires
        0 <= n <= v.len(),
        first_match(v.take(n), name, kind) >= 0,
    ensures
        first_match(v, name, kind) == first_match(v.take(n), name, kind),
    decreases v.len() - n,
{
    if n == v.len() {
        assert(v.take(n) =~= v);
    } else {
        assert(v.take(n + 1).drop_last() =~= v.take(n));
        lemma_first_stays(v, n + 1, name, kind);
    }
}

// ---- laws ----

/// An earlier adapter that matches is never passed over.
pub proof fn the_first_match_counts(v: Seq<Adapter>, name: Seq<char>, kind: Seq<char>, i: int)
    requires
        0 <= i < v.len(),
        adapter_matches(v[i], name, kind),
    ensures
        0 <= first_match(v, name, kind) <= i,
        adapter_matches(v[first_match(v, name, kind)], name, kind),
    decreases v.len(),
{
    lemma_first_matches(v, name, kind);
    if i < v.len() - 1 {
        the_first_match_counts(v.drop_last(), name, kind, i);
    }
}

proof fn lemma_first_matches(v: Seq<Adapter>, name: Seq<char>, kind: Seq<char>)
    ensures
        first_match(v, name, kind) < v.len(),
        first_match(v, name, kind) >= 0 ==> adapter_matches(
            v[first_match(v, name, kind)],
            name,
            kind,
        ),
    decreases v.len(),
{
    if v.len() > 0 {
        lemma_first_matches(v.drop_last(), name, kind);
    }
}

/// A connector of a kind that the catalog does not know has no facts.
pub proof fn other_kinds_are_unknown(v: Seq<Adapter>, name: Seq<char>, kind: Seq<char>)
    requires
        kind != "ble"@,
        kind != "classic"@,
        kind != "usb"@,
        kind != "wifi"@,
    ensures
        first_match(v, name, kind) < 0,
    decreases v.len(),
{
    if v.len() > 0 {
        other_kinds_are_unknown(v.drop_last(), name, kind);
    }
}

proof fn lemma_lower_joins(a: Seq<char>, b: Seq<char>)
    requires
        text::all_ascii(a),
        text::all_ascii(b),
    ensures
        text::lower(a + b) == text::lower(a) + text::lower(b),
        text::all_ascii(a + b),
{
    let s = a + b;
    assert forall|i: int| 0 <= i < s.len() implies (#[trigger] s[i] as u32) < 128 by {
        if i < a.len() {
            assert(s[i] == a[i]);
        } else {
            assert(s[i] == b[i - a.len()]);
        }
    }
    assert(text::lower(s) =~= text::lower(a) + text::lower(b));
}

/// A name matches a pattern that stands in it, wherever it stands; from the
/// beginning only where it stands first. What matches from the beginning matches
/// anywhere.
pub proof fn a_pattern_is_found_in_the_name(
    before: Seq<char>,
    pattern: Seq<char>,
    after: Seq<char>,
    name: Seq<char>,
)
    requires
        text::all_ascii(before),
        text::all_ascii(pattern),
        text::all_ascii(after),
    ensures
        name_matches(before + pattern + after, pattern, false),
        name_matches(pattern + after, pattern, true),
        name_matches(name, pattern, true) ==> name_matches(name, pattern, false),
        text::lower(name).len() < pattern.len() ==> !name_matches(name, pattern, false)
            && !name_matches(name, pattern, true),
{
    lemma_lower_joins(before, pattern);
    lemma_lower_joins(before + pattern, after);
    lemma_lower_joins(pattern, after);
    let l = text::lower(before + pattern + after);
    let p = text::lower(pattern);
    let b = text::lower(before).len() as int;
    assert(l.subrange(b, b + p.len()) =~= p);
    assert(text::holds_at(l, p, b));
    assert(text::lower(pattern + after).take(p.len() as int) =~= p);
    let n = text::lower(name);
    if name_matches(name, pattern, true) {
        assert(n.subrange(0, p.len() as int) =~= n.take(p.len() as int));
        assert(text::holds_at(n, p, 0));
    }
    assert(p.len() == pattern.len());
}

/// Each kind of connector has its own patterns: those of one kind never match a
/// connector of another, and only the names of classic ones match from their
/// beginning.
pub proof fn each_kind_has_its_own_patterns(a: Adapter, name: Seq<char>, i: int)
    ensures
        a.ble is None ==> !adapter_matches(a, name, "ble"@),
        a.classic is None ==> !adapter_matches(a, name, "classic"@),
        a.usb is None ==> !adapter_matches(a, name, "usb"@),
        a.wifi is None ==> !adapter_matches(a, name, "wifi"@),
        a.ble is Some && 0 <= i < a.ble->0.name_patterns@.len() && name_matches(
            name,
            a.ble->0.name_patterns@[i]@,
            false,
        ) ==> adapter_matches(a, name, "ble"@),
        a.classic is Some && 0 <= i < a.classic->0.name_patterns@.len() && name_matches(
            name,
            a.classic->0.name_patterns@[i]@,
            true,
        ) ==> adapter_matches(a, name, "classic"@),
        a.usb is Some && 0 <= i < a.usb->0.name_patterns@.len() && name_matches(
            name,
            a.usb->0.name_patterns@[i]@,
            false,
        ) ==> adapter_matches(a, name, "usb"@),
        a.wifi is Some && 0 <= i < a.wifi->0.name_patterns@.len() && name_matches(
            name,
            a.wifi->0.name_patterns@[i]@,
            false,
        ) ==> adapter_matches(a, name, "wifi"@),
        a.classic is Some && adapter_matches(a, name, "classic"@) ==> exists|j: int|
            0 <= j < a.classic->0.name_patterns@.len() && text::starts_with(
                text::lower(name),
                text::lower((#[trigger] a.classic->0.name_patterns@[j])@),
            ),
{
    reveal_strlit("ble");
    reveal_strlit("classic");
    reveal_strlit("usb");
    reveal_strlit("wifi");
    assert("ble"@.len() == 3 && "classic"@.len() == 7 && "usb"@.len() == 3 && "wifi"@.len() == 4);
    assert("ble"@[0] == 'b' && "usb"@[0] == 'u');
    if a.classic is Some && adapter_matches(a, name, "classic"@) {
        let v = a.classic->0.name_patterns@;
        let j = choose|j: int| 0 <= j < v.len() && name_matches(name, (#[trigger] v[j])@, true);
        assert(text::starts_with(text::lower(name), text::lower(v[j]@)));
    }
}

} // verus!
