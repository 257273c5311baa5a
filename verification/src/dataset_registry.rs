//! Which dataset belongs to a vehicle: by its identification number and the
//! addressing of its bus.
use crate::addressing::Addressing;
use crate::text;
use vstd::prelude::*;

verus! {

/// All datasets.
#[derive(Debug, Clone)]
pub struct SessionConfig {
    pub version: u32,
    pub datasets: Vec<DatasetCfg>,
}

/// One dataset.
#[derive(Debug, Clone)]
pub struct DatasetCfg {
    pub id: String,
    /// Which vehicles it is for.
    pub match_cfg: Option<MatchCfg>,
    /// How its modules identify themselves, where that is special.
    pub identify: Option<IdentifyCfg>,
    pub modules: Vec<ModuleCfg>,
    /// How trouble codes are read.
    pub dtc_read: Option<String>,
    pub rules: Vec<RuleCfg>,
    /// Stream profiles, as JSON.
    pub stream_profiles: Option<String>,
}

/// Which vehicles a dataset is for.
#[derive(Debug, Clone)]
pub struct MatchCfg {
    /// Manufacturer codes of three characters, or two and a space for a family.
    pub wmis: Vec<String>,
    /// "11bit" or "29bit"; any where nothing is said.
    pub addressing: Option<String>,
    /// Places of the number, counted from one, with the characters that are
    /// allowed there; no place stands twice.
    pub positions: Vec<(String, Vec<String>)>,
}

/// A request by which modules identify themselves, and how the answer begins.
#[derive(Debug, Clone)]
pub struct IdentifyCfg {
    pub send: String,
    pub expect: String,
}

/// One module: a flat id, or the parts of a 29-bit route.
#[derive(Debug, Clone)]
pub struct ModuleCfg {
    pub name: String,
    pub id: Option<String>,
    pub priority: Option<String>,
    pub format: Option<String>,
    pub target: Option<String>,
    pub source: Option<String>,
    /// "ms" marks a module of the slower bus.
    pub bus: Option<String>,
}

/// A rule that gives vehicles capabilities.
#[derive(Debug, Clone)]
pub struct RuleCfg {
    pub wmi: Vec<String>,
    pub positions: Vec<(String, Vec<String>)>,
    pub capabilities: Vec<(String, String)>,
}

/// The header by which a module is asked.
pub open spec fn header_of(m: ModuleCfg) -> Option<Seq<char>> {
    match m.id {
        Some(id) => Some(id@),
        None => if m.priority is Some && m.format is Some && m.target is Some && m.source is Some {
            Some(m.priority->0@ + m.format->0@ + m.target->0@ + m.source->0@)
        } else {
            None
        },
    }
}

impl ModuleCfg {
    /// The header by which a module is asked: its flat id, or the parts of its
    /// route put together.
    pub fn request_header(&self) -> (r: Option<String>)
        ensures
            text::opt(r) == header_of(*self),
    {
        if let Some(id) = &self.id {
            return Some(id.clone());
        }
        match (&self.priority, &self.format, &self.target, &self.source) {
            (Some(p), Some(f), Some(t), Some(s)) => {
                let mut out = p.clone();
                out.append(f.as_str());
                out.append(t.as_str());
                out.append(s.as_str());
                Some(out)
            },
            _ => None,
        }
    }
}

// ---- matching ----

/// The name of an addressing in datasets.
pub open spec fn bus_name(a: Addressing) -> Seq<char> {
    match a {
        Addressing::Can11 => "11bit"@,
        Addressing::Can29 { .. } => "29bit"@,
    }
}

/// Whether some allowed text is the character `c`, ASCII case aside.
pub open spec fn allows(allowed: Seq<Seq<char>>, c: char) -> bool {
    exists|i: int|
        0 <= i < allowed.len() && text::ascii_upper(#[trigger] allowed[i]) == text::ascii_upper(
            seq![c],
        )
}

/// Whether a place holds an allowed character. A place that is no number from
/// one on, or lies behind the end, holds none.
pub open spec fn place_holds(chars: Seq<char>, place: Seq<char>, allowed: Seq<Seq<char>>) -> bool {
    match text::parse_decimal(place) {
        Some(n) => 1 <= n <= chars.len() && allows(allowed, chars[n - 1]),
        None => false,
    }
}

/// Whether every constraint of a match holds.
pub open spec fn places_hold(chars: Seq<char>, m: MatchCfg) -> bool {
    forall|i: int|
        0 <= i < m.positions@.len() ==> place_holds(
            chars,
            (#[trigger] m.positions@[i]).0@,
            text::views(m.positions@[i].1@),
        )
}

/// How many characters make up the manufacturer code, the first three bytes of
/// a number; none where a character lies across the second or the third byte's
/// end, or there are fewer bytes.
pub open spec fn code_chars(chars: Seq<char>) -> Option<int> {
    if chars.len() >= 3 && text::width(chars[0]) == 1 && text::width(chars[1]) == 1 && text::width(
        chars[2],
    ) == 1 {
        Some(3)
    } else if chars.len() >= 2 && text::width(chars[0]) == 2 && text::width(chars[1]) == 1 {
        Some(2)
    } else {
        None
    }
}

/// Whether a match names the manufacturer code itself.
pub open spec fn exact_code(chars: Seq<char>, m: MatchCfg) -> bool {
    text::contains_text(m.wmis@, chars.take(code_chars(chars)->0))
}

/// Whether a match names the family of the manufacturer code: its first two
/// bytes and a space.
pub open spec fn family_code(chars: Seq<char>, m: MatchCfg) -> bool {
    text::contains_text(m.wmis@, chars.take(code_chars(chars)->0 - 1) + " "@)
}

/// Whether a dataset is for a vehicle with this number on this bus.
pub open spec fn is_candidate(d: DatasetCfg, chars: Seq<char>, bus: Seq<char>) -> bool {
    d.match_cfg matches Some(m) && (exact_code(chars, m) || family_code(chars, m)) && (
    m.addressing matches Some(a) ==> a@ == bus) && places_hold(chars, m)
}

/// Whether dataset `a` is less specific than `b`: fewer constraints on places,
/// or as many and only the family code.
pub open spec fn less_specific(a: DatasetCfg, b: DatasetCfg, chars: Seq<char>) -> bool {
    let (m, n) = (a.match_cfg->0, b.match_cfg->0);
    m.positions@.len() < n.positions@.len() || (m.positions@.len() == n.positions@.len()
        && !exact_code(chars, m) && exact_code(chars, n))
}

/// The most specific candidate, the last of several; -1 where there is none.
pub open spec fn best(v: Seq<DatasetCfg>, chars: Seq<char>, bus: Seq<char>) -> int
    decreases v.len(),
{
    if v.len() == 0 {
        -1
    } else {
        let b = best(v.drop_last(), chars, bus);
        if !is_candidate(v.last(), chars, bus) {
            b
        } else if b >= 0 && less_specific(v.last(), v[b], chars) {
            b
        } else {
            v.len() - 1
        }
    }
}

fn allows_char(allowed: &Vec<String>, c: char) -> (r: bool)
    ensures
        r == allows(text::views(allowed@), c),
{
    let mut one = String::new();
    one.push(c);
    assert(one@ =~= seq![c]);
    let up = text::ascii_up_text(one.as_str());
    let ghost all = text::views(allowed@);
    let mut i: usize = 0;
    while i < allowed.len()
        invariant
            i <= allowed@.len(),
            all == text::views(allowed@),
            up@ == text::ascii_upper(seq![c]),
            forall|j: int| 0 <= j < i ==> text::ascii_upper(#[trigger] all[j]) != up@,
        decreases allowed@.len() - i,
    {
        assert(all[i as int] == allowed@[i as int]@);
        let mine = text::ascii_up_text(allowed[i].as_str());
        if text::same(mine.as_str(), up.as_str()) {
            assert(text::ascii_upper(all[i as int]) == up@);
            return true;
        }
        i += 1;
    }
    false
}

fn check_places(chars: &Vec<char>, m: &MatchCfg) -> (r: bool)
    ensures
        r == places_hold(chars@, *m),
{
    let mut i: usize = 0;
    while i < m.positions.len()
        invariant
            i <= m.positions@.len(),
            forall|j: int|
                0 <= j < i ==> place_holds(
                    chars@,
                    (#[trigger] m.positions@[j]).0@,
                    text::views(m.positions@[j].1@),
                ),
        decreases m.positions@.len() - i,
    {
        let ghost here = m.positions@[i as int];
        let ok = match text::parse_decimal_text(m.positions[i].0.as_str(), chars.len() as u64) {
            Some(n) => n >= 1 && allows_char(&m.positions[i].1, chars[n as usize - 1]),
            None => false,
        };
        if !ok {
            assert(!place_holds(chars@, here.0@, text::views(here.1@)));
            return false;
        }
        i += 1;
    }
    true
}

/// The manufacturer code and its family, cut from the first bytes of a number.
fn cut_code(chars: &Vec<char>) -> (r: Option<(String, String)>)
    ensures
        r is Some <==> code_chars(chars@) is Some,
        r matches Some(c) ==> c.0@ == chars@.take(code_chars(chars@)->0) && c.1@ == chars@.take(
            code_chars(chars@)->0 - 1,
        ) + " "@,
{
    let n: usize = if chars.len() >= 3 && text::char_width(chars[0]) == 1 && text::char_width(
        chars[1],
    ) == 1 && text::char_width(chars[2]) == 1 {
        3
    } else if chars.len() >= 2 && text::char_width(chars[0]) == 2 && text::char_width(chars[1])
        == 1 {
        2
    } else {
        return None;
    };
    let code = text::substring(chars.as_slice(), 0, n);
    assert(code@ =~= chars@.take(n as int));
    let mut family = text::substring(chars.as_slice(), 0, n - 1);
    family.append(" ");
    assert(family@ =~= chars@.take(n - 1) + " "@);
    Some((code, family))
}

/// Whether a text takes fewer than three bytes.
fn is_short(s: &str) -> (r: bool)
    ensures
        r == (text::utf8_len(s@) < 3),
{
    let v = text::chars_of(s);
    proof {
        text::lemma_utf8_len(v@);
        reveal_with_fuel(text::utf8_len, 3);
    }
    if v.len() == 0 {
        true
    } else if v.len() == 1 {
        text::char_width(v[0]) < 3
    } else if v.len() == 2 {
        text::char_width(v[0]) + text::char_width(v[1]) < 3
    } else {
        false
    }
}

impl SessionConfig {
    /// The dataset of a vehicle: its manufacturer code or the family of that
    /// code is named, the addressing is the declared one, and every place holds.
    /// The most specific dataset wins: more places, then the code itself. A
    /// number of fewer than three bytes has none; of a longer one, the first two
    /// and the first three bytes in upper case are whole characters.
    pub fn resolve(&self, vin: &str, addressing: &Addressing) -> (r: Option<&DatasetCfg>)
        requires
            text::utf8_len(vin@) < 3 || code_chars(text::upper(vin@)) is Some,
        ensures
            ({
                let chars = text::upper(vin@);
                let at = best(self.datasets@, chars, bus_name(*addressing));
                if text::utf8_len(vin@) < 3 || at < 0 {
                    r is None
                } else {
                    r matches Some(d) && *d == self.datasets@[at]
                }
            }),
    {
        if is_short(vin) {
            return None;
        }
        let upper = text::to_upper(vin);
        let chars = text::chars_of(upper.as_str());
        let (wmi, family) = match cut_code(&chars) {
            Some(c) => c,
            None => {
                return None;
            },
        };
        let bus = match addressing {
            Addressing::Can11 => "11bit",
            Addressing::Can29 { .. } => "29bit",
        };
        let ghost all = self.datasets@;
        let mut found: Option<(usize, usize, bool)> = None;
        let mut i: usize = 0;
        while i < self.datasets.len()
            invariant
                i <= self.datasets@.len(),
                all == self.datasets@,
                chars@ == text::upper(vin@),
                bus@ == bus_name(*addressing),
                wmi@ == chars@.take(code_chars(chars@)->0),
                family@ == chars@.take(code_chars(chars@)->0 - 1) + " "@,
                match found {
                    None => best(all.take(i as int), chars@, bus@) == -1,
                    Some((at, places, exact)) => at < i && best(all.take(i as int), chars@, bus@)
                        == at && all[at as int].match_cfg is Some && places
                        == all[at as int].match_cfg->0.positions@.len() && exact == exact_code(
                        chars@,
                        all[at as int].match_cfg->0,
                    ),
                },
            decreases self.datasets@.len() - i,
        {
            assert(all.take(i + 1).drop_last() =~= all.take(i as int));
            let d = &self.datasets[i];
            assert(all.take(i + 1).last() == *d);
            if let Some(m) = &d.match_cfg {
                let exact = text::has_text(&m.wmis, wmi.as_str());
                let family_hit = text::has_text(&m.wmis, family.as_str());
                let bus_ok = match &m.addressing {
                    Some(a) => text::same(a.as_str(), bus),
                    None => true,
                };
                let is_one = (exact || family_hit) && bus_ok && check_places(&chars, m);
                assert(is_one == is_candidate(*d, chars@, bus@));
                if is_one {
                    let places: usize = m.positions.len();
                    let keep = match &found {
                        Some((_, p, e)) => places < *p || (places == *p && !exact && *e),
                        None => false,
                    };
                    if !keep {
                        found = Some((i, places, exact));
                    }
                }
            } else {
                assert(!is_candidate(*d, chars@, bus@));
            }
            i += 1;
        }
        assert(all.take(i as int) =~= all);
        match found {
            Some((at, _, _)) => Some(&self.datasets[at]),
            None => None,
        }
    }

    /// The dataset of a vehicle, whatever its number reads; nothing, not even
    /// the absence of a dataset, where no manufacturer code can be cut from the
    /// number.
    pub fn try_resolve(&self, vin: &str, addressing: &Addressing) -> (r: Option<
        Option<&DatasetCfg>,
    >)
        ensures
            ({
                let chars = text::upper(vin@);
                let at = best(self.datasets@, chars, bus_name(*addressing));
                if text::utf8_len(vin@) < 3 {
                    r == Some(None::<&DatasetCfg>)
                } else if code_chars(chars) is None {
                    r is None
                } else if at < 0 {
                    r == Some(None::<&DatasetCfg>)
                } else {
                    r == Some(Some(&self.datasets@[at]))
                }
            }),
    {
        let upper = text::to_upper(vin);
        let chars = text::chars_of(upper.as_str());
        if !is_short(vin) && cut_code(&chars).is_none() {
            return None;
        }
        Some(self.resolve(vin, addressing))
    }
}

// ---- laws ----

/// A vehicle has a dataset exactly where one is for it, and what it gets is for
/// it: of all that are, none is more specific, and none behind it is as
/// specific.
pub proof fn the_most_specific_wins(v: Seq<DatasetCfg>, chars: Seq<char>, bus: Seq<char>, i: int)
    requires
        0 <= i < v.len(),
        is_candidate(v[i], chars, bus),
    ensures
        ({
            let at = best(v, chars, bus);
            &&& 0 <= at < v.len()
            &&& is_candidate(v[at], chars, bus)
            &&& !less_specific(v[at], v[i], chars)
            &&& at < i ==> less_specific(v[i], v[at], chars)
        }),
    decreases v.len(),
{
    lemma_best_is_one(v, chars, bus);
    let head = v.drop_last();
    lemma_best_is_one(head, chars, bus);
    if i < head.len() {
        the_most_specific_wins(head, chars, bus, i);
        assert(v[i] == head[i]);
    }
}

proof fn lemma_best_is_one(v: Seq<DatasetCfg>, chars: Seq<char>, bus: Seq<char>)
    ensures
        -1 <= best(v, chars, bus) < v.len(),
        best(v, chars, bus) >= 0 ==> is_candidate(v[best(v, chars, bus)], chars, bus),
    decreases v.len(),
{
    if v.len() > 0 {
        lemma_best_is_one(v.drop_last(), chars, bus);
    }
}

/// A dataset with a place that is no number is for no vehicle: a constraint
/// that cannot be read never attaches it.
pub proof fn unreadable_places_never_attach(
    d: DatasetCfg,
    chars: Seq<char>,
    bus: Seq<char>,
    i: int,
)
    requires
        d.match_cfg is Some,
        0 <= i < d.match_cfg->0.positions@.len(),
        text::parse_decimal(d.match_cfg->0.positions@[i].0@) is None,
    ensures
        !is_candidate(d, chars, bus),
{
    let m = d.match_cfg->0;
    assert(!place_holds(chars, m.positions@[i].0@, text::views(m.positions@[i].1@)));
}

/// A number in ASCII can always be resolved.
pub proof fn ascii_numbers_are_cut(vin: Seq<char>)
    requires
        text::all_ascii(vin),
    ensures
        text::utf8_len(vin) < 3 <==> vin.len() < 3,
        vin.len() >= 3 ==> code_chars(text::upper(vin)) == Some(3int),
{
    text::lemma_utf8_len(vin);
    reveal_with_fuel(text::utf8_len, 3);
}

/// A module is asked by its flat id where it has one, else by priority, format,
/// target and source in that order; a route with a part missing has no header.
pub proof fn how_a_module_is_asked(m: ModuleCfg)
    ensures
        m.id is Some ==> header_of(m) == Some(m.id->0@),
        m.id is None && (m.priority is None || m.format is None || m.target is None || m.source
            is None) ==> header_of(m) is None,
        m.id is None && m.priority is Some && m.format is Some && m.target is Some && m.source
            is Some ==> header_of(m) is Some && ({
            let h = header_of(m)->0;
            let p = m.priority->0@.len() as int;
            let f = p + m.format->0@.len();
            let t = f + m.target->0@.len();
            &&& h.take(p) == m.priority->0@
            &&& h.subrange(p, f) == m.format->0@
            &&& h.subrange(f, t) == m.target->0@
            &&& h.skip(t) == m.source->0@
        }),
{
    if m.id is None && m.priority is Some && m.format is Some && m.target is Some && m.source
        is Some {
        let h = header_of(m)->0;
        let p = m.priority->0@.len() as int;
        let f = p + m.format->0@.len();
        let t = f + m.target->0@.len();
        assert(h.take(p) =~= m.priority->0@);
        assert(h.subrange(p, f) =~= m.format->0@);
        assert(h.subrange(f, t) =~= m.target->0@);
        assert(h.skip(t) =~= m.source->0@);
    }
}

/// A place is counted from one and asks for one of its characters, whichever
/// case either is in; a place behind the end holds nothing.
pub proof fn places_are_counted_from_one(chars: Seq<char>, n: nat, allowed: Seq<Seq<char>>, i: int)
    requires
        0 <= i < allowed.len(),
    ensures
        1 <= n <= chars.len() && allowed[i] == seq![chars[n - 1]] ==> place_holds(
            chars,
            text::decimal(n),
            allowed,
        ),
        n == 0 || n > chars.len() ==> !place_holds(chars, text::decimal(n), allowed),
        1 <= n <= chars.len() ==> (place_holds(chars, text::decimal(n), allowed) <==> allows(
            allowed,
            chars[n - 1],
        )),
{
    text::decimal_reads_back(n);
    if 1 <= n <= chars.len() && allowed[i] == seq![chars[n - 1]] {
        assert(text::ascii_upper(allowed[i]) == text::ascii_upper(seq![chars[n - 1]]));
    }
}

/// A character is allowed where it is listed, in either case, and only by a
/// text of one character.
pub proof fn which_characters_are_allowed(allowed: Seq<Seq<char>>, c: char, i: int)
    ensures
        0 <= i < allowed.len() && (allowed[i] == seq![text::ascii_up(c)] || allowed[i]
            == seq![text::ascii_down(c)]) ==> allows(allowed, c),
        allows(allowed, c) ==> exists|j: int|
            0 <= j < allowed.len() && (#[trigger] allowed[j]).len() == 1 && text::ascii_up(
                allowed[j][0],
            ) == text::ascii_up(c),
        allowed.len() == 0 ==> !allows(allowed, c),
{
    let one = seq![c];
    if 0 <= i < allowed.len() && (allowed[i] == seq![text::ascii_up(c)] || allowed[i]
        == seq![text::ascii_down(c)]) {
        assert(text::ascii_upper(allowed[i]) =~= text::ascii_upper(one));
    }
    if allows(allowed, c) {
        let j = choose|j: int|
            0 <= j < allowed.len() && text::ascii_upper(#[trigger] allowed[j]) == text::ascii_upper(
                one,
            );
        assert(text::ascii_upper(one).len() == 1);
        assert(text::ascii_upper(allowed[j]).len() == allowed[j].len());
        assert(text::ascii_upper(allowed[j])[0] == text::ascii_up(allowed[j][0]));
        assert(text::ascii_upper(one)[0] == text::ascii_up(c));
    }
}

/// A dataset is for a vehicle where it names the first three characters of the
/// vehicle's number, or the first two as a family; where it names a bus, that
/// bus; and where every place holds. One that says nothing of vehicles is for
/// none.
pub proof fn which_vehicles_a_dataset_is_for(d: DatasetCfg, chars: Seq<char>, bus: Seq<char>)
    requires
        text::all_ascii(chars),
        chars.len() >= 3,
    ensures
        d.match_cfg is None ==> !is_candidate(d, chars, bus),
        d.match_cfg is Some ==> ({
            let m = d.match_cfg->0;
            is_candidate(d, chars, bus) <==> (text::contains_text(
                m.wmis@,
                seq![chars[0], chars[1], chars[2]],
            ) || text::contains_text(m.wmis@, seq![chars[0], chars[1], ' '])) && (m.addressing
                is None || m.addressing->0@ == bus) && (forall|i: int|
                0 <= i < m.positions@.len() ==> place_holds(
                    chars,
                    (#[trigger] m.positions@[i]).0@,
                    text::views(m.positions@[i].1@),
                ))
        }),
{
    reveal_strlit(" ");
    assert(chars[0] as u32 <= 127 && chars[1] as u32 <= 127 && chars[2] as u32 <= 127);
    assert(code_chars(chars) == Some(3int));
    assert(chars.take(3) =~= seq![chars[0], chars[1], chars[2]]);
    assert(chars.take(2) + " "@ =~= seq![chars[0], chars[1], ' ']);
}

/// More places make a dataset more specific, whatever its codes; of two with as
/// many places the one that names the code itself is. No dataset is more
/// specific than itself, nor two than each other.
pub proof fn what_is_more_specific(a: DatasetCfg, b: DatasetCfg, chars: Seq<char>)
    requires
        a.match_cfg is Some,
        b.match_cfg is Some,
    ensures
        ({
            let m = a.match_cfg->0;
            let n = b.match_cfg->0;
            &&& m.positions@.len() < n.positions@.len() ==> less_specific(a, b, chars)
            &&& m.positions@.len() > n.positions@.len() ==> !less_specific(a, b, chars)
            &&& m.positions@.len() == n.positions@.len() ==> (less_specific(a, b, chars)
                <==> exact_code(chars, n) && !exact_code(chars, m))
            &&& !less_specific(a, a, chars)
            &&& !(less_specific(a, b, chars) && less_specific(b, a, chars))
        }),
{
}

/// Datasets call a bus by the width of its ids.
pub proof fn buses_are_named_by_width(a: Addressing)
    ensures
        a is Can11 ==> bus_name(a) == "11bit"@,
        a is Can29 ==> bus_name(a) == "29bit"@,
        bus_name(a) == "11bit"@ ==> a is Can11,
{
    reveal_strlit("11bit");
    reveal_strlit("29bit");
    assert("11bit"@[0] == '1' && "29bit"@[0] == '2');
}

/// The manufacturer code is the first three bytes of the number, cut so that
/// the first two are whole characters too; there is one exactly where such a cut
/// exists.
pub proof fn the_code_is_three_bytes(chars: Seq<char>, n: int)
    requires
        1 <= n <= chars.len(),
    ensures
        text::utf8_len(chars.take(n)) == 3 && text::utf8_len(chars.take(n - 1)) == 2 <==> code_chars(
            chars,
        ) == Some(n),
{
    reveal_with_fuel(text::utf8_len, 5);
    assert(chars.take(0) =~= Seq::<char>::empty());
    assert(chars.take(1).drop_last() =~= chars.take(0));
    if n >= 2 {
        assert(chars.take(2).drop_last() =~= chars.take(1));
    }
    if n >= 3 {
        assert(chars.take(3).drop_last() =~= chars.take(2));
    }
    if n >= 4 {
        text::lemma_utf8_len(chars.take(n - 1));
        text::lemma_utf8_len(chars.take(n));
        assert(chars.take(n).len() >= 4);
        assert(chars.take(n - 1).len() >= 3);
    }
}

} // verus!
