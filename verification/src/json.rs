//! JSON through `serde_json`: text in, plain values out. A member or an element
//! that is itself JSON is handed on as text.
use crate::table;
use crate::text;
use vstd::prelude::*;

verus! {

/// The members of the object that `serde_json` reads from a text, each value
/// written again as JSON; nothing where the text is no JSON object.
pub uninterp spec fn object_of(json: Seq<char>) -> Option<Seq<(Seq<char>, Seq<char>)>>;

/// The elements of the array that `serde_json` reads from a text, each written
/// again as JSON; nothing where the text is no JSON array.
pub uninterp spec fn array_of(json: Seq<char>) -> Option<Seq<Seq<char>>>;

/// The string that `serde_json` reads from a text; nothing where it is none.
pub uninterp spec fn string_of(json: Seq<char>) -> Option<Seq<char>>;

/// The unsigned number that `serde_json` reads from a text; nothing where it is
/// none that fits 64 bits.
pub uninterp spec fn number_of(json: Seq<char>) -> Option<u64>;

/// The map from text to byte that `serde_json` reads from a text, or what it
/// says against it.
pub uninterp spec fn byte_map_of(json: Seq<char>) -> Result<Map<Seq<char>, u8>, Seq<char>>;

/// The list of strings that `serde_json` reads from a text, or what it says
/// against it.
pub uninterp spec fn string_list_of(json: Seq<char>) -> Result<Seq<Seq<char>>, Seq<char>>;

/// What reading a map came to, by view.
pub open spec fn map_result(r: Result<Vec<(String, u8)>, String>) -> Result<
    Map<Seq<char>, u8>,
    Seq<char>,
> {
    match r {
        Ok(v) => Ok(table::rows_map(v@)),
        Err(e) => Err(e@),
    }
}

/// The map of some rows, well read.
pub open spec fn whole_map(rows: Seq<(String, u8)>) -> Result<Map<Seq<char>, u8>, Seq<char>> {
    Ok(table::rows_map(rows))
}

/// What reading a list came to, by view.
pub open spec fn list_result(r: Result<Vec<String>, String>) -> Result<
    Seq<Seq<char>>,
    Seq<char>,
> {
    match r {
        Ok(v) => Ok(text::views(v@)),
        Err(e) => Err(e@),
    }
}

/// Rows of two texts by view.
pub open spec fn pair_views(v: Seq<(String, String)>) -> Seq<(Seq<char>, Seq<char>)> {
    Seq::new(v.len(), |i: int| (v[i].0@, v[i].1@))
}

/// Whether no key stands twice.
pub open spec fn keys_differ(v: Seq<(Seq<char>, Seq<char>)>) -> bool {
    forall|i: int, j: int| 0 <= i < j < v.len() ==> (#[trigger] v[i]).0 != (#[trigger] v[j]).0
}

/// The members of a JSON object by `serde_json::from_str` and `Value::as_object`,
/// each value by `Value::to_string`; the keys of an object differ.
#[verifier::external_body]
pub(crate) fn members(json: &str) -> (r: Option<Vec<(String, String)>>)
    ensures
        r is Some <==> object_of(json@) is Some,
        r matches Some(v) ==> object_of(json@) == Some(pair_views(v@)) && keys_differ(
            pair_views(v@),
        ),
{
    let value: serde_json::Value = serde_json::from_str(json).ok()?;
    Some(value.as_object()?.iter().map(|(k, v)| (k.clone(), v.to_string())).collect())
}

/// The elements of a JSON array by `serde_json::from_str` and `Value::as_array`,
/// each by `Value::to_string`.
#[verifier::external_body]
pub(crate) fn elements(json: &str) -> (r: Option<Vec<String>>)
    ensures
        r is Some <==> array_of(json@) is Some,
        r matches Some(v) ==> array_of(json@) == Some(text::views(v@)),
{
    let value: serde_json::Value = serde_json::from_str(json).ok()?;
    Some(value.as_array()?.iter().map(|v| v.to_string()).collect())
}

/// A JSON string by `serde_json::from_str` and `Value::as_str`.
#[verifier::external_body]
pub(crate) fn string(json: &str) -> (r: Option<String>)
    ensures
        r is Some <==> string_of(json@) is Some,
        r matches Some(s) ==> string_of(json@) == Some(s@),
{
    let value: serde_json::Value = serde_json::from_str(json).ok()?;
    value.as_str().map(String::from)
}

/// A JSON number by `serde_json::from_str` and `Value::as_u64`.
#[verifier::external_body]
pub(crate) fn number(json: &str) -> (r: Option<u64>)
    ensures
        r == number_of(json@),
{
    let value: serde_json::Value = serde_json::from_str(json).ok()?;
    value.as_u64()
}

/// A map from text to byte by `serde_json::from_str`; an error as its text.
#[verifier::external_body]
pub(crate) fn byte_map(json: &str) -> (r: Result<Vec<(String, u8)>, String>)
    ensures
        byte_map_of(json@) == map_result(r),
{
    let map: Result<std::collections::BTreeMap<String, u8>, _> = serde_json::from_str(json);
    map.map(|m| m.into_iter().collect()).map_err(|e: serde_json::Error| e.to_string())
}

/// A map from text to byte as JSON by `serde_json::to_string`, which succeeds on
/// such a map: reading the text back gives the map. How it is laid out is not
/// said.
#[verifier::external_body]
pub(crate) fn byte_map_text(rows: &Vec<(String, u8)>) -> (r: Option<String>)
    ensures
        r is Some,
        byte_map_of(r->0@) == whole_map(rows@),
{
    let map: std::collections::BTreeMap<&String, u8> = rows.iter().map(|(k, n)| (k, *n)).collect();
    serde_json::to_string(&map).ok()
}

/// A list of strings by `serde_json::from_str`; an error as its text.
#[verifier::external_body]
pub(crate) fn string_list(json: &str) -> (r: Result<Vec<String>, String>)
    ensures
        string_list_of(json@) == list_result(r),
{
    serde_json::from_str(json).map_err(|e: serde_json::Error| e.to_string())
}

/// The strings among the elements of a list.
pub open spec fn strings_among(v: Seq<Seq<char>>) -> Seq<Seq<char>>
    decreases v.len(),
{
    if v.len() == 0 {
        v
    } else {
        match string_of(v.last()) {
            Some(s) => strings_among(v.drop_last()).push(s),
            None => strings_among(v.drop_last()),
        }
    }
}

/// The strings among the elements of a list.
pub(crate) fn strings(e: &Vec<String>) -> (r: Vec<String>)
    ensures
        text::views(r@) == strings_among(text::views(e@)),
{
    let ghost all = text::views(e@);
    let mut out: Vec<String> = Vec::new();
    let mut i: usize = 0;
    assert(text::views(out@) =~= strings_among(all.take(0)));
    while i < e.len()
        invariant
            i <= e@.len(),
            all == text::views(e@),
            text::views(out@) == strings_among(all.take(i as int)),
        decreases e@.len() - i,
    {
        assert(all.take(i + 1).drop_last() =~= all.take(i as int));
        assert(all.take(i + 1).last() == e@[i as int]@);
        let ghost before = text::views(out@);
        if let Some(s) = string(e[i].as_str()) {
            let ghost sv = s@;
            out.push(s);
            assert(text::views(out@) =~= before.push(sv));
        }
        i += 1;
    }
    assert(all.take(i as int) =~= all);
    out
}

/// The value of a key in an object's members.
pub open spec fn member_of(v: Seq<(Seq<char>, Seq<char>)>, key: Seq<char>) -> Option<Seq<char>>
    decreases v.len(),
{
    if v.len() == 0 {
        None
    } else if v.last().0 == key {
        Some(v.last().1)
    } else {
        member_of(v.drop_last(), key)
    }
}

/// The value of a key in an object's members.
pub fn member<'a>(v: &'a Vec<(String, String)>, key: &str) -> (r: Option<&'a str>)
    ensures
        r is Some <==> member_of(pair_views(v@), key@) is Some,
        r matches Some(s) ==> member_of(pair_views(v@), key@) == Some(s@),
{
    let ghost all = pair_views(v@);
    let mut n: usize = v.len();
    assert(all.take(n as int) =~= all);
    while n > 0
        invariant
            n <= v@.len(),
            all == pair_views(v@),
            member_of(all, key@) == member_of(all.take(n as int), key@),
        decreases n,
    {
        assert(all.take(n as int).drop_last() =~= all.take(n - 1));
        n -= 1;
        if text::same(v[n].0.as_str(), key) {
            return Some(v[n].1.as_str());
        }
    }
    None
}

// ---- laws ----

/// A further element adds its text where it is a string, behind the others, and
/// nothing otherwise.
pub proof fn strings_are_kept_in_order(v: Seq<Seq<char>>, e: Seq<char>)
    ensures
        string_of(e) is Some ==> strings_among(v.push(e)) == strings_among(v).push(string_of(e)->0),
        string_of(e) is None ==> strings_among(v.push(e)) == strings_among(v),
        strings_among(Seq::empty()).len() == 0,
{
    assert(v.push(e).drop_last() =~= v);
}

/// A key has the value of its own member; the last one counts where a key
/// stands twice.
pub proof fn a_member_is_found_by_its_key(
    v: Seq<(Seq<char>, Seq<char>)>,
    key: Seq<char>,
    value: Seq<char>,
    other: Seq<char>,
)
    ensures
        member_of(v.push((key, value)), key) == Some(value),
        other != key ==> member_of(v.push((key, value)), other) == member_of(v, other),
        member_of(Seq::empty(), key) is None,
{
    assert(v.push((key, value)).drop_last() =~= v);
}

} // verus!
