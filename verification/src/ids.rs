//! Identifiers of subscriptions and messages: 128-bit UUID values.
use crate::text;
use vstd::prelude::*;

verus! {

/// The digit of `id` that stands `place` digits from the right, in lower case.
pub open spec fn low_digit(id: u128, place: nat) -> char {
    text::ascii_down(text::digit_char(((id / (pow16(place) as u128)) % 16) as nat))
}

/// Sixteen to the power of `n`.
pub open spec fn pow16(n: nat) -> nat
    decreases n,
{
    if n == 0 {
        1
    } else {
        16 * pow16((n - 1) as nat)
    }
}

/// The digits of `id` from place `hi` down to place `lo`.
pub open spec fn digits(id: u128, hi: int, lo: int) -> Seq<char> {
    Seq::new((hi - lo + 1) as nat, |i: int| low_digit(id, (hi - i) as nat))
}

/// The hyphenated form of an identifier: thirty-two lower-case digits in
/// groups of eight, four, four, four and twelve.
pub open spec fn hyphenated(id: u128) -> Seq<char> {
    digits(id, 31, 24) + seq!['-'] + digits(id, 23, 20) + seq!['-'] + digits(id, 19, 16) + seq!['-']
        + digits(id, 15, 12) + seq!['-'] + digits(id, 11, 0)
}

/// Whether `id` has the version digit and the variant bits of a random
/// identifier.
pub open spec fn is_random_id(id: u128) -> bool {
    id / 0x1000_0000_0000_0000_0000 % 16 == 4 && id / 0x4000_0000_0000_0000 % 4 == 2
}

/// What `Uuid::parse_str` reads from a text.
pub uninterp spec fn uuid_value(s: Seq<char>) -> Option<u128>;

/// The text of `uuid::Uuid` made from a 128-bit value: `to_string` gives the
/// hyphenated form in lower case.
#[verifier::external_body]
pub(crate) fn id_text(id: u128) -> (r: String)
    ensures
        r@ == hyphenated(id),
{
    uuid::Uuid::from_u128(id).to_string()
}

/// The identifier that a text writes, by `Uuid::parse_str`; which texts are
/// accepted is only named here, except that the hyphenated form reads back.
#[verifier::external_body]
fn parse_uuid(s: &str) -> (r: Option<u128>)
    ensures
        r == uuid_value(s@),
        forall|id: u128| s@ == #[trigger] hyphenated(id) ==> r == Some(id),
{
    uuid::Uuid::parse_str(s).ok().map(|u| u.as_u128())
}

/// A fresh random identifier from `Uuid::new_v4`: the version digit is 4 and
/// the variant bits are `10`; the other bits are random.
#[verifier::external_body]
pub(crate) fn fresh_id() -> (r: u128)
    ensures
        is_random_id(r),
{
    uuid::Uuid::new_v4().as_u128()
}

/// Reads the identifier that a host hands over as text; a missing text and a
/// text that is no identifier give nothing. The text of an identifier reads
/// back.
pub fn parse_uuid_arg(s: Option<&str>) -> (r: Option<u128>)
    ensures
        r == (match s {
            Some(t) => uuid_value(t@),
            None => None,
        }),
        s matches Some(t) ==> forall|id: u128| t@ == #[trigger] hyphenated(id) ==> r == Some(id),
{
    match s {
        Some(t) => parse_uuid(t),
        None => None,
    }
}

} // verus!
