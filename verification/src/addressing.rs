//! CAN addressing: 11-bit and 29-bit (ISO 15765-4).
//!
//! - [`Addressing`]: the protocol negotiated for a session.
//! - [`Controller`]: a uniform identity of a control unit.
//! - [`Bus`]: bundles the addressing and owns every conversion between a
//!   controller and the headers on the wire.
//!
//! Once [`Bus::read`] has taken the header off, an 11-bit and a 29-bit message
//! carry the same bytes.
use crate::text;
use vstd::prelude::*;

verus! {

/// CAN addressing negotiated for a session. `tester` is the address of the
/// test equipment, learned from the wire.
#[derive(Clone, Copy, Debug, PartialEq, Eq, Structural)]
pub enum Addressing {
    /// Functional `7DF`, request `7E0-7E7`, response `7E8-7EF`.
    Can11,
    /// Functional `18DB33F1`, request `18DAxxF1`, response `18DAF1xx`.
    Can29 { tester: u8 },
}

/// The views of a sequence of string slices.
pub open spec fn token_views(v: Seq<&str>) -> Seq<Seq<char>> {
    Seq::new(v.len(), |i: int| v[i]@)
}

/// Whether the first four tokens each write a byte in hexadecimal digits.
pub open spec fn has_four_bytes(t: Seq<Seq<char>>) -> bool {
    t.len() >= 4 && text::bare_hex(t[0], 255) is Some && text::bare_hex(t[1], 255) is Some
        && text::bare_hex(t[2], 255) is Some && text::bare_hex(t[3], 255) is Some
}

/// The byte that the token at `i` writes.
pub open spec fn byte_at(t: Seq<Seq<char>>, i: int) -> u8 {
    text::bare_hex(t[i], 255)->0 as u8
}

/// The addressing of a protocol number.
pub open spec fn addressing_of_protocol(n: Seq<char>) -> Option<Addressing> {
    let t = text::trim(n);
    if t == "6"@ || t == "8"@ {
        Some(Addressing::Can11)
    } else if t == "7"@ || t == "9"@ {
        Some(Addressing::Can29 { tester: 0xF1 })
    } else {
        None
    }
}

/// The addressing that the leading tokens of a response show.
pub open spec fn sniffed(t: Seq<Seq<char>>) -> Option<Addressing> {
    if t.len() == 0 {
        None
    } else if t[0].len() == 3 && t[0][0] == '7' && text::all_hex(t[0]) {
        Some(Addressing::Can11)
    } else if has_four_bytes(t) && byte_at(t, 1) == 0xDA {
        Some(Addressing::Can29 { tester: byte_at(t, 2) })
    } else {
        None
    }
}

impl Addressing {
    /// Maps a protocol number (`ATDPN`) to an addressing. Protocols that are
    /// not CAN, and anything unknown, give nothing. The tester address starts
    /// at the conventional `F1`.
    pub fn from_atdpn(n: &str) -> (r: Option<Addressing>)
        ensures
            r == addressing_of_protocol(n@),
    {
        let t = text::trim_text(n, text::Blank::White);
        let t = t.as_str();
        if text::same(t, "6") || text::same(t, "8") {
            Some(Addressing::Can11)
        } else if text::same(t, "7") || text::same(t, "9") {
            Some(Addressing::Can29 { tester: 0xF1 })
        } else {
            None
        }
    }

    /// Detects the addressing from the leading tokens of a response: a
    /// three-digit `7xx` is 11-bit; four bytes whose second is `DA` are a
    /// 29-bit physical response, whose third byte is the tester.
    pub fn sniff(tokens: &[&str]) -> (r: Option<Addressing>)
        ensures
            r == sniffed(token_views(tokens@)),
    {
        let ghost t = token_views(tokens@);
        if tokens.len() == 0 {
            return None;
        }
        let first = text::chars_of(tokens[0]);
        assert(first@ == t[0]);
        if first.len() == 3 && first[0] == '7' && text::is_all_hex(tokens[0]) {
            return Some(Addressing::Can11);
        }
        if let Some(b) = four_bytes(tokens) {
            if b.1 == 0xDA {
                return Some(Addressing::Can29 { tester: b.2 });
            }
        }
        None
    }

    /// The protocol for people.
    pub open spec fn spec_display(self) -> Seq<char> {
        match self {
            Addressing::Can11 => "ISO 15765-4 CAN 11-bit (500k)"@,
            Addressing::Can29 { .. } => "ISO 15765-4 CAN 29-bit (500k)"@,
        }
    }

    /// The protocol for people.
    pub fn display(&self) -> (r: String)
        ensures
            r@ == self.spec_display(),
    {
        match self {
            Addressing::Can11 => "ISO 15765-4 CAN 11-bit (500k)".to_owned(),
            Addressing::Can29 { .. } => "ISO 15765-4 CAN 29-bit (500k)".to_owned(),
        }
    }
}

/// The bytes that the first four tokens write.
fn four_bytes(tokens: &[&str]) -> (r: Option<(u8, u8, u8, u8)>)
    ensures
        r is Some <==> has_four_bytes(token_views(tokens@)),
        r matches Some(b) ==> ({
            let t = token_views(tokens@);
            b.0 == byte_at(t, 0) && b.1 == byte_at(t, 1) && b.2 == byte_at(t, 2) && b.3 == byte_at(
                t,
                3,
            )
        }),
{
    let ghost t = token_views(tokens@);
    if tokens.len() < 4 {
        return None;
    }
    assert(t[0] == tokens@[0]@ && t[1] == tokens@[1]@ && t[2] == tokens@[2]@ && t[3]
        == tokens@[3]@);
    match (
        text::bare_hex_text(tokens[0], 255),
        text::bare_hex_text(tokens[1], 255),
        text::bare_hex_text(tokens[2], 255),
        text::bare_hex_text(tokens[3], 255),
    ) {
        (Some(a), Some(b), Some(c), Some(d)) => Some((a as u8, b as u8, c as u8, d as u8)),
        _ => None,
    }
}

/// The identity of a control unit within a protocol.
/// - 29-bit: the diagnostic address byte (`18DAF110` is `10`).
/// - 11-bit: the full request id (`7E8` is `7E0`; low-range `654` is `254`).
#[derive(Clone, Copy, Debug, PartialEq, Eq, Hash, PartialOrd, Ord, Structural)]
pub struct Controller {
    pub id: u16,
}

impl Controller {
    pub fn new(id: u16) -> (r: Self)
        ensures
            r.id == id,
    {
        Controller { id }
    }

    /// Stable key for maps and messages (`"10"`, `"7E0"`, `"254"`).
    pub fn key(&self) -> (r: String)
        ensures
            r@ == text::hex_padded(self.id as nat, 2),
    {
        text::hex_text(self.id as u32, 2)
    }
}

/// A session's addressing.
#[derive(Clone, Copy, Debug)]
pub struct Bus {
    pub addressing: Addressing,
}

/// The request id that an 11-bit response id answers: the standard block and
/// the wider diagnostic range answer at request + 8, the low-range body block
/// at request + 0x400; request ids of the standard block stand for themselves.
pub open spec fn attributed(id: nat) -> Option<nat> {
    if 0x7E8 <= id <= 0x7EF {
        Some((id - 8) as nat)
    } else if 0x7E0 <= id <= 0x7E7 {
        Some(id)
    } else if 0x708 <= id <= 0x7DF {
        Some((id - 8) as nat)
    } else if 0x641 <= id <= 0x65F {
        Some((id - 0x400) as nat)
    } else {
        None
    }
}

/// The controller that a response header names and the tokens it takes.
pub open spec fn header_read(a: Addressing, t: Seq<Seq<char>>) -> Option<(Controller, usize)> {
    match a {
        Addressing::Can11 => if t.len() == 0 || t[0].len() != 3 || !text::all_hex(t[0]) {
            None
        } else {
            match attributed(text::hex_number(t[0])) {
                Some(id) => Some((Controller { id: id as u16 }, 1usize)),
                None => None,
            }
        },
        Addressing::Can29 { tester } => if has_four_bytes(t) && byte_at(t, 1) == 0xDA && byte_at(
            t,
            2,
        ) == tester {
            Some((Controller { id: byte_at(t, 3) as u16 }, 4usize))
        } else {
            None
        },
    }
}

/// The functional request header.
pub open spec fn functional_of(a: Addressing) -> Seq<char> {
    match a {
        Addressing::Can11 => "7DF"@,
        Addressing::Can29 { tester } => "18DB33"@ + text::hex_padded(tester as nat, 2),
    }
}

/// The physical request header of a controller.
pub open spec fn request_of(a: Addressing, c: Controller) -> Seq<char> {
    match a {
        Addressing::Can11 => text::hex_padded(c.id as nat, 3),
        Addressing::Can29 { tester } => "18DA"@ + text::hex_padded(c.id as nat, 2)
            + text::hex_padded(tester as nat, 2),
    }
}

/// Whether `s` is a full 29-bit header: eight hexadecimal digits.
pub open spec fn is_full_header(s: Seq<char>) -> bool {
    s.len() == 8 && text::all_hex(s)
}

/// Whether the format byte of a full header is `DA` (physical).
pub open spec fn is_physical(s: Seq<char>) -> bool {
    s[2] == 'D' && s[3] == 'A'
}

/// The controller that an upper-case target names.
pub open spec fn target_of_upper(a: Addressing, s: Seq<char>) -> Option<Controller> {
    if s == "7DF"@ || s == "18DB33F1"@ {
        None
    } else {
        match a {
            Addressing::Can11 => match text::hex_within(s, 0xFFFF) {
                None => None,
                Some(id) => if 0x7E8 <= id <= 0x7EF {
                    Some(Controller { id: (id - 8) as u16 })
                } else if 0x641 <= id <= 0x65F {
                    Some(Controller { id: (id - 0x400) as u16 })
                } else if id <= 0x007 {
                    Some(Controller { id: (0x7E0 + id) as u16 })
                } else if id <= 0x0FF {
                    None
                } else if id <= 0x7FF {
                    Some(Controller { id: id as u16 })
                } else {
                    None
                },
            },
            Addressing::Can29 { .. } => if is_full_header(s) {
                if is_physical(s) {
                    Some(Controller { id: text::hex_number(s.subrange(4, 6)) as u16 })
                } else {
                    None
                }
            } else {
                match text::hex_within(s, 255) {
                    Some(b) => Some(Controller { id: b as u16 }),
                    None => None,
                }
            },
        }
    }
}

/// The controller that a target names.
pub open spec fn target_of(a: Addressing, s: Seq<char>) -> Option<Controller> {
    target_of_upper(a, text::upper(text::trim(s)))
}

/// The header to send for a target.
pub open spec fn target_header_of(a: Addressing, target: Seq<char>) -> Seq<char> {
    let s = text::upper(text::trim(target));
    if a is Can29 && is_full_header(s) && is_physical(s) {
        s
    } else {
        match target_of(a, s) {
            Some(c) => request_of(a, c),
            None => functional_of(a),
        }
    }
}

/// The key of a monitor line.
pub open spec fn monitor_key(a: Addressing, line: Seq<char>) -> Option<Seq<char>> {
    let t = text::words(line);
    if t.len() == 0 {
        None
    } else if a is Can29 && t.len() >= 4 && (forall|i: int|
        0 <= i < 4 ==> (#[trigger] t[i]).len() == 2 && text::all_hex(t[i])) {
        Some(text::upper(t[0] + t[1] + t[2] + t[3]))
    } else {
        Some(text::upper(t[0]))
    }
}

impl Bus {
    pub fn new(addressing: Addressing) -> (r: Self)
        ensures
            r.addressing == addressing,
    {
        Bus { addressing }
    }

    /// Recognises a controller header at the start of `tokens`: the controller
    /// and the tokens taken, or nothing where there is no header. A 29-bit
    /// header is known by its structure (format byte and tester), so that an
    /// odd priority byte does not hide it.
    pub fn read(&self, tokens: &[&str]) -> (r: Option<(Controller, usize)>)
        ensures
            r == header_read(self.addressing, token_views(tokens@)),
    {
        let ghost t = token_views(tokens@);
        match self.addressing {
            Addressing::Can11 => {
                if tokens.len() == 0 {
                    return None;
                }
                let first = text::chars_of(tokens[0]);
                assert(first@ == t[0]);
                if first.len() != 3 || !text::is_all_hex(tokens[0]) {
                    return None;
                }
                proof {
                    lemma_three_digits(first@);
                }
                let id: u32 = match text::hex_of(first.as_slice(), 0xFFFF) {
                    Some(n) => n,
                    None => {
                        return None;
                    },
                };
                let req: u32 = if 0x7E8 <= id && id <= 0x7EF {
                    id - 8
                } else if 0x7E0 <= id && id <= 0x7E7 {
                    id
                } else if 0x708 <= id && id <= 0x7DF {
                    id - 8
                } else if 0x641 <= id && id <= 0x65F {
                    id - 0x400
                } else {
                    return None;
                };
                Some((Controller { id: req as u16 }, 1))
            },
            Addressing::Can29 { tester } => {
                if let Some(b) = four_bytes(tokens) {
                    if b.1 == 0xDA && b.2 == tester {
                        return Some((Controller { id: b.3 as u16 }, 4));
                    }
                }
                None
            },
        }
    }

    /// Functional (broadcast) request header.
    pub fn functional_header(&self) -> (r: String)
        ensures
            r@ == functional_of(self.addressing),
    {
        match self.addressing {
            Addressing::Can11 => "7DF".to_owned(),
            Addressing::Can29 { tester } => {
                let mut s = "18DB33".to_owned();
                text::push_hex(&mut s, tester as u32, 2);
                s
            },
        }
    }

    /// Physical request header of one controller.
    pub fn request_header(&self, c: Controller) -> (r: String)
        ensures
            r@ == request_of(self.addressing, c),
    {
        match self.addressing {
            Addressing::Can11 => text::hex_text(c.id as u32, 3),
            Addressing::Can29 { tester } => {
                let mut s = "18DA".to_owned();
                text::push_hex(&mut s, c.id as u32, 2);
                text::push_hex(&mut s, tester as u32, 2);
                s
            },
        }
    }

    /// Normalises a target (a header or a bare controller key) to a controller
    /// of the active protocol. Nothing means that no single controller is
    /// meant, and the functional header is used. An 11-bit header (`7Ex`,
    /// `7DF`) is no address byte: it has no counterpart on a 29-bit bus.
    pub fn from_target(&self, s: &str) -> (r: Option<Controller>)
        ensures
            r == target_of(self.addressing, s@),
    {
        let t = text::trim_text(s, text::Blank::White);
        let u = text::to_upper(t.as_str());
        self.from_upper_target(u.as_str())
    }

    fn from_upper_target(&self, s: &str) -> (r: Option<Controller>)
        ensures
            r == target_of_upper(self.addressing, s@),
    {
        if text::same(s, "7DF") || text::same(s, "18DB33F1") {
            return None;
        }
        match self.addressing {
            Addressing::Can11 => {
                match text::parse_hex_text(s, 0xFFFF) {
                    None => None,
                    Some(id) => {
                        if 0x7E8 <= id && id <= 0x7EF {
                            Some(Controller { id: (id - 8) as u16 })
                        } else if 0x641 <= id && id <= 0x65F {
                            Some(Controller { id: (id - 0x400) as u16 })
                        } else if id <= 0x007 {
                            Some(Controller { id: (0x7E0 + id) as u16 })
                        } else if id <= 0x0FF {
                            None
                        } else if id <= 0x7FF {
                            Some(Controller { id: id as u16 })
                        } else {
                            None
                        }
                    },
                }
            },
            Addressing::Can29 { .. } => {
                let v = text::chars_of(s);
                if v.len() == 8 && text::is_all_hex(s) {
                    if v[2] == 'D' && v[3] == 'A' {
                        let id = two_digits(v[4], v[5]);
                        assert(v@.subrange(4, 6) =~= seq![v@[4], v@[5]]);
                        return Some(Controller { id: id as u16 });
                    }
                    return None;
                }
                match text::parse_hex_text(s, 255) {
                    Some(b) => Some(Controller { id: b as u16 }),
                    None => None,
                }
            },
        }
    }

    /// The header to send for a target: the physical header of the controller,
    /// or the functional one where the target cannot apply to the active
    /// protocol. A full physical header states its own priority and passes
    /// through as it is. Whatever the target, the header is itself a target
    /// that gives the same header.
    pub fn target_header(&self, target: &str) -> (r: String)
        ensures
            r@ == target_header_of(self.addressing, target@),
            target_header_of(self.addressing, r@) == r@,
    {
        let t = text::trim_text(target, text::Blank::White);
        let s = text::to_upper(t.as_str());
        proof {
            target_header_is_stable(self.addressing, target@);
        }
        let v = text::chars_of(s.as_str());
        if matches!(self.addressing, Addressing::Can29 { .. }) && v.len() == 8 && text::is_all_hex(
            s.as_str(),
        ) && v[2] == 'D' && v[3] == 'A' {
            return s;
        }
        match self.from_target(s.as_str()) {
            Some(c) => self.request_header(c),
            None => self.functional_header(),
        }
    }

    /// Leading CAN id of a monitor line in compact form (`"7E8"`,
    /// `"18DAF110"`). 29-bit ids are printed as four spaced bytes and joined
    /// here. Any other line gives its first word, which matches no decoder.
    pub fn monitor_id(&self, line: &str) -> (r: Option<String>)
        ensures
            r is Some <==> monitor_key(self.addressing, line@) is Some,
            r matches Some(k) ==> monitor_key(self.addressing, line@) == Some(k@),
    {
        let t = text::split_words(line);
        let ghost w = text::words(line@);
        if t.len() == 0 {
            return None;
        }
        assert(w[0] == t@[0]@);
        if matches!(self.addressing, Addressing::Can29 { .. }) && t.len() >= 4 {
            assert(w[1] == t@[1]@ && w[2] == t@[2]@ && w[3] == t@[3]@);
            if is_byte_word(t[0].as_str()) && is_byte_word(t[1].as_str()) && is_byte_word(
                t[2].as_str(),
            ) && is_byte_word(t[3].as_str()) {
                let mut s = t[0].clone();
                s.append(t[1].as_str());
                s.append(t[2].as_str());
                s.append(t[3].as_str());
                return Some(text::to_upper(s.as_str()));
            }
        }
        Some(text::to_upper(t[0].as_str()))
    }
}

fn is_byte_word(s: &str) -> (r: bool)
    ensures
        r == (s@.len() == 2 && text::all_hex(s@)),
{
    let v = text::chars_of(s);
    v.len() == 2 && text::is_all_hex(s)
}

fn two_digits(a: char, b: char) -> (r: u32)
    requires
        text::is_hex_digit(a),
        text::is_hex_digit(b),
    ensures
        r == text::hex_number(seq![a, b]),
        r <= 255,
{
    proof {
        lemma_two_digits(a, b);
    }
    match (text::digit_of(a), text::digit_of(b)) {
        (Some(x), Some(y)) => x * 16 + y,
        _ => 0,
    }
}

proof fn lemma_two_digits(a: char, b: char)
    ensures
        text::hex_number(seq![a, b]) == text::digit_value(a) * 16 + text::digit_value(b),
{
    assert(seq![a, b].drop_last() =~= seq![a]);
    assert(seq![a].drop_last() =~= Seq::<char>::empty());
    assert(text::hex_number(seq![a]) == text::digit_value(a)) by {
        reveal_with_fuel(text::hex_number, 2);
    }
}

proof fn lemma_three_digits(s: Seq<char>)
    requires
        s.len() == 3,
        text::all_hex(s),
    ensures
        text::hex_number(s) <= 0xFFF,
        s[0] != '+',
{
    assert(s.drop_last().drop_last().drop_last() =~= Seq::<char>::empty());
    assert(text::is_hex_digit(s[0]) && text::is_hex_digit(s[1]) && text::is_hex_digit(s[2]));
    reveal_with_fuel(text::hex_number, 4);
    assert(s.drop_last().last() == s[1]);
    assert(s.drop_last().drop_last().last() == s[0]);
}

/// The id that answers an upper-case request header.
pub open spec fn response_of_upper(h: Seq<char>) -> Seq<char> {
    let short = if h.len() <= 3 {
        text::bare_hex(h, 0xFFFF)
    } else {
        None
    };
    if short is Some && 0x241 <= short->0 <= 0x25F {
        text::hex_padded(short->0 + 0x400, 3)
    } else if short is Some && short->0 <= 0x7FF {
        text::hex_padded(short->0 + 8, 3)
    } else if is_full_header(h) && is_physical(h) {
        h.take(2) + "DA"@ + h.subrange(6, 8) + h.subrange(4, 6)
    } else {
        h
    }
}

/// The physical response id of a request header. 11-bit: `7E0` is answered at
/// `7E8` (+8), the low-range body block `241..=25F` at +0x400. 29-bit: target
/// and source change places, the priority stays. Anything else is the header
/// itself.
pub fn periodic_response_id(header: &str) -> (r: String)
    ensures
        r@ == response_of_upper(text::upper(text::trim(header@))),
{
    let t = text::trim_text(header, text::Blank::White);
    let h = text::to_upper(t.as_str());
    let v = text::chars_of(h.as_str());
    if v.len() <= 3 {
        if let Some(n) = text::bare_hex_of(v.as_slice(), 0xFFFF) {
            if 0x241 <= n && n <= 0x25F {
                return text::hex_text(n + 0x400, 3);
            }
            if n <= 0x7FF {
                return text::hex_text(n + 8, 3);
            }
        }
    }
    if v.len() == 8 && v[2] == 'D' && v[3] == 'A' && text::is_all_hex(h.as_str()) {
        let mut s = text::substring(v.as_slice(), 0, 2);
        s.append("DA");
        s.append(text::substring(v.as_slice(), 6, 8).as_str());
        s.append(text::substring(v.as_slice(), 4, 6).as_str());
        assert(v@.subrange(0, 2) =~= h@.take(2));
        return s;
    }
    h
}

// ---- laws ----

/// Whether `s` is made of the digits that headers are written with.
pub open spec fn plain_header(s: Seq<char>) -> bool {
    forall|i: int|
        0 <= i < s.len() ==> ('0' <= #[trigger] s[i] <= '9') || ('A' <= s[i] <= 'F')
}

/// A written number is plain.
pub proof fn lemma_hex_is_plain(n: nat, width: nat)
    ensures
        plain_header(text::hex_padded(n, width)),
    decreases n + width,
{
    if n == 0 && width == 0 {
    } else {
        let w = if width > 0 {
            (width - 1) as nat
        } else {
            0
        };
        lemma_hex_is_plain(n / 16, w);
        let head = text::hex_padded(n / 16, w);
        let s = head.push(text::digit_char(n % 16));
        assert forall|i: int| 0 <= i < s.len() implies ('0' <= #[trigger] s[i] <= '9') || ('A'
            <= s[i] <= 'F') by {
            if i < head.len() {
                assert(s[i] == head[i]);
            }
        }
    }
}

/// A plain header is what it is after trimming and upper-casing.
pub proof fn lemma_plain_is_normal(s: Seq<char>)
    requires
        plain_header(s),
    ensures
        text::upper(text::trim(s)) == s,
        text::all_hex(s),
{
    if s.len() > 0 {
        assert(!text::is_white(s[0]));
        assert(!text::is_white(s[s.len() - 1]));
    }
    assert(text::trim(s) == s);
    assert(text::ascii_upper(s) =~= s);
    assert(text::all_ascii(s));
}

/// Digits among which no small letter stands are plain.
proof fn lemma_capital_digits_are_plain(u: Seq<char>)
    requires
        text::no_small(u),
        text::all_hex(u),
    ensures
        plain_header(u),
{
    assert forall|i: int| 0 <= i < u.len() implies ('0' <= #[trigger] u[i] <= '9') || ('A' <= u[i]
        <= 'F') by {
        assert(text::is_hex_digit(u[i]));
    }
}

/// Three digits write every 11-bit id.
pub proof fn lemma_id_width(n: nat)
    requires
        n <= 0xFFF,
    ensures
        text::hex_padded(n, 3).len() == 3,
        text::hex_number(text::hex_padded(n, 3)) == n,
        text::all_hex(text::hex_padded(n, 3)),
        text::hex_padded(n, 3)[0] == text::digit_char(n / 256),
        text::hex_padded(n, 3)[1] == text::digit_char(n / 16 % 16),
        text::hex_padded(n, 3)[2] == text::digit_char(n % 16),
{
    text::lemma_hex_padded(n, 3);
    reveal_with_fuel(text::hex_padded, 4);
    assert(n / 16 / 16 / 16 == 0);
    assert(n / 16 / 16 % 16 == n / 256);
}

/// Two digits write every byte.
pub proof fn lemma_byte_width(n: nat)
    requires
        n <= 0xFF,
    ensures
        text::hex_padded(n, 2).len() == 2,
        text::hex_number(text::hex_padded(n, 2)) == n,
        text::all_hex(text::hex_padded(n, 2)),
{
    text::lemma_hex_padded(n, 2);
    reveal_with_fuel(text::hex_padded, 3);
    assert(n / 16 / 16 == 0);
}

/// The identities that an 11-bit request block gives to its controllers.
pub open spec fn in_request_block(id: u16) -> bool {
    0x7E0 <= id <= 0x7E7 || 0x700 <= id <= 0x7D7 || 0x241 <= id <= 0x25F
}

/// 11-bit: the id at which a controller answers its own request header is
/// attributed back to that controller.
pub proof fn response_is_attributed_11bit(c: Controller)
    requires
        in_request_block(c.id),
    ensures
        header_read(
            Addressing::Can11,
            seq![response_of_upper(request_of(Addressing::Can11, c))],
        ) == Some((c, 1usize)),
{
    let h = request_of(Addressing::Can11, c);
    lemma_id_width(c.id as nat);
    lemma_three_digits(h);
    let n = if 0x241 <= c.id <= 0x25F {
        (c.id + 0x400) as nat
    } else {
        (c.id + 8) as nat
    };
    lemma_id_width(n);
    assert(response_of_upper(h) == text::hex_padded(n, 3));
}

/// 29-bit: a response `pp DA <tester> <id>` is attributed to the controller
/// whose request header `18DA<id><tester>` it answers, and that request header
/// as a target names the same controller.
pub proof fn request_and_response_agree_29bit(tester: u8, c: Controller, priority: Seq<char>)
    requires
        c.id <= 0xFF,
        text::bare_hex(priority, 255) is Some,
    ensures
        target_of(Addressing::Can29 { tester }, request_of(Addressing::Can29 { tester }, c))
            == Some(c),
        header_read(
            Addressing::Can29 { tester },
            seq![
                priority,
                text::hex_padded(0xDA, 2),
                text::hex_padded(tester as nat, 2),
                text::hex_padded(c.id as nat, 2),
            ],
        ) == Some((c, 4usize)),
{
    let a = Addressing::Can29 { tester };
    let x = text::hex_padded(c.id as nat, 2);
    let y = text::hex_padded(tester as nat, 2);
    lemma_byte_width(c.id as nat);
    lemma_byte_width(tester as nat);
    lemma_byte_width(0xDA);
    text::hex_reads_back(c.id as nat, 2);
    text::hex_reads_back(tester as nat, 2);
    text::hex_reads_back(0xDA, 2);
    lemma_hex_is_plain(c.id as nat, 2);
    lemma_hex_is_plain(tester as nat, 2);
    reveal_strlit("18DA");
    reveal_strlit("7DF");
    reveal_strlit("18DB33F1");
    let s = request_of(a, c);
    assert forall|i: int| 0 <= i < s.len() implies ('0' <= #[trigger] s[i] <= '9') || ('A' <= s[i]
        <= 'F') by {
        if 4 <= i < 6 {
            assert(s[i] == x[i - 4]);
        } else if 6 <= i {
            assert(s[i] == y[i - 6]);
        }
    }
    lemma_plain_is_normal(s);
    assert(s.len() == 8);
    assert(s[3] == 'A');
    assert("18DB33F1"@[3] == 'B');
    assert(s.subrange(4, 6) =~= x);
}

/// 11-bit: a request id, as a target, names its own controller, unless it is
/// the functional id or is written like a response.
pub proof fn request_header_is_a_target_11bit(c: Controller)
    requires
        0x100 <= c.id <= 0x7FF,
        c.id != 0x7DF,
        !(0x7E8 <= c.id <= 0x7EF),
        !(0x641 <= c.id <= 0x65F),
    ensures
        target_of(Addressing::Can11, request_of(Addressing::Can11, c)) == Some(c),
{
    let s = request_of(Addressing::Can11, c);
    lemma_id_width(c.id as nat);
    lemma_hex_is_plain(c.id as nat, 3);
    lemma_plain_is_normal(s);
    lemma_three_digits(s);
    lemma_id_width(0x7DF);
    reveal_strlit("7DF");
    reveal_strlit("18DB33F1");
    if s == "7DF"@ {
        assert("7DF"@ =~= text::hex_padded(0x7DF, 3));
        assert(false);
    }
}

/// 29-bit: taking the response id twice gives the header back.
pub proof fn response_swap_is_an_involution(h: Seq<char>)
    requires
        is_full_header(h),
        is_physical(h),
    ensures
        response_of_upper(response_of_upper(h)) == h,
        response_of_upper(h).take(2) == h.take(2),
{
    reveal_strlit("DA");
    let r = response_of_upper(h);
    assert forall|i: int| 0 <= i < r.len() implies text::is_hex_digit(#[trigger] r[i]) by {
        if i < 2 {
            assert(r[i] == h[i]);
        } else if 4 <= i < 6 {
            assert(r[i] == h[i + 2]);
        } else if 6 <= i {
            assert(r[i] == h[i - 2]);
        }
    }
    let q = response_of_upper(r);
    assert(r.take(2) =~= h.take(2));
    assert(q =~= h);
}

/// The header that a target resolves to is itself a target that resolves to
/// the same header: resolving twice is resolving once. That the upper case of
/// the target holds no small letter is what upper-casing gives for every text:
/// `target_header` states this law without a condition.
pub proof fn target_header_is_stable(a: Addressing, target: Seq<char>)
    requires
        text::no_small(text::upper(text::trim(target))),
    ensures
        target_header_of(a, target_header_of(a, target)) == target_header_of(a, target),
{
    let s = text::upper(text::trim(target));
    let h = target_header_of(a, target);
    reveal_strlit("7DF");
    match a {
        Addressing::Can11 => {
            match target_of(a, s) {
                Some(c) => {
                    if c.id == 0x7DF {
                        lemma_id_width(0x7DF);
                        lemma_hex_is_plain(0x7DF, 3);
                        lemma_plain_is_normal(h);
                        assert("7DF"@ =~= h);
                    } else {
                        lemma_hex_is_plain(c.id as nat, 3);
                        lemma_plain_is_normal(h);
                        request_header_is_a_target_11bit(c);
                    }
                },
                None => {
                    lemma_plain_is_normal(h);
                },
            }
        },
        Addressing::Can29 { tester } => {
            let y = text::hex_padded(tester as nat, 2);
            lemma_byte_width(tester as nat);
            lemma_hex_is_plain(tester as nat, 2);
            reveal_strlit("18DA");
            reveal_strlit("18DB33");
            reveal_strlit("18DB33F1");
            if is_full_header(s) && is_physical(s) {
                lemma_capital_digits_are_plain(s);
                lemma_plain_is_normal(h);
            } else {
                match target_of(a, s) {
                    Some(c) => {
                        let u = text::upper(text::trim(s));
                        if is_full_header(u) {
                            assert(u.subrange(4, 6) =~= seq![u[4], u[5]]);
                            lemma_two_digits(u[4], u[5]);
                            assert(text::is_hex_digit(u[4]) && text::is_hex_digit(u[5]));
                        }
                        assert(c.id <= 0xFF);
                        let x = text::hex_padded(c.id as nat, 2);
                        lemma_byte_width(c.id as nat);
                        lemma_hex_is_plain(c.id as nat, 2);
                        assert forall|i: int| 0 <= i < h.len() implies ('0' <= #[trigger] h[i]
                            <= '9') || ('A' <= h[i] <= 'F') by {
                            if 4 <= i < 6 {
                                assert(h[i] == x[i - 4]);
                            } else if 6 <= i {
                                assert(h[i] == y[i - 6]);
                            }
                        }
                        lemma_plain_is_normal(h);
                    },
                    None => {
                        assert forall|i: int| 0 <= i < h.len() implies ('0' <= #[trigger] h[i]
                            <= '9') || ('A' <= h[i] <= 'F') by {
                            if 6 <= i {
                                assert(h[i] == y[i - 6]);
                            }
                        }
                        lemma_plain_is_normal(h);
                        assert(h[3] == 'B');
                    },
                }
            }
        },
    }
}

/// The header of a target is that of the controller which the target names, or
/// the functional one where it names none; only a full physical header on a
/// 29-bit bus stands for itself. (Resolving upper-cases the target first; that
/// doing so once more changes nothing is known of ASCII.)
pub proof fn a_target_names_its_header(a: Addressing, target: Seq<char>)
    requires
        text::all_ascii(target),
    ensures
        ({
            let s = text::upper(text::trim(target));
            target_header_of(a, target) == (if a is Can29 && is_full_header(s) && is_physical(s) {
                s
            } else {
                match target_of(a, target) {
                    Some(c) => request_of(a, c),
                    None => functional_of(a),
                }
            })
        }),
{
    let t = text::trim(target);
    let s = text::upper(t);
    assert forall|i: int| 0 <= i < t.len() implies (#[trigger] t[i] as u32) < 128 by {
        text::trimming_settles(target, text::Blank::White, t[i]);
        assert(t.contains(t[i]));
    }
    assert(text::all_ascii(t));
    text::trimming_settles(target, text::Blank::White, ' ');
    if s.len() > 0 {
        assert(!text::is_white(s[0]));
        assert(!text::is_white(s.last()));
    }
    assert(text::trim(s) == s);
    assert(text::ascii_upper(s) =~= s);
    assert(text::all_ascii(s));
}

/// A full physical header keeps its stated priority as a target.
pub proof fn full_header_passes_through(tester: u8, h: Seq<char>)
    requires
        plain_header(h),
        h.len() == 8,
        is_physical(h),
    ensures
        target_header_of(Addressing::Can29 { tester }, h) == h,
{
    lemma_plain_is_normal(h);
}

/// 11-bit: the id at which a controller answers, given as a target, names the
/// controller to which a frame with that id is attributed: the one that is
/// asked 8 below, or 0x400 below in the low range.
pub proof fn a_response_id_names_who_answers_11bit(id: u16)
    requires
        0x7E8 <= id <= 0x7EF || 0x641 <= id <= 0x65F,
    ensures
        ({
            let h = text::hex_padded(id as nat, 3);
            let c = target_of(Addressing::Can11, h);
            &&& c is Some
            &&& header_read(Addressing::Can11, seq![h]) == Some((c->0, 1usize))
            &&& 0x7E8 <= id ==> c->0.id + 8 == id
            &&& id < 0x7E8 ==> c->0.id + 0x400 == id
            &&& target_header_of(Addressing::Can11, h) == text::hex_padded(c->0.id as nat, 3)
        }),
{
    let s = text::hex_padded(id as nat, 3);
    lemma_id_width(id as nat);
    lemma_hex_is_plain(id as nat, 3);
    lemma_plain_is_normal(s);
    lemma_three_digits(s);
    lemma_id_width(0x7DF);
    reveal_strlit("7DF");
    reveal_strlit("18DB33F1");
    if s == "7DF"@ {
        assert("7DF"@ =~= text::hex_padded(0x7DF, 3));
        assert(false);
    }
}

/// 11-bit: a frame is attributed to the controller that is asked 8 below its id,
/// or 0x400 below in the low range; a request id of the standard block stands
/// for itself. No other id, and no other shape of header, names a controller.
pub proof fn who_answers_11bit(id: u16, t: Seq<Seq<char>>)
    requires
        id <= 0x7FF,
        t.len() > 0,
        t[0] == text::hex_padded(id as nat, 3),
    ensures
        ({
            let r = header_read(Addressing::Can11, t);
            let asked_below = 0x7E8 <= id <= 0x7EF || 0x708 <= id <= 0x7DF;
            let low = 0x641 <= id <= 0x65F;
            let own = 0x7E0 <= id <= 0x7E7;
            &&& r is Some <==> asked_below || low || own
            &&& r is Some ==> (r->0).1 == 1
            &&& asked_below ==> (r->0).0.id + 8 == id
            &&& low ==> (r->0).0.id + 0x400 == id
            &&& own ==> (r->0).0.id == id
        }),
{
    lemma_id_width(id as nat);
}

/// 11-bit: a controller's number in its block, bare, names the controller that
/// answers at `7E8` and so many on; other single bytes are ambiguous, and what
/// is wider than 11 bits names none.
pub proof fn bare_targets_11bit(n: u16, width: nat)
    requires
        1 <= width <= 4,
    ensures
        ({
            let c = target_of(Addressing::Can11, text::hex_padded(n as nat, width));
            &&& n < 8 ==> c is Some && header_read(
                Addressing::Can11,
                seq![text::hex_padded((0x7E8 + n) as nat, 3)],
            ) == Some((c->0, 1usize))
            &&& 8 <= n <= 0xFF ==> c is None
            &&& n > 0x7FF ==> c is None
        }),
{
    let s = text::hex_padded(n as nat, width);
    lemma_hex_is_plain(n as nat, width);
    lemma_plain_is_normal(s);
    text::hex_reads_back(n as nat, width);
    text::lemma_hex_padded(n as nat, width);
    reveal_strlit("7DF");
    reveal_strlit("18DB33F1");
    lemma_id_width(0x7DF);
    assert("7DF"@ =~= text::hex_padded(0x7DF, 3));
    if s == "7DF"@ {
        assert(n == 0x7DF);
    }
    if s == "18DB33F1"@ {
        lemma_short_number(n as nat, width);
        assert(false);
    }
    if n < 8 {
        lemma_id_width((0x7E8 + n) as nat);
    }
}

/// A number of at most four digits is written in at most four.
proof fn lemma_short_number(n: nat, width: nat)
    requires
        n <= 0xFFFF,
        width <= 4,
    ensures
        text::hex_padded(n, width).len() <= 4,
{
    reveal_with_fuel(text::hex_padded, 6);
    assert(n / 16 / 16 / 16 / 16 == 0);
}

/// 29-bit: a bare byte names the controller at that address, and a three-digit
/// header above a byte names none.
pub proof fn bare_targets_29bit(tester: u8, n: u16)
    requires
        n <= 0xFFF,
    ensures
        n <= 0xFF ==> target_of(Addressing::Can29 { tester }, text::hex_padded(n as nat, 2)) == Some(
            Controller { id: n },
        ),
        n > 0xFF ==> target_of(Addressing::Can29 { tester }, text::hex_padded(n as nat, 3)) is None,
{
    reveal_strlit("7DF");
    reveal_strlit("18DB33F1");
    let two = text::hex_padded(n as nat, 2);
    let three = text::hex_padded(n as nat, 3);
    lemma_hex_is_plain(n as nat, 2);
    lemma_hex_is_plain(n as nat, 3);
    lemma_plain_is_normal(two);
    lemma_plain_is_normal(three);
    text::hex_reads_back(n as nat, 2);
    text::hex_reads_back(n as nat, 3);
    lemma_id_width(n as nat);
    if n <= 0xFF {
        lemma_byte_width(n as nat);
    }
}

/// 29-bit: only a header of format `DA` names a controller; the functional
/// format and any other name none.
pub proof fn other_formats_name_none(tester: u8, h: Seq<char>)
    requires
        plain_header(h),
        h.len() == 8,
        h[2] != 'D' || h[3] != 'A',
    ensures
        target_of(Addressing::Can29 { tester }, h) is None,
        target_header_of(Addressing::Can29 { tester }, h) == functional_of(
            Addressing::Can29 { tester },
        ),
{
    lemma_plain_is_normal(h);
}

/// 29-bit: a header names the controller in its last byte only where its format
/// is `DA` and it is addressed to this tester.
pub proof fn who_answers_29bit(tester: u8, priority: u8, format: u8, to: u8, from: u8)
    ensures
        header_read(
            Addressing::Can29 { tester },
            seq![
                text::hex_padded(priority as nat, 2),
                text::hex_padded(format as nat, 2),
                text::hex_padded(to as nat, 2),
                text::hex_padded(from as nat, 2),
            ],
        ) == (if format == 0xDA && to == tester {
            Some((Controller { id: from as u16 }, 4usize))
        } else {
            None
        }),
{
    lemma_byte_width(priority as nat);
    lemma_byte_width(format as nat);
    lemma_byte_width(to as nat);
    lemma_byte_width(from as nat);
}

/// The addressing that a reply shows is one that reads its header: three digits
/// in the 700 block are 11-bit; a physical 29-bit header tells its tester, and
/// its last byte is the controller.
pub proof fn what_is_sniffed_is_read(id: u16, priority: u8, to: u8, from: u8, rest: Seq<Seq<char>>)
    requires
        0x700 <= id <= 0x7FF,
    ensures
        sniffed(seq![text::hex_padded(id as nat, 3)] + rest) == Some(Addressing::Can11),
        ({
            let t = seq![
                text::hex_padded(priority as nat, 2),
                text::hex_padded(0xDA, 2),
                text::hex_padded(to as nat, 2),
                text::hex_padded(from as nat, 2),
            ] + rest;
            &&& sniffed(t) == Some(Addressing::Can29 { tester: to })
            &&& header_read(sniffed(t)->0, t) == Some((Controller { id: from as u16 }, 4usize))
        }),
{
    lemma_id_width(id as nat);
    lemma_byte_width(priority as nat);
    lemma_byte_width(0xDA);
    lemma_byte_width(to as nat);
    lemma_byte_width(from as nat);
    assert((seq![text::hex_padded(id as nat, 3)] + rest)[0] == text::hex_padded(id as nat, 3));
    assert(text::digit_char(7) == '7');
}

/// Headers are numbers: an 11-bit one is the controller's id; a 29-bit one is
/// `18DA`, the controller and the tester, and its functional one `18DB33` and
/// the tester.
pub proof fn headers_are_numbers(c: Controller, tester: u8)
    requires
        c.id <= 0xFF,
    ensures
        text::hex_number(functional_of(Addressing::Can11)) == 0x7DF,
        text::hex_number(request_of(Addressing::Can11, c)) == c.id,
        text::hex_number(request_of(Addressing::Can29 { tester }, c)) == 0x18DA0000 + 256 * c.id
            + tester,
        text::hex_number(functional_of(Addressing::Can29 { tester })) == 0x18DB3300 + tester,
        request_of(Addressing::Can29 { tester }, c).len() == 8,
        functional_of(Addressing::Can29 { tester }).len() == 8,
        request_of(Addressing::Can11, c).len() == 3,
{
    reveal_strlit("7DF");
    reveal_strlit("18DA");
    reveal_strlit("18DB33");
    lemma_id_width(0x7DF);
    assert("7DF"@ =~= text::hex_padded(0x7DF, 3));
    lemma_id_width(c.id as nat);
    lemma_byte_width(c.id as nat);
    lemma_byte_width(tester as nat);
    let e = Seq::<char>::empty();
    text::lemma_number_behind(e, 0x18);
    text::lemma_number_behind(e + text::hex_padded(0x18, 2), 0xDA);
    text::lemma_number_behind(e + text::hex_padded(0x18, 2), 0xDB);
    text::lemma_number_behind(e + text::hex_padded(0x18, 2) + text::hex_padded(0xDB, 2), 0x33);
    lemma_two_chars(0x18);
    lemma_two_chars(0xDA);
    lemma_two_chars(0xDB);
    lemma_two_chars(0x33);
    assert("18DA"@ =~= e + text::hex_padded(0x18, 2) + text::hex_padded(0xDA, 2));
    assert("18DB33"@ =~= e + text::hex_padded(0x18, 2) + text::hex_padded(0xDB, 2)
        + text::hex_padded(0x33, 2));
    text::lemma_number_behind("18DA"@, c.id as nat);
    text::lemma_number_behind("18DA"@ + text::hex_padded(c.id as nat, 2), tester as nat);
    text::lemma_number_behind("18DB33"@, tester as nat);
}

/// Two digits write a byte, the high one first.
pub proof fn lemma_two_chars(b: nat)
    requires
        b < 256,
    ensures
        text::hex_padded(b, 2) == seq![text::digit_char(b / 16), text::digit_char(b % 16)],
{
    reveal_with_fuel(text::hex_padded, 3);
    assert(b / 16 / 16 == 0);
    assert(b / 16 % 16 == b / 16);
    assert(text::hex_padded(b, 2) =~= seq![text::digit_char(b / 16), text::digit_char(b % 16)]);
}

/// The answer to a 29-bit request comes with the same priority, and target and
/// source in each other's place; the answer to an 11-bit one comes 8 above, or
/// 0x400 above in the low range.
pub proof fn where_the_answer_comes(priority: u8, to: u8, from: u8, id: u16)
    requires
        id <= 0x7FF,
    ensures
        response_of_upper(
            text::hex_padded(priority as nat, 2) + text::hex_padded(0xDA, 2) + text::hex_padded(
                to as nat,
                2,
            ) + text::hex_padded(from as nat, 2),
        ) == text::hex_padded(priority as nat, 2) + text::hex_padded(0xDA, 2) + text::hex_padded(
            from as nat,
            2,
        ) + text::hex_padded(to as nat, 2),
        text::hex_number(response_of_upper(text::hex_padded(id as nat, 3))) == (if 0x241 <= id
            <= 0x25F {
            id + 0x400
        } else {
            id + 8
        }),
{
    let p = text::hex_padded(priority as nat, 2);
    let d = text::hex_padded(0xDA, 2);
    let x = text::hex_padded(to as nat, 2);
    let y = text::hex_padded(from as nat, 2);
    let h = p + d + x + y;
    lemma_byte_width(priority as nat);
    lemma_byte_width(0xDA);
    lemma_byte_width(to as nat);
    lemma_byte_width(from as nat);
    lemma_two_chars(0xDA);
    reveal_strlit("DA");
    assert("DA"@ =~= d);
    assert(h.take(2) =~= p);
    assert(h.subrange(6, 8) =~= y);
    assert(h.subrange(4, 6) =~= x);
    assert(h[2] == d[0] && h[3] == d[1]);
    assert forall|i: int| 0 <= i < h.len() implies text::is_hex_digit(#[trigger] h[i]) by {
        if i < 2 {
            assert(h[i] == p[i]);
        } else if i < 4 {
            assert(h[i] == d[i - 2]);
        } else if i < 6 {
            assert(h[i] == x[i - 4]);
        } else {
            assert(h[i] == y[i - 6]);
        }
    }
    lemma_id_width(id as nat);
    lemma_id_width((id + 8) as nat);
    text::lemma_hex_padded((id + 0x400) as nat, 3);
}

/// The protocols with 11-bit ids are 6 and 8, those with 29-bit ids 7 and 9,
/// blanks around the number aside; no other text is a CAN protocol. The tester
/// is `F1` until the wire shows another.
pub proof fn can_protocols(n: Seq<char>)
    ensures
        addressing_of_protocol(n) is Some <==> text::trim(n).len() == 1 && '6' <= text::trim(n)[0]
            <= '9',
        addressing_of_protocol(n) == Some(Addressing::Can11) <==> text::trim(n).len() == 1 && (
        text::trim(n)[0] == '6' || text::trim(n)[0] == '8'),
        addressing_of_protocol(n) is Some && addressing_of_protocol(n)->0 is Can29
            ==> addressing_of_protocol(n)->0 == (Addressing::Can29 { tester: 0xF1 }),
{
    reveal_strlit("6");
    reveal_strlit("7");
    reveal_strlit("8");
    reveal_strlit("9");
    let t = text::trim(n);
    if t.len() == 1 {
        assert(t =~= seq![t[0]]);
        assert("6"@ =~= seq!['6']);
        assert("7"@ =~= seq!['7']);
        assert("8"@ =~= seq!['8']);
        assert("9"@ =~= seq!['9']);
    }
}

/// A response shows a bus only in these two ways: three digits of which the
/// first is seven, or four bytes of which the second is the physical format and
/// the third the tester.
pub proof fn what_shows_no_bus(t: Seq<Seq<char>>)
    ensures
        t.len() == 0 ==> sniffed(t) is None,
        sniffed(t) is Some && sniffed(t)->0 is Can11 ==> t[0].len() == 3 && t[0][0] == '7'
            && text::all_hex(t[0]),
        sniffed(t) is Some && sniffed(t)->0 is Can29 ==> t.len() >= 4 && text::all_hex(t[0])
            && text::hex_number(t[1]) == 0xDA && text::hex_number(t[2]) == sniffed(t)->0->tester
            && text::all_hex(t[3]) && text::hex_number(t[0]) <= 255 && text::hex_number(t[3])
            <= 255,
{
}

} // verus!
