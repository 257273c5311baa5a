//! Text over sequences of characters: trimming, splitting, case, hexadecimal
//! and lexicographic order.
use vstd::prelude::*;

verus! {

/// `String::push` appends one character to the end of the string.
pub assume_specification[ String::push ](s: &mut String, c: char)
    ensures
        final(s)@ == old(s)@.push(c),
;

/// What `str::to_uppercase` gives for text that is not plain ASCII.
pub uninterp spec fn unicode_upper(s: Seq<char>) -> Seq<char>;

/// What `str::to_lowercase` gives for text that is not plain ASCII.
pub uninterp spec fn unicode_lower(s: Seq<char>) -> Seq<char>;

/// A class of characters that text is trimmed by or split at.
#[derive(Clone, Copy, PartialEq, Eq, Structural, Debug)]
pub enum Blank {
    /// Unicode `White_Space`.
    White,
    /// Space and tab.
    SpaceTab,
    /// Carriage return and line feed.
    LineEnd,
    /// A single character.
    One(char),
}

/// The characters with the Unicode property `White_Space`.
pub open spec fn is_white(c: char) -> bool {
    let n = c as u32;
    ||| 0x09 <= n <= 0x0d
    ||| n == 0x20
    ||| n == 0x85
    ||| n == 0xa0
    ||| n == 0x1680
    ||| 0x2000 <= n <= 0x200a
    ||| n == 0x2028
    ||| n == 0x2029
    ||| n == 0x202f
    ||| n == 0x205f
    ||| n == 0x3000
}

impl Blank {
    /// Whether `c` belongs to the class.
    pub open spec fn spec_has(self, c: char) -> bool {
        match self {
            Blank::White => is_white(c),
            Blank::SpaceTab => c == ' ' || c == '\t',
            Blank::LineEnd => c == '\r' || c == '\n',
            Blank::One(d) => c == d,
        }
    }

    /// Whether `c` belongs to the class.
    pub fn has(self, c: char) -> (r: bool)
        ensures
            r == self.spec_has(c),
    {
        match self {
            Blank::White => {
                let n: u32 = c as u32;
                (0x09 <= n && n <= 0x0d) || n == 0x20 || n == 0x85 || n == 0xa0 || n == 0x1680 || (
                0x2000 <= n && n <= 0x200a) || n == 0x2028 || n == 0x2029 || n == 0x202f || n
                    == 0x205f || n == 0x3000
            },
            Blank::SpaceTab => c == ' ' || c == '\t',
            Blank::LineEnd => c == '\r' || c == '\n',
            Blank::One(d) => c == d,
        }
    }
}

/// The views of a sequence of strings.
pub open spec fn views(v: Seq<String>) -> Seq<Seq<char>> {
    Seq::new(v.len(), |i: int| v[i]@)
}

/// The characters of `s`.
pub fn chars_of(s: &str) -> (r: Vec<char>)
    ensures
        r@ == s@,
{
    let mut out: Vec<char> = Vec::new();
    for c in it: s.chars()
        invariant
            it.seq() == s@,
            out@ == s@.take(it.index() as int),
    {
        out.push(c);
    }
    out
}

/// The text made of `v`.
pub fn string_of(v: &[char]) -> (r: String)
    ensures
        r@ == v@,
{
    let mut out = String::new();
    let mut i: usize = 0;
    while i < v.len()
        invariant
            i <= v@.len(),
            out@ == v@.take(i as int),
        decreases v@.len() - i,
    {
        out.push(v[i]);
        i += 1;
    }
    out
}

/// The text made of `v[from..to]`.
pub fn substring(v: &[char], from: usize, to: usize) -> (r: String)
    requires
        from <= to <= v@.len(),
    ensures
        r@ == v@.subrange(from as int, to as int),
{
    let mut out = String::new();
    let mut i: usize = from;
    while i < to
        invariant
            from <= i <= to <= v@.len(),
            out@ == v@.subrange(from as int, i as int),
        decreases to - i,
    {
        out.push(v[i]);
        i += 1;
    }
    out
}

/// Equality of two texts.
pub fn same(a: &str, b: &str) -> (r: bool)
    ensures
        r == (a@ == b@),
{
    a.to_owned() == b.to_owned()
}

/// The view of an optional text.
pub open spec fn opt(s: Option<String>) -> Option<Seq<char>> {
    match s {
        Some(t) => Some(t@),
        None => None,
    }
}

/// Whether `s` holds a NUL character.
pub fn has_nul(s: &str) -> (r: bool)
    ensures
        r == s@.contains('\0'),
{
    let v = chars_of(s);
    let mut i: usize = 0;
    while i < v.len()
        invariant
            i <= v@.len(),
            v@ == s@,
            forall|j: int| 0 <= j < i ==> v@[j] != '\0',
        decreases v@.len() - i,
    {
        if v[i] == '\0' {
            assert(s@[i as int] == '\0');
            return true;
        }
        i += 1;
    }
    false
}

/// A copy of a list of strings.
pub fn clone_strings(v: &Vec<String>) -> (r: Vec<String>)
    ensures
        r@ == v@,
{
    let mut out: Vec<String> = Vec::new();
    let mut i: usize = 0;
    while i < v.len()
        invariant
            i <= v@.len(),
            out@ == v@.take(i as int),
        decreases v@.len() - i,
    {
        out.push(v[i].clone());
        i += 1;
    }
    out
}

/// Whether `s` stands in `v`, by view.
pub open spec fn contains_text(v: Seq<String>, s: Seq<char>) -> bool {
    exists|i: int| 0 <= i < v.len() && #[trigger] v[i]@ == s
}

/// Whether `s` stands in `v`.
pub fn has_text(v: &Vec<String>, s: &str) -> (r: bool)
    ensures
        r == contains_text(v@, s@),
{
    let mut i: usize = 0;
    while i < v.len()
        invariant
            i <= v@.len(),
            forall|j: int| 0 <= j < i ==> #[trigger] v@[j]@ != s@,
        decreases v@.len() - i,
    {
        if same(v[i].as_str(), s) {
            assert(v@[i as int]@ == s@);
            return true;
        }
        i += 1;
    }
    false
}

/// Whether every text of `a` stands in `b`.
pub fn all_in(a: &Vec<String>, b: &Vec<String>) -> (r: bool)
    ensures
        r == (forall|i: int| 0 <= i < a@.len() ==> contains_text(b@, #[trigger] a@[i]@)),
{
    let mut i: usize = 0;
    while i < a.len()
        invariant
            i <= a@.len(),
            forall|j: int| 0 <= j < i ==> contains_text(b@, #[trigger] a@[j]@),
        decreases a@.len() - i,
    {
        if !has_text(b, a[i].as_str()) {
            assert(!contains_text(b@, a@[i as int]@));
            return false;
        }
        i += 1;
    }
    true
}

/// A text stands in `v` exactly where its view is one of the views.
pub proof fn lemma_contains_view(v: Seq<String>, s: Seq<char>)
    ensures
        contains_text(v, s) <==> views(v).contains(s),
{
    if contains_text(v, s) {
        let i = choose|i: int| 0 <= i < v.len() && #[trigger] v[i]@ == s;
        assert(views(v)[i] == s);
    }
    if views(v).contains(s) {
        let i = choose|i: int| 0 <= i < views(v).len() && views(v)[i] == s;
        assert(v[i]@ == s);
    }
}

/// What stands in `s` with `a` put behind it is what stands in `s`, and `a`.
pub proof fn lemma_push_contains<A>(s: Seq<A>, a: A)
    ensures
        forall|x: A| #[trigger] s.push(a).contains(x) <==> s.contains(x) || x == a,
{
    let next = s.push(a);
    assert forall|x: A| #[trigger] next.contains(x) <==> s.contains(x) || x == a by {
        if s.contains(x) {
            let k = choose|k: int| 0 <= k < s.len() && s[k] == x;
            assert(next[k] == x);
        }
        if next.contains(x) {
            let k = choose|k: int| 0 <= k < next.len() && next[k] == x;
            if k < s.len() {
                assert(s[k] == x);
            }
        }
        assert(next[s.len() as int] == a);
    }
}

/// What stands in the first `i + 1` elements is what stands in the first `i`,
/// and the element at `i`, which is new where nothing occurs twice.
pub proof fn lemma_take_step<A>(all: Seq<A>, i: int)
    requires
        0 <= i < all.len(),
    ensures
        all.take(i + 1) == all.take(i).push(all[i]),
        forall|x: A| #[trigger]
            all.take(i + 1).contains(x) <==> all.take(i).contains(x) || x == all[i],
        all.no_duplicates() ==> !all.take(i).contains(all[i]),
{
    let here = all.take(i);
    assert(all.take(i + 1) =~= here.push(all[i]));
    lemma_push_contains(here, all[i]);
    if all.no_duplicates() && here.contains(all[i]) {
        let k = choose|k: int| 0 <= k < here.len() && here[k] == all[i];
        assert(all[k] == all[i]);
    }
}

/// Whether two lists hold the same texts, order and repetition aside.
pub fn same_set(a: &Vec<String>, b: &Vec<String>) -> (r: bool)
    ensures
        r == (views(a@).to_set() == views(b@).to_set()),
{
    let r = all_in(a, b) && all_in(b, a);
    proof {
        assert forall|s: Seq<char>|
            #![trigger views(a@).contains(s)]
            #![trigger views(b@).contains(s)]
            true implies (contains_text(a@, s) <==> views(a@).contains(s)) && (contains_text(b@, s)
            <==> views(b@).contains(s)) by {
            lemma_contains_view(a@, s);
            lemma_contains_view(b@, s);
        }
        if r {
            assert(views(a@).to_set() =~= views(b@).to_set());
        } else if views(a@).to_set() == views(b@).to_set() {
            assert forall|i: int| 0 <= i < a@.len() implies contains_text(
                b@,
                #[trigger] a@[i]@,
            ) by {
                assert(views(a@)[i] == a@[i]@);
                assert(views(a@).contains(a@[i]@));
                assert(views(a@).to_set().contains(a@[i]@));
            }
            assert forall|i: int| 0 <= i < b@.len() implies contains_text(
                a@,
                #[trigger] b@[i]@,
            ) by {
                assert(views(b@)[i] == b@[i]@);
                assert(views(b@).contains(b@[i]@));
                assert(views(b@).to_set().contains(b@[i]@));
            }
        }
    }
    r
}

// ---- trimming ----

/// `s` without its leading characters of class `k`.
pub open spec fn trim_start(s: Seq<char>, k: Blank) -> Seq<char>
    decreases s.len(),
{
    if s.len() > 0 && k.spec_has(s[0]) {
        trim_start(s.skip(1), k)
    } else {
        s
    }
}

/// `s` without its trailing characters of class `k`.
pub open spec fn trim_end(s: Seq<char>, k: Blank) -> Seq<char>
    decreases s.len(),
{
    if s.len() > 0 && k.spec_has(s.last()) {
        trim_end(s.drop_last(), k)
    } else {
        s
    }
}

/// `s` without leading and trailing characters of class `k`.
pub open spec fn trim_by(s: Seq<char>, k: Blank) -> Seq<char> {
    trim_end(trim_start(s, k), k)
}

/// `s` without leading and trailing white space.
pub open spec fn trim(s: Seq<char>) -> Seq<char> {
    trim_by(s, Blank::White)
}

/// What leading trimming leaves is an end of the text that starts with no blank.
proof fn lemma_trim_start(s: Seq<char>, k: Blank)
    ensures
        trim_start(s, k).len() <= s.len(),
        trim_start(s, k) == s.skip(s.len() - trim_start(s, k).len()),
        trim_start(s, k).len() > 0 ==> !k.spec_has(trim_start(s, k)[0]),
    decreases s.len(),
{
    if s.len() > 0 && k.spec_has(s[0]) {
        lemma_trim_start(s.skip(1), k);
        let t = trim_start(s, k);
        assert(t =~= s.skip(s.len() - t.len()));
    } else {
        assert(s =~= s.skip(0));
    }
}

/// What trailing trimming leaves is a start of the text that ends in no blank.
proof fn lemma_trim_end(s: Seq<char>, k: Blank)
    ensures
        trim_end(s, k).len() <= s.len(),
        trim_end(s, k) == s.take(trim_end(s, k).len() as int),
        trim_end(s, k).len() > 0 ==> !k.spec_has(trim_end(s, k).last()),
    decreases s.len(),
{
    if s.len() > 0 && k.spec_has(s.last()) {
        lemma_trim_end(s.drop_last(), k);
        let t = trim_end(s, k);
        assert(t =~= s.take(t.len() as int));
    } else {
        assert(s =~= s.take(s.len() as int));
    }
}

/// Trimming twice is trimming once: no blank is left at either end. Trimming
/// brings in no character.
pub proof fn trimming_settles(s: Seq<char>, k: Blank, c: char)
    ensures
        trim_by(s, k).len() > 0 ==> !k.spec_has(trim_by(s, k)[0]) && !k.spec_has(
            trim_by(s, k).last(),
        ),
        trim_by(trim_by(s, k), k) == trim_by(s, k),
        trim_by(s, k).contains(c) ==> s.contains(c),
{
    let t = trim_start(s, k);
    let e = trim_by(s, k);
    lemma_trim_start(s, k);
    lemma_trim_end(t, k);
    assert forall|i: int| 0 <= i < e.len() implies s.contains(#[trigger] e[i]) by {
        assert(e[i] == t[i]);
        assert(t[i] == s[i + s.len() - t.len()]);
    }
    if e.len() > 0 {
        assert(e[0] == t[0]);
    }
}

/// Where the trimmed text stands inside `v`.
fn trim_bounds(v: &[char], k: Blank) -> (r: (usize, usize))
    ensures
        r.0 <= r.1 <= v@.len(),
        v@.subrange(r.0 as int, r.1 as int) == trim_by(v@, k),
{
    let mut i: usize = 0;
    assert(v@.skip(0) =~= v@);
    while i < v.len() && k.has(v[i])
        invariant
            i <= v@.len(),
            trim_start(v@, k) == trim_start(v@.skip(i as int), k),
        decreases v@.len() - i,
    {
        assert(v@.skip(i as int).skip(1) =~= v@.skip(i + 1));
        i += 1;
    }
    let mut j: usize = v.len();
    assert(v@.subrange(i as int, j as int) =~= v@.skip(i as int));
    while j > i && k.has(v[j - 1])
        invariant
            i <= j <= v@.len(),
            trim_by(v@, k) == trim_end(v@.subrange(i as int, j as int), k),
        decreases j,
    {
        assert(v@.subrange(i as int, j as int).drop_last() =~= v@.subrange(i as int, j - 1));
        j -= 1;
    }
    (i, j)
}

/// `s` trimmed of class `k` at both ends.
pub fn trim_text(s: &str, k: Blank) -> (r: String)
    ensures
        r@ == trim_by(s@, k),
{
    let v = chars_of(s);
    let b = trim_bounds(v.as_slice(), k);
    substring(v.as_slice(), b.0, b.1)
}

/// `s` without its leading characters of class `k`.
pub fn trim_front(s: &str, k: Blank) -> (r: String)
    ensures
        r@ == trim_start(s@, k),
{
    let v = chars_of(s);
    let mut i: usize = 0;
    assert(v@.skip(0) =~= v@);
    while i < v.len() && k.has(v[i])
        invariant
            i <= v@.len(),
            trim_start(v@, k) == trim_start(v@.skip(i as int), k),
        decreases v@.len() - i,
    {
        assert(v@.skip(i as int).skip(1) =~= v@.skip(i + 1));
        i += 1;
    }
    assert(v@.subrange(i as int, v@.len() as int) =~= v@.skip(i as int));
    substring(v.as_slice(), i, v.len())
}

// ---- splitting ----

/// `s` split at every character of class `k`; adjoining separators give empty pieces.
pub open spec fn pieces(s: Seq<char>, k: Blank) -> Seq<Seq<char>>
    decreases s.len(),
{
    if s.len() == 0 {
        seq![Seq::<char>::empty()]
    } else {
        let r = pieces(s.drop_last(), k);
        if k.spec_has(s.last()) {
            r.push(Seq::<char>::empty())
        } else {
            r.drop_last().push(r.last().push(s.last()))
        }
    }
}

/// The members of `ss` that are not empty, in order.
pub open spec fn nonempty(ss: Seq<Seq<char>>) -> Seq<Seq<char>>
    decreases ss.len(),
{
    if ss.len() == 0 {
        ss
    } else if ss.last().len() > 0 {
        nonempty(ss.drop_last()).push(ss.last())
    } else {
        nonempty(ss.drop_last())
    }
}

/// The words of `s`: its maximal runs without white space.
pub open spec fn words(s: Seq<char>) -> Seq<Seq<char>> {
    nonempty(pieces(s, Blank::White))
}

/// Splitting always gives at least one piece.
pub proof fn lemma_pieces_len(s: Seq<char>, k: Blank)
    ensures
        pieces(s, k).len() > 0,
    decreases s.len(),
{
    if s.len() > 0 {
        lemma_pieces_len(s.drop_last(), k);
    }
}

/// There is one piece more than there are characters to split at, and none of
/// these stands in a piece.
pub proof fn pieces_hold_no_separator(s: Seq<char>, c: char)
    ensures
        pieces(s, Blank::One(c)).len() == s.to_multiset().count(c) + 1,
        forall|i: int|
            0 <= i < pieces(s, Blank::One(c)).len() ==> !(#[trigger] pieces(
                s,
                Blank::One(c),
            )[i]).contains(c),
    decreases s.len(),
{
    broadcast use vstd::seq_lib::group_to_multiset_ensures;

    if s.len() > 0 {
        let head = s.drop_last();
        let p = pieces(head, Blank::One(c));
        pieces_hold_no_separator(head, c);
        assert(s =~= head.push(s.last()));
        lemma_push_contains(p.last(), s.last());
        assert(p.last() == p[p.len() - 1]);
    }
}

/// `s` split at every character of class `k`.
pub fn split_text(s: &str, k: Blank) -> (r: Vec<String>)
    ensures
        views(r@) == pieces(s@, k),
        r@.len() > 0,
{
    let v = chars_of(s);
    let mut done: Vec<String> = Vec::new();
    let mut cur = String::new();
    let mut i: usize = 0;
    assert(v@.take(0) =~= Seq::<char>::empty());
    assert(views(done@).push(cur@) =~= pieces(v@.take(0), k));
    while i < v.len()
        invariant
            i <= v@.len(),
            views(done@).push(cur@) == pieces(v@.take(i as int), k),
        decreases v@.len() - i,
    {
        let c = v[i];
        let ghost before = views(done@).push(cur@);
        assert(v@.take(i + 1).drop_last() =~= v@.take(i as int));
        if k.has(c) {
            done.push(cur);
            cur = String::new();
            assert(views(done@) =~= before);
        } else {
            cur.push(c);
            assert(before.drop_last() =~= views(done@));
        }
        i += 1;
    }
    assert(v@.take(i as int) =~= v@);
    let ghost all = views(done@).push(cur@);
    done.push(cur);
    assert(views(done@) =~= all);
    done
}

/// The words of `s`.
pub fn split_words(s: &str) -> (r: Vec<String>)
    ensures
        views(r@) == words(s@),
{
    let all = split_text(s, Blank::White);
    let mut out: Vec<String> = Vec::new();
    let mut i: usize = 0;
    assert(views(all@).take(0) =~= Seq::<Seq<char>>::empty());
    assert(views(out@) =~= nonempty(views(all@).take(0)));
    while i < all.len()
        invariant
            i <= all@.len(),
            views(out@) == nonempty(views(all@).take(i as int)),
        decreases all@.len() - i,
    {
        assert(views(all@).take(i + 1).drop_last() =~= views(all@).take(i as int));
        let ghost before = views(out@);
        if !all[i].as_str().is_empty() {
            out.push(all[i].clone());
            assert(views(out@) =~= before.push(all@[i as int]@));
        }
        i += 1;
    }
    assert(views(all@).take(i as int) =~= views(all@));
    out
}

/// `ss` one after the other with `sep` between.
pub open spec fn join(ss: Seq<Seq<char>>, sep: Seq<char>) -> Seq<char>
    decreases ss.len(),
{
    if ss.len() == 0 {
        Seq::empty()
    } else if ss.len() == 1 {
        ss[0]
    } else {
        join(ss.drop_last(), sep) + sep + ss.last()
    }
}

/// How many bytes a character takes in UTF-8.
pub open spec fn width(c: char) -> nat {
    if (c as u32) < 0x80 {
        1
    } else if (c as u32) < 0x800 {
        2
    } else if (c as u32) < 0x10000 {
        3
    } else {
        4
    }
}

/// How many bytes a text takes in UTF-8.
pub open spec fn utf8_len(s: Seq<char>) -> nat
    decreases s.len(),
{
    if s.len() == 0 {
        0
    } else {
        utf8_len(s.drop_last()) + width(s.last())
    }
}

/// How many bytes a character takes in UTF-8.
pub fn char_width(c: char) -> (r: usize)
    ensures
        r == width(c),
        1 <= r <= 4,
{
    if (c as u32) < 0x80 {
        1
    } else if (c as u32) < 0x800 {
        2
    } else if (c as u32) < 0x10000 {
        3
    } else {
        4
    }
}

/// No character is without a byte.
pub proof fn lemma_utf8_len(s: Seq<char>)
    ensures
        utf8_len(s) >= s.len(),
    decreases s.len(),
{
    if s.len() > 0 {
        lemma_utf8_len(s.drop_last());
    }
}

/// `v` one after the other with `sep` between.
pub fn join_text(v: &Vec<String>, sep: &str) -> (r: String)
    ensures
        r@ == join(views(v@), sep@),
{
    let mut out = String::new();
    let mut i: usize = 0;
    while i < v.len()
        invariant
            i <= v@.len(),
            out@ == join(views(v@).take(i as int), sep@),
        decreases v@.len() - i,
    {
        assert(views(v@).take(i + 1).drop_last() =~= views(v@).take(i as int));
        if i > 0 {
            out.append(sep);
        }
        out.append(v[i].as_str());
        i += 1;
    }
    assert(views(v@).take(i as int) =~= views(v@));
    out
}

// ---- prefixes and parts ----

/// Whether `s` begins with `p`.
pub open spec fn starts_with(s: Seq<char>, p: Seq<char>) -> bool {
    p.len() <= s.len() && s.take(p.len() as int) == p
}

/// Whether `s` ends with `p`.
pub open spec fn ends_with(s: Seq<char>, p: Seq<char>) -> bool {
    p.len() <= s.len() && s.skip(s.len() - p.len()) == p
}

/// Whether `s` holds `p` at index `i`.
pub open spec fn holds_at(s: Seq<char>, p: Seq<char>, i: int) -> bool {
    0 <= i && i + p.len() <= s.len() && s.subrange(i, i + p.len()) == p
}

/// Whether `p` stands anywhere in `s`.
pub open spec fn contains(s: Seq<char>, p: Seq<char>) -> bool {
    exists|i: int| holds_at(s, p, i)
}

/// Whether `p` stands at index `at` of `v`.
fn part_at(v: &[char], p: &[char], at: usize) -> (r: bool)
    requires
        at <= v@.len(),
    ensures
        r == holds_at(v@, p@, at as int),
{
    let n: usize = v.len();
    if n - at < p.len() {
        return false;
    }
    let mut i: usize = 0;
    while i < p.len()
        invariant
            i <= p@.len(),
            n == v@.len(),
            at + p@.len() <= n,
            forall|j: int| 0 <= j < i ==> v@[at + j] == #[trigger] p@[j],
        decreases p@.len() - i,
    {
        if v[at + i] != p[i] {
            assert(v@.subrange(at as int, at + p@.len())[i as int] != p@[i as int]);
            return false;
        }
        i += 1;
    }
    assert(v@.subrange(at as int, at + p@.len()) =~= p@);
    true
}

/// Whether `s` begins with `p`.
pub fn begins_with(s: &str, p: &str) -> (r: bool)
    ensures
        r == starts_with(s@, p@),
{
    let v = chars_of(s);
    let w = chars_of(p);
    if w.len() <= v.len() {
        assert(v@.subrange(0, w@.len() as int) =~= v@.take(w@.len() as int));
    }
    part_at(v.as_slice(), w.as_slice(), 0)
}

/// Whether `s` ends with `p`.
pub fn closes_with(s: &str, p: &str) -> (r: bool)
    ensures
        r == ends_with(s@, p@),
{
    let v = chars_of(s);
    let w = chars_of(p);
    if w.len() > v.len() {
        return false;
    }
    let at: usize = v.len() - w.len();
    assert(v@.subrange(at as int, v@.len() as int) =~= v@.skip(at as int));
    part_at(v.as_slice(), w.as_slice(), at)
}

/// Whether `p` stands anywhere in `s`.
pub fn has_part(s: &str, p: &str) -> (r: bool)
    ensures
        r == contains(s@, p@),
{
    let v = chars_of(s);
    let w = chars_of(p);
    if v.len() < w.len() {
        return false;
    }
    let last: usize = v.len() - w.len();
    let mut i: usize = 0;
    while i <= last
        invariant
            v@ == s@,
            w@ == p@,
            last == v@.len() - w@.len(),
            i <= last + 1,
            last < usize::MAX || i <= last,
            forall|j: int| 0 <= j < i ==> !holds_at(v@, w@, j),
        decreases last + 1 - i,
    {
        if part_at(v.as_slice(), w.as_slice(), i) {
            return true;
        }
        if i == last {
            return false;
        }
        i += 1;
    }
    false
}

/// `s` without the prefix `p`, or nothing where it does not begin with it.
pub fn strip_prefix(s: &str, p: &str) -> (r: Option<String>)
    ensures
        r is Some <==> starts_with(s@, p@),
        r matches Some(t) ==> t@ == s@.skip(p@.len() as int),
{
    if begins_with(s, p) {
        let v = chars_of(s);
        let n: usize = chars_of(p).len();
        let t = substring(v.as_slice(), n, v.len());
        assert(t@ =~= s@.skip(p@.len() as int));
        Some(t)
    } else {
        None
    }
}

// ---- case ----

/// Whether every character is ASCII.
pub open spec fn all_ascii(s: Seq<char>) -> bool {
    forall|i: int| 0 <= i < s.len() ==> (#[trigger] s[i] as u32) < 128
}

/// `c` with an ASCII lower-case letter made upper-case.
pub open spec fn ascii_up(c: char) -> char {
    if 'a' <= c <= 'z' {
        ((c as u32 - 32) as u32) as char
    } else {
        c
    }
}

/// `c` with an ASCII upper-case letter made lower-case.
pub open spec fn ascii_down(c: char) -> char {
    if 'A' <= c <= 'Z' {
        ((c as u32 + 32) as u32) as char
    } else {
        c
    }
}

/// `s` with its ASCII letters in upper case.
pub open spec fn ascii_upper(s: Seq<char>) -> Seq<char> {
    Seq::new(s.len(), |i: int| ascii_up(s[i]))
}

/// `s` with its ASCII letters in lower case.
pub open spec fn ascii_lower(s: Seq<char>) -> Seq<char> {
    Seq::new(s.len(), |i: int| ascii_down(s[i]))
}

/// `s` with its ASCII letters in upper case.
pub fn ascii_up_text(s: &str) -> (r: String)
    ensures
        r@ == ascii_upper(s@),
{
    let v = chars_of(s);
    let mut out = String::new();
    let mut i: usize = 0;
    while i < v.len()
        invariant
            i <= v@.len(),
            out@ == ascii_upper(v@.take(i as int)),
        decreases v@.len() - i,
    {
        let c = v[i];
        let up: char = if 'a' <= c && c <= 'z' {
            ((c as u32 - 32) as u8) as char
        } else {
            c
        };
        let ghost before = out@;
        out.push(up);
        assert(out@ =~= ascii_upper(v@.take(i + 1)));
        i += 1;
    }
    assert(v@.take(i as int) =~= v@);
    out
}

/// `s` in upper case.
pub open spec fn upper(s: Seq<char>) -> Seq<char> {
    if all_ascii(s) {
        ascii_upper(s)
    } else {
        unicode_upper(s)
    }
}

/// `s` in lower case.
pub open spec fn lower(s: Seq<char>) -> Seq<char> {
    if all_ascii(s) {
        ascii_lower(s)
    } else {
        unicode_lower(s)
    }
}

/// Whether no letter `a` to `z` stands in `s`.
pub open spec fn no_small(s: Seq<char>) -> bool {
    forall|i: int| 0 <= i < s.len() ==> !('a' <= #[trigger] s[i] <= 'z')
}

/// `str::to_uppercase`: ASCII text has each letter `a` to `z` replaced by its
/// capital and the rest kept; other text follows the Unicode mapping, which is
/// only named here. Whatever the text, no letter `a` to `z` is left: each of
/// them has a capital, and no character has one of them for its capital.
#[verifier::external_body]
pub(crate) fn to_upper(s: &str) -> (r: String)
    ensures
        r@ == (if all_ascii(s@) {
            ascii_upper(s@)
        } else {
            unicode_upper(s@)
        }),
        no_small(r@),
{
    s.to_uppercase()
}

/// `str::to_lowercase`: ASCII text has each letter `A` to `Z` replaced by its
/// small form and the rest kept; other text follows the Unicode mapping, which
/// is only named here.
#[verifier::external_body]
pub(crate) fn to_lower(s: &str) -> (r: String)
    ensures
        r@ == (if all_ascii(s@) {
            ascii_lower(s@)
        } else {
            unicode_lower(s@)
        }),
{
    s.to_lowercase()
}

// ---- hexadecimal ----

/// Whether `c` is a hexadecimal digit.
pub open spec fn is_hex_digit(c: char) -> bool {
    '0' <= c <= '9' || 'a' <= c <= 'f' || 'A' <= c <= 'F'
}

/// The value of a hexadecimal digit.
pub open spec fn digit_value(c: char) -> nat {
    if '0' <= c <= '9' {
        (c as u32 - '0' as u32) as nat
    } else if 'a' <= c <= 'f' {
        (c as u32 - 'a' as u32 + 10) as nat
    } else {
        (c as u32 - 'A' as u32 + 10) as nat
    }
}

/// The upper-case digit of a value below sixteen.
pub open spec fn digit_char(d: nat) -> char {
    if d < 10 {
        ((d + 48) as u32) as char
    } else {
        ((d + 55) as u32) as char
    }
}

/// Whether every character is a hexadecimal digit.
pub open spec fn all_hex(s: Seq<char>) -> bool {
    forall|i: int| 0 <= i < s.len() ==> is_hex_digit(#[trigger] s[i])
}

/// The number that a run of hexadecimal digits writes.
pub open spec fn hex_number(s: Seq<char>) -> nat
    decreases s.len(),
{
    if s.len() == 0 {
        0
    } else {
        hex_number(s.drop_last()) * 16 + digit_value(s.last())
    }
}

/// The number that `s` writes in hexadecimal: an optional plus sign, then one
/// or more digits and nothing else.
pub open spec fn parse_hex(s: Seq<char>) -> Option<nat> {
    let body = if s.len() > 0 && s[0] == '+' {
        s.skip(1)
    } else {
        s
    };
    if body.len() > 0 && all_hex(body) {
        Some(hex_number(body))
    } else {
        None
    }
}

/// The number that `s` writes in hexadecimal where it is at most `max`.
pub open spec fn hex_within(s: Seq<char>, max: nat) -> Option<nat> {
    match parse_hex(s) {
        Some(n) => if n <= max {
            Some(n)
        } else {
            None
        },
        None => None,
    }
}

/// The number that `s` writes in bare hexadecimal digits, without a sign, where
/// it is at most `max`.
pub open spec fn bare_hex(s: Seq<char>, max: nat) -> Option<nat> {
    if s.len() > 0 && all_hex(s) && hex_number(s) <= max {
        Some(hex_number(s))
    } else {
        None
    }
}

/// The value of `c` as a hexadecimal digit.
pub fn digit_of(c: char) -> (r: Option<u32>)
    ensures
        r is Some <==> is_hex_digit(c),
        r matches Some(d) ==> d == digit_value(c) && d < 16,
{
    if '0' <= c && c <= '9' {
        Some(c as u32 - '0' as u32)
    } else if 'a' <= c && c <= 'f' {
        Some(c as u32 - 'a' as u32 + 10)
    } else if 'A' <= c && c <= 'F' {
        Some(c as u32 - 'A' as u32 + 10)
    } else {
        None
    }
}

/// The number that `v` writes in hexadecimal where it is at most `max`.
pub fn hex_of(v: &[char], max: u32) -> (r: Option<u32>)
    ensures
        r is Some <==> hex_within(v@, max as nat) is Some,
        r matches Some(n) ==> hex_within(v@, max as nat) == Some(n as nat),
{
    let from: usize = if v.len() > 0 && v[0] == '+' {
        1
    } else {
        0
    };
    let ghost body = v@.skip(from as int);
    assert(from == 0 ==> body =~= v@);
    if from == v.len() {
        return None;
    }
    let mut n: u64 = 0;
    let mut over: bool = false;
    let mut i: usize = from;
    assert(body.take(0) =~= Seq::<char>::empty());
    while i < v.len()
        invariant
            from <= i <= v@.len(),
            from == (if v@.len() > 0 && v@[0] == '+' {
                1int
            } else {
                0int
            }),
            body == v@.skip(from as int),
            from == 0 ==> body == v@,
            all_hex(body.take(i - from)),
            over ==> hex_number(body.take(i - from)) > max,
            !over ==> n == hex_number(body.take(i - from)) && n <= max,
        decreases v@.len() - i,
    {
        let ghost here = body.take(i - from);
        let ghost next = body.take(i - from + 1);
        assert(next.drop_last() =~= here);
        assert(next.last() == v@[i as int]);
        match digit_of(v[i]) {
            None => {
                assert(!is_hex_digit(body[i - from]));
                return None;
            },
            Some(d) => {
                assert forall|j: int| 0 <= j < next.len() implies is_hex_digit(
                    #[trigger] next[j],
                ) by {
                    if j < here.len() {
                        assert(next[j] == here[j]);
                    }
                }
                if !over {
                    n = n * 16 + d as u64;
                    if n > max as u64 {
                        over = true;
                    }
                }
            },
        }
        i += 1;
    }
    assert(body.take(i - from) =~= body);
    if over {
        None
    } else {
        Some(n as u32)
    }
}

/// The number that `s` writes in hexadecimal where it is at most `max`.
pub fn parse_hex_text(s: &str, max: u32) -> (r: Option<u32>)
    ensures
        r is Some <==> hex_within(s@, max as nat) is Some,
        r matches Some(n) ==> hex_within(s@, max as nat) == Some(n as nat),
{
    let v = chars_of(s);
    hex_of(v.as_slice(), max)
}

/// The number that `v` writes in bare hexadecimal digits, without a sign, where
/// it is at most `max`.
pub fn bare_hex_of(v: &[char], max: u32) -> (r: Option<u32>)
    ensures
        r is Some <==> bare_hex(v@, max as nat) is Some,
        r matches Some(n) ==> bare_hex(v@, max as nat) == Some(n as nat),
{
    if v.len() > 0 && v[0] == '+' {
        assert(!is_hex_digit(v@[0]));
        None
    } else {
        hex_of(v, max)
    }
}

/// The number that `s` writes in bare hexadecimal digits, without a sign, where
/// it is at most `max`.
pub fn bare_hex_text(s: &str, max: u32) -> (r: Option<u32>)
    ensures
        r is Some <==> bare_hex(s@, max as nat) is Some,
        r matches Some(n) ==> bare_hex(s@, max as nat) == Some(n as nat),
{
    let v = chars_of(s);
    bare_hex_of(v.as_slice(), max)
}

/// Whether every character of `s` is a hexadecimal digit.
pub fn is_all_hex(s: &str) -> (r: bool)
    ensures
        r == all_hex(s@),
{
    let v = chars_of(s);
    let mut i: usize = 0;
    while i < v.len()
        invariant
            i <= v@.len(),
            v@ == s@,
            forall|j: int| 0 <= j < i ==> is_hex_digit(#[trigger] v@[j]),
        decreases v@.len() - i,
    {
        if digit_of(v[i]).is_none() {
            assert(!is_hex_digit(s@[i as int]));
            return false;
        }
        i += 1;
    }
    true
}

/// `n` in upper-case hexadecimal, zero-padded to at least `width` digits.
pub open spec fn hex_padded(n: nat, width: nat) -> Seq<char>
    decreases n + width,
{
    if n == 0 && width == 0 {
        Seq::empty()
    } else {
        hex_padded(
            n / 16,
            if width > 0 {
                (width - 1) as nat
            } else {
                0
            },
        ).push(digit_char(n % 16))
    }
}

/// The upper-case digit of a value below sixteen.
pub fn digit_text(d: u32) -> (r: char)
    requires
        d < 16,
    ensures
        r == digit_char(d as nat),
        is_hex_digit(r),
        digit_value(r) == d,
{
    match d {
        0 => '0',
        1 => '1',
        2 => '2',
        3 => '3',
        4 => '4',
        5 => '5',
        6 => '6',
        7 => '7',
        8 => '8',
        9 => '9',
        10 => 'A',
        11 => 'B',
        12 => 'C',
        13 => 'D',
        14 => 'E',
        _ => 'F',
    }
}

/// Appends `n` in upper-case hexadecimal, zero-padded to at least `width` digits.
pub fn push_hex_wide(out: &mut String, n: u64, width: usize)
    requires
        width <= 8,
    ensures
        final(out)@ == old(out)@ + hex_padded(n as nat, width as nat),
    decreases n + width,
{
    if n == 0 && width == 0 {
        assert(out@ + hex_padded(0, 0) =~= out@);
        return ;
    }
    let w: usize = if width > 0 {
        width - 1
    } else {
        0
    };
    let ghost start = out@;
    push_hex_wide(out, n / 16, w);
    let d: u64 = n % 16;
    out.push(digit_text(d as u32));
    assert(out@ =~= start + hex_padded(n as nat, width as nat));
}

/// Appends `n` in upper-case hexadecimal, zero-padded to at least `width` digits.
pub fn push_hex(out: &mut String, n: u32, width: usize)
    requires
        width <= 8,
    ensures
        final(out)@ == old(out)@ + hex_padded(n as nat, width as nat),
{
    push_hex_wide(out, n as u64, width);
}

/// `n` in upper-case hexadecimal, zero-padded to at least `width` digits.
pub fn hex_text(n: u32, width: usize) -> (r: String)
    requires
        width <= 8,
    ensures
        r@ == hex_padded(n as nat, width as nat),
{
    let mut out = String::new();
    push_hex(&mut out, n, width);
    assert(out@ =~= hex_padded(n as nat, width as nat));
    out
}

/// A digit reads back as the value it was written for.
pub proof fn lemma_digit_round_trip(d: nat)
    requires
        d < 16,
    ensures
        is_hex_digit(digit_char(d)),
        digit_value(digit_char(d)) == d,
        digit_char(d) != '+',
{
}

/// Padded hexadecimal is made of digits and writes the number it was made from.
pub proof fn lemma_hex_padded(n: nat, width: nat)
    ensures
        all_hex(hex_padded(n, width)),
        hex_number(hex_padded(n, width)) == n,
        hex_padded(n, width).len() >= width,
    decreases n + width,
{
    if n == 0 && width == 0 {
    } else {
        let w = if width > 0 {
            (width - 1) as nat
        } else {
            0
        };
        lemma_hex_padded(n / 16, w);
        lemma_digit_round_trip(n % 16);
        let head = hex_padded(n / 16, w);
        let s = head.push(digit_char(n % 16));
        assert(s.drop_last() =~= head);
        assert forall|i: int| 0 <= i < s.len() implies is_hex_digit(#[trigger] s[i]) by {
            if i < head.len() {
                assert(s[i] == head[i]);
            }
        }
    }
}

/// Reading back padded hexadecimal gives the number that was written.
pub proof fn hex_reads_back(n: nat, width: nat)
    requires
        width > 0,
    ensures
        parse_hex(hex_padded(n, width)) == Some(n),
{
    lemma_hex_padded(n, width);
    let s = hex_padded(n, width);
    assert(is_hex_digit(s[0]));
}

// ---- decimal ----

/// `n` in decimal.
pub open spec fn decimal(n: nat) -> Seq<char>
    decreases n,
{
    if n < 10 {
        seq![digit_char(n)]
    } else {
        decimal(n / 10).push(digit_char(n % 10))
    }
}

/// Appends `n` in decimal.
pub fn push_decimal(out: &mut String, n: u64)
    ensures
        final(out)@ == old(out)@ + decimal(n as nat),
    decreases n,
{
    let ghost start = out@;
    if n < 10 {
        out.push(digit_text(n as u32));
        assert(out@ =~= start + decimal(n as nat));
    } else {
        push_decimal(out, n / 10);
        out.push(digit_text((n % 10) as u32));
        assert(out@ =~= start + decimal(n as nat));
    }
}

/// `n` in decimal.
pub fn decimal_text(n: u64) -> (r: String)
    ensures
        r@ == decimal(n as nat),
{
    let mut out = String::new();
    push_decimal(&mut out, n);
    assert(out@ =~= decimal(n as nat));
    out
}

/// Whether `c` is a decimal digit.
pub open spec fn is_digit(c: char) -> bool {
    '0' <= c <= '9'
}

/// Whether every character is a decimal digit.
pub open spec fn all_digits(s: Seq<char>) -> bool {
    forall|i: int| 0 <= i < s.len() ==> is_digit(#[trigger] s[i])
}

/// The number that a run of decimal digits writes.
pub open spec fn decimal_number(s: Seq<char>) -> nat
    decreases s.len(),
{
    if s.len() == 0 {
        0
    } else {
        decimal_number(s.drop_last()) * 10 + digit_value(s.last())
    }
}

/// The number that `s` writes in decimal: an optional plus sign, then one or
/// more digits and nothing else.
pub open spec fn parse_decimal(s: Seq<char>) -> Option<nat> {
    let body = if s.len() > 0 && s[0] == '+' {
        s.skip(1)
    } else {
        s
    };
    if body.len() > 0 && all_digits(body) {
        Some(decimal_number(body))
    } else {
        None
    }
}

/// The number that `s` writes in decimal where it is at most `max`.
pub fn parse_decimal_text(s: &str, max: u64) -> (r: Option<u64>)
    ensures
        match r {
            Some(n) => n <= max && parse_decimal(s@) == Some(n as nat),
            None => parse_decimal(s@) is None || parse_decimal(s@)->0 > max,
        },
{
    let v = chars_of(s);
    let from: usize = if v.len() > 0 && v[0] == '+' {
        1
    } else {
        0
    };
    let ghost body = v@.skip(from as int);
    assert(from == 0 ==> body =~= v@);
    if from == v.len() {
        return None;
    }
    let mut n: u128 = 0;
    let mut over: bool = false;
    let mut i: usize = from;
    assert(body.take(0) =~= Seq::<char>::empty());
    while i < v.len()
        invariant
            from <= i <= v@.len(),
            v@ == s@,
            from == (if v@.len() > 0 && v@[0] == '+' {
                1int
            } else {
                0int
            }),
            body == v@.skip(from as int),
            from == 0 ==> body == v@,
            forall|j: int| 0 <= j < i - from ==> is_digit(#[trigger] body[j]),
            over ==> decimal_number(body.take(i - from)) > max,
            !over ==> n == decimal_number(body.take(i - from)) && n <= max,
        decreases v@.len() - i,
    {
        let ghost here = body.take(i - from);
        let ghost next = body.take(i - from + 1);
        assert(next.drop_last() =~= here);
        assert(next.last() == v@[i as int]);
        let c = v[i];
        if !('0' <= c && c <= '9') {
            assert(!is_digit(body[i - from]));
            return None;
        }
        if !over {
            n = n * 10 + (c as u128 - '0' as u128);
            if n > max as u128 {
                over = true;
            }
        }
        i += 1;
    }
    assert(body.take(i - from) =~= body);
    if over {
        None
    } else {
        Some(n as u64)
    }
}

/// `a` followed by `b`.
pub fn concat(a: &str, b: &str) -> (r: String)
    ensures
        r@ == a@ + b@,
{
    let mut out = a.to_owned();
    out.append(b);
    out
}

// ---- lexicographic order ----

/// Whether `a` stands before `b` in the order of their characters.
pub open spec fn lex_less(a: Seq<char>, b: Seq<char>) -> bool
    decreases a.len(),
{
    if b.len() == 0 {
        false
    } else if a.len() == 0 {
        true
    } else if a[0] != b[0] {
        a[0] < b[0]
    } else {
        lex_less(a.skip(1), b.skip(1))
    }
}

/// The order is total: of two different texts one stands before the other.
pub proof fn lemma_lex_total(a: Seq<char>, b: Seq<char>)
    ensures
        a == b || lex_less(a, b) || lex_less(b, a),
        !(lex_less(a, b) && lex_less(b, a)),
        a == b ==> !lex_less(a, b),
    decreases a.len(),
{
    if a.len() == 0 || b.len() == 0 {
        if a.len() == 0 && b.len() == 0 {
            assert(a =~= b);
        }
    } else if a[0] == b[0] {
        lemma_lex_total(a.skip(1), b.skip(1));
        if a.skip(1) == b.skip(1) {
            assert(a =~= seq![a[0]] + a.skip(1));
            assert(b =~= seq![b[0]] + b.skip(1));
        }
    }
}

/// The order is transitive.
pub proof fn lemma_lex_trans(a: Seq<char>, b: Seq<char>, c: Seq<char>)
    requires
        lex_less(a, b),
        lex_less(b, c),
    ensures
        lex_less(a, c),
    decreases a.len(),
{
    if a.len() > 0 && b.len() > 0 && c.len() > 0 && a[0] == b[0] && b[0] == c[0] {
        lemma_lex_trans(a.skip(1), b.skip(1), c.skip(1));
    }
}

/// Whether `a` stands before `b` in the order of their characters.
pub fn text_less(a: &str, b: &str) -> (r: bool)
    ensures
        r == lex_less(a@, b@),
{
    let v = chars_of(a);
    let w = chars_of(b);
    let mut i: usize = 0;
    assert(v@.skip(0) =~= v@);
    assert(w@.skip(0) =~= w@);
    while i < v.len() && i < w.len()
        invariant
            i <= v@.len(),
            i <= w@.len(),
            lex_less(v@, w@) == lex_less(v@.skip(i as int), w@.skip(i as int)),
            v@ == a@,
            w@ == b@,
        decreases v@.len() - i,
    {
        if v[i] != w[i] {
            return v[i] < w[i];
        }
        assert(v@.skip(i as int).skip(1) =~= v@.skip(i + 1));
        assert(w@.skip(i as int).skip(1) =~= w@.skip(i + 1));
        i += 1;
    }
    i < w.len()
}

// ---- sorting ----

/// `x` put into its place in a sorted sequence, behind those that equal it.
pub open spec fn insert_sorted(v: Seq<Seq<char>>, x: Seq<char>) -> Seq<Seq<char>>
    decreases v.len(),
{
    if v.len() > 0 && lex_less(x, v.last()) {
        insert_sorted(v.drop_last(), x).push(v.last())
    } else {
        v.push(x)
    }
}

/// The texts of `v` in ascending order.
pub open spec fn sorted_texts(v: Seq<Seq<char>>) -> Seq<Seq<char>>
    decreases v.len(),
{
    if v.len() == 0 {
        v
    } else {
        insert_sorted(sorted_texts(v.drop_last()), v.last())
    }
}

/// Whether no text stands before an earlier one.
pub open spec fn is_ascending(v: Seq<Seq<char>>) -> bool {
    forall|i: int, j: int| 0 <= i < j < v.len() ==> !lex_less(#[trigger] v[j], #[trigger] v[i])
}

/// Putting a text into its place keeps the order and adds that text.
pub proof fn lemma_insert_sorted(v: Seq<Seq<char>>, x: Seq<char>)
    requires
        is_ascending(v),
    ensures
        is_ascending(insert_sorted(v, x)),
        insert_sorted(v, x).to_multiset() =~= v.to_multiset().insert(x),
        insert_sorted(v, x).len() == v.len() + 1,
    decreases v.len(),
{
    broadcast use vstd::seq_lib::group_to_multiset_ensures;

    if v.len() > 0 && lex_less(x, v.last()) {
        let head = v.drop_last();
        let last = v.last();
        assert(is_ascending(head)) by {
            assert forall|i: int, j: int| 0 <= i < j < head.len() implies !lex_less(
                #[trigger] head[j],
                #[trigger] head[i],
            ) by {
                assert(head[j] == v[j] && head[i] == v[i]);
            }
        }
        lemma_insert_sorted(head, x);
        let r = insert_sorted(head, x);
        assert(v =~= head.push(last));
        let out = r.push(last);
        assert forall|i: int, j: int| 0 <= i < j < out.len() implies !lex_less(
            #[trigger] out[j],
            #[trigger] out[i],
        ) by {
            if j == r.len() {
                assert(r.to_multiset().count(r[i]) > 0) by {
                    assert(r.contains(r[i]));
                }
                if r[i] != x {
                    assert(head.to_multiset().count(r[i]) > 0);
                    assert(head.contains(r[i]));
                    let k = choose|k: int| 0 <= k < head.len() && head[k] == r[i];
                    assert(v[k] == r[i] && v[v.len() - 1] == last);
                } else {
                    lemma_lex_total(x, last);
                }
            } else {
                assert(out[j] == r[j] && out[i] == r[i]);
            }
        }
    } else {
        let out = v.push(x);
        assert forall|i: int, j: int| 0 <= i < j < out.len() implies !lex_less(
            #[trigger] out[j],
            #[trigger] out[i],
        ) by {
            if j == v.len() {
                if lex_less(x, v[i]) {
                    let last = v.last();
                    if i < v.len() - 1 {
                        assert(!lex_less(v[v.len() - 1], v[i]));
                        lemma_lex_total(v[i], last);
                        if v[i] != last {
                            lemma_lex_trans(x, v[i], last);
                        }
                    }
                }
            }
        }
    }
}

/// Sorting gives the same texts in ascending order.
pub proof fn sorted_texts_are_sorted(v: Seq<Seq<char>>)
    ensures
        is_ascending(sorted_texts(v)),
        sorted_texts(v).to_multiset() =~= v.to_multiset(),
        sorted_texts(v).len() == v.len(),
    decreases v.len(),
{
    broadcast use vstd::seq_lib::group_to_multiset_ensures;

    if v.len() > 0 {
        sorted_texts_are_sorted(v.drop_last());
        lemma_insert_sorted(sorted_texts(v.drop_last()), v.last());
        assert(v =~= v.drop_last().push(v.last()));
    }
}

/// Puts `x` into its place in a sorted list.
fn insert_in_order(v: &mut Vec<String>, x: String)
    ensures
        views(final(v)@) == insert_sorted(views(old(v)@), x@),
{
    let ghost all = views(v@);
    let mut n: usize = v.len();
    assert(all.take(n as int) =~= all);
    assert(all.skip(n as int) =~= Seq::<Seq<char>>::empty());
    assert(insert_sorted(all, x@) =~= insert_sorted(all.take(n as int), x@) + all.skip(n as int));
    while n > 0 && text_less(x.as_str(), v[n - 1].as_str())
        invariant
            n <= v@.len(),
            all == views(v@),
            insert_sorted(all, x@) == insert_sorted(all.take(n as int), x@) + all.skip(n as int),
        decreases n,
    {
        let ghost t = all.take(n as int);
        assert(t.last() == v@[n - 1]@);
        assert(t.drop_last() =~= all.take(n - 1));
        assert(insert_sorted(all.take(n - 1), x@).push(t.last()) + all.skip(n as int)
            =~= insert_sorted(all.take(n - 1), x@) + all.skip(n - 1));
        n -= 1;
    }
    proof {
        let t = all.take(n as int);
        if n > 0 {
            assert(t.last() == v@[n - 1]@);
        }
        assert(insert_sorted(t, x@) == t.push(x@));
    }
    let ghost xv = x@;
    v.insert(n, x);
    assert(views(v@) =~= all.take(n as int).push(xv) + all.skip(n as int));
}

/// The texts of `v` in ascending order.
pub fn sort_strings(v: &Vec<String>) -> (r: Vec<String>)
    ensures
        views(r@) == sorted_texts(views(v@)),
{
    let ghost all = views(v@);
    let mut out: Vec<String> = Vec::new();
    let mut i: usize = 0;
    assert(all.take(0) =~= Seq::<Seq<char>>::empty());
    assert(views(out@) =~= sorted_texts(all.take(0)));
    while i < v.len()
        invariant
            i <= v@.len(),
            all == views(v@),
            views(out@) == sorted_texts(all.take(i as int)),
        decreases v@.len() - i,
    {
        assert(all.take(i + 1).drop_last() =~= all.take(i as int));
        assert(all.take(i + 1).last() == v@[i as int]@);
        insert_in_order(&mut out, v[i].clone());
        i += 1;
    }
    assert(all.take(i as int) =~= all);
    out
}

/// Texts that differ still differ with the same text behind them.
pub proof fn lemma_same_tail(a: Seq<char>, b: Seq<char>, tail: Seq<char>)
    requires
        a != b,
    ensures
        a + tail != b + tail,
{
    if a + tail == b + tail {
        assert((a + tail).len() == (b + tail).len());
        assert(a =~= (a + tail).take(a.len() as int));
        assert(b =~= (b + tail).take(b.len() as int));
    }
}

// ---- how numbers and words are written ----

/// The sixteen digits stand in ascending order, from `0` to `9` and from `A` to
/// `F`, and the small letters count as the capitals.
pub proof fn digits_ascend(d: nat, c: char)
    requires
        d < 15,
    ensures
        digit_char(0) == '0',
        digit_char(9) == '9',
        digit_char(10) == 'A',
        digit_char(15) == 'F',
        digit_char(d) < digit_char(d + 1),
        'a' <= c <= 'f' ==> digit_value(c) == digit_value(ascii_up(c)),
        is_hex_digit(c) ==> digit_char(digit_value(c)) == ascii_up(c),
{
}

/// A byte that is put behind a number takes two more digits.
pub proof fn lemma_hex_behind(n: nat, width: nat, b: nat)
    requires
        b < 256,
    ensures
        hex_padded(n * 256 + b, width + 2) == hex_padded(n, width) + hex_padded(b, 2),
{
    let m = n * 256 + b;
    assert(m / 16 == n * 16 + b / 16 && m % 16 == b % 16);
    assert((m / 16) / 16 == n && (m / 16) % 16 == b / 16);
    reveal_with_fuel(hex_padded, 3);
    assert(b / 16 / 16 == 0);
    assert(hex_padded(m, width + 2) =~= hex_padded(n, width) + hex_padded(b, 2));
}

/// Two digits more are a byte more.
pub proof fn lemma_number_behind(s: Seq<char>, b: nat)
    requires
        b < 256,
    ensures
        hex_number(s + hex_padded(b, 2)) == hex_number(s) * 256 + b,
{
    let t = hex_padded(b, 2);
    reveal_with_fuel(hex_padded, 3);
    assert(b / 16 / 16 == 0);
    lemma_digit_round_trip(b / 16);
    lemma_digit_round_trip(b % 16);
    let one = s.push(digit_char(b / 16));
    let two = one.push(digit_char(b % 16));
    assert(b / 16 % 16 == b / 16);
    assert(t =~= seq![digit_char(b / 16), digit_char(b % 16)]);
    assert(s + t =~= two);
    assert(two.drop_last() =~= one);
    assert(one.drop_last() =~= s);
    assert(hex_number(one) == hex_number(s) * 16 + b / 16);
    assert(hex_number(two) == hex_number(one) * 16 + b % 16);
}

/// Whether no white space stands in `s`.
pub open spec fn is_word(s: Seq<char>) -> bool {
    s.len() > 0 && forall|i: int| 0 <= i < s.len() ==> !is_white(#[trigger] s[i])
}

/// Text without white space extends the last piece.
proof fn lemma_word_extends(s: Seq<char>, w: Seq<char>)
    requires
        forall|i: int| 0 <= i < w.len() ==> !is_white(#[trigger] w[i]),
    ensures
        pieces(s + w, Blank::White) == ({
            let p = pieces(s, Blank::White);
            p.drop_last().push(p.last() + w)
        }),
    decreases w.len(),
{
    let k = Blank::White;
    let p = pieces(s, k);
    lemma_pieces_len(s, k);
    if w.len() == 0 {
        assert(s + w =~= s);
        assert(p.last() + w =~= p.last());
        assert(p.drop_last().push(p.last()) =~= p);
    } else {
        let m = w.drop_last();
        assert forall|i: int| 0 <= i < m.len() implies !is_white(#[trigger] m[i]) by {
            assert(m[i] == w[i]);
        }
        lemma_word_extends(s, m);
        assert((s + w).drop_last() =~= s + m);
        assert((s + w).last() == w.last());
        assert(!is_white(w[w.len() - 1]));
        let q = p.drop_last().push(p.last() + m);
        assert(q.drop_last() =~= p.drop_last());
        assert(q.last().push(w.last()) =~= p.last() + w);
    }
}

/// Words with a space between them are the words of that text.
pub proof fn spaced_words_are_read_back(ws: Seq<Seq<char>>)
    requires
        forall|i: int| 0 <= i < ws.len() ==> is_word(#[trigger] ws[i]),
    ensures
        words(join(ws, " "@)) == ws,
{
    if ws.len() > 0 {
        lemma_spaced_pieces(ws);
        lemma_nonempty_all(ws);
    } else {
        let e = Seq::<char>::empty();
        assert(pieces(e, Blank::White) == seq![e]);
        assert(seq![e].drop_last() =~= Seq::<Seq<char>>::empty());
        assert(seq![e].last() == e);
        assert(nonempty(seq![e]) == nonempty(seq![e].drop_last()));
        assert(words(join(ws, " "@)) =~= ws);
    }
}

proof fn lemma_nonempty_all(ws: Seq<Seq<char>>)
    requires
        forall|i: int| 0 <= i < ws.len() ==> (#[trigger] ws[i]).len() > 0,
    ensures
        nonempty(ws) == ws,
    decreases ws.len(),
{
    if ws.len() > 0 {
        assert forall|i: int| 0 <= i < ws.drop_last().len() implies (#[trigger] ws.drop_last()[i]).len()
            > 0 by {
            assert(ws[i].len() > 0);
        }
        lemma_nonempty_all(ws.drop_last());
        assert(ws[ws.len() - 1].len() > 0);
        assert(ws.drop_last().push(ws.last()) =~= ws);
    }
}

proof fn lemma_spaced_pieces(ws: Seq<Seq<char>>)
    requires
        ws.len() > 0,
        forall|i: int| 0 <= i < ws.len() ==> is_word(#[trigger] ws[i]),
    ensures
        pieces(join(ws, " "@), Blank::White) == ws,
    decreases ws.len(),
{
    reveal_strlit(" ");
    let k = Blank::White;
    let e = Seq::<char>::empty();
    let last = ws.last();
    assert(is_word(ws[ws.len() - 1]));
    if ws.len() == 1 {
        lemma_word_extends(e, last);
        assert(e + last =~= last);
        let base = seq![e];
        assert(pieces(e, k) == base);
        assert(base.drop_last().push(base.last() + last) =~= ws);
    } else {
        let head = ws.drop_last();
        assert forall|i: int| 0 <= i < head.len() implies is_word(#[trigger] head[i]) by {
            assert(head[i] == ws[i]);
        }
        lemma_spaced_pieces(head);
        let j = join(head, " "@);
        let with = j + " "@;
        assert(with =~= j.push(' '));
        assert(with.drop_last() =~= j);
        assert(is_white(' '));
        assert(pieces(with, k) == head.push(e));
        lemma_word_extends(with, last);
        let p = head.push(e);
        assert(p.drop_last() =~= head);
        assert(p.last() + last =~= last);
        assert(ws =~= head.push(last));
    }
}

/// A written number is a word.
pub proof fn lemma_hex_is_a_word(n: nat, width: nat)
    requires
        width > 0,
    ensures
        is_word(hex_padded(n, width)),
{
    lemma_hex_padded(n, width);
    let s = hex_padded(n, width);
    assert forall|i: int| 0 <= i < s.len() implies !is_white(#[trigger] s[i]) by {
        assert(is_hex_digit(s[i]));
    }
}

/// White space is neither a letter nor a digit nor a sign that stands in a
/// command or a reply, and the blanks of a terminal are white.
pub proof fn blanks_are_white(c: char)
    ensures
        Blank::SpaceTab.spec_has(c) || Blank::LineEnd.spec_has(c) ==> is_white(c),
        Blank::SpaceTab.spec_has(c) <==> c == ' ' || c == '\t',
        Blank::LineEnd.spec_has(c) <==> c == '\r' || c == '\n',
        '!' <= c <= '~' ==> !is_white(c),
{
}

/// Trimming takes off blanks only: every other character stays, in order.
pub proof fn trimming_takes_blanks_only(s: Seq<char>, k: Blank)
    ensures
        exists|from: int, to: int|
            0 <= from <= to <= s.len() && trim_by(s, k) == #[trigger] s.subrange(from, to) && (
            forall|i: int| 0 <= i < from || to <= i < s.len() ==> k.spec_has(#[trigger] s[i])),
        forall|i: int|
            0 <= i < s.len() && !k.spec_has(s[i]) ==> trim_by(s, k).contains(#[trigger] s[i]),
{
    let t = trim_start(s, k);
    let e = trim_by(s, k);
    lemma_front_blanks(s, k);
    lemma_back_blanks(t, k);
    let from = s.len() - t.len();
    let to = from + e.len();
    assert(e =~= s.subrange(from, to));
    assert forall|i: int| 0 <= i < from || to <= i < s.len() implies k.spec_has(
        #[trigger] s[i],
    ) by {
        if to <= i {
            assert(t[i - from] == s[i]);
        }
    }
    assert forall|i: int| 0 <= i < s.len() && !k.spec_has(s[i]) implies e.contains(
        #[trigger] s[i],
    ) by {
        assert(e[i - from] == s[i]);
    }
}

proof fn lemma_front_blanks(s: Seq<char>, k: Blank)
    ensures
        trim_start(s, k).len() <= s.len(),
        trim_start(s, k) == s.skip(s.len() - trim_start(s, k).len()),
        forall|i: int|
            0 <= i < s.len() - trim_start(s, k).len() ==> k.spec_has(#[trigger] s[i]),
    decreases s.len(),
{
    if s.len() > 0 && k.spec_has(s[0]) {
        let r = s.skip(1);
        lemma_front_blanks(r, k);
        let t = trim_start(s, k);
        assert(t =~= s.skip(s.len() - t.len()));
        assert forall|i: int| 0 <= i < s.len() - t.len() implies k.spec_has(#[trigger] s[i]) by {
            if i > 0 {
                assert(r[i - 1] == s[i]);
            }
        }
    } else {
        assert(s.skip(0) =~= s);
    }
}

proof fn lemma_back_blanks(s: Seq<char>, k: Blank)
    ensures
        trim_end(s, k).len() <= s.len(),
        trim_end(s, k) == s.take(trim_end(s, k).len() as int),
        forall|i: int| trim_end(s, k).len() <= i < s.len() ==> k.spec_has(#[trigger] s[i]),
    decreases s.len(),
{
    if s.len() > 0 && k.spec_has(s.last()) {
        let r = s.drop_last();
        lemma_back_blanks(r, k);
        let t = trim_end(s, k);
        assert(t =~= s.take(t.len() as int));
        assert forall|i: int| t.len() <= i < s.len() implies k.spec_has(#[trigger] s[i]) by {
            if i < s.len() - 1 {
                assert(r[i] == s[i]);
            }
        }
    } else {
        assert(s.take(s.len() as int) =~= s);
    }
}

/// A number in decimal reads as that number, without a leading zero.
pub proof fn decimal_reads_back(n: nat)
    ensures
        all_digits(decimal(n)),
        decimal_number(decimal(n)) == n,
        parse_decimal(decimal(n)) == Some(n),
        n > 0 ==> decimal(n)[0] != '0',
    decreases n,
{
    let s = decimal(n);
    if n < 10 {
        assert(s.drop_last() =~= Seq::<char>::empty());
        assert(s.last() == digit_char(n));
        reveal_with_fuel(decimal_number, 2);
    } else {
        let h = decimal(n / 10);
        decimal_reads_back(n / 10);
        assert(s.drop_last() =~= h);
        assert forall|i: int| 0 <= i < s.len() implies is_digit(#[trigger] s[i]) by {
            if i < h.len() {
                assert(s[i] == h[i]);
            }
        }
        assert(s[0] == h[0]);
    }
}

/// Texts are ordered as words in a dictionary: what they begin with alike does
/// not count, the first difference decides, and a text stands before its own
/// continuations.
pub proof fn the_first_difference_decides(same: Seq<char>, a: Seq<char>, b: Seq<char>, c: char, d: char)
    ensures
        c < d ==> lex_less(same + seq![c] + a, same + seq![d] + b),
        lex_less(same, same + seq![c] + a),
        lex_less(same + a, same + b) <==> lex_less(a, b),
    decreases same.len(),
{
    let x = seq![c] + a;
    let y = seq![d] + b;
    assert(same + seq![c] + a =~= same + x);
    assert(same + seq![d] + b =~= same + y);
    lemma_lex_same_front(same, x, y);
    lemma_lex_same_front(same, a, b);
    lemma_lex_same_front(same, Seq::empty(), x);
    assert(same + Seq::<char>::empty() =~= same);
}

proof fn lemma_lex_same_front(same: Seq<char>, a: Seq<char>, b: Seq<char>)
    ensures
        lex_less(same + a, same + b) <==> lex_less(a, b),
    decreases same.len(),
{
    if same.len() > 0 {
        let rest = same.skip(1);
        lemma_lex_same_front(rest, a, b);
        assert((same + a).skip(1) =~= rest + a);
        assert((same + b).skip(1) =~= rest + b);
    } else {
        assert(same + a =~= a);
        assert(same + b =~= b);
    }
}

} // verus!
