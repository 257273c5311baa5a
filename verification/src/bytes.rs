//! Byte sequences: ranges, sums and big-endian numbers.
use vstd::prelude::*;

verus! {

/// `v[from..to]`.
pub fn range(v: &[u8], from: usize, to: usize) -> (r: Vec<u8>)
    requires
        from <= to <= v@.len(),
    ensures
        r@ == v@.subrange(from as int, to as int),
{
    let mut out: Vec<u8> = Vec::new();
    let mut i: usize = from;
    while i < to
        invariant
            from <= i <= to <= v@.len(),
            out@ == v@.subrange(from as int, i as int),
        decreases to - i,
    {
        out.push(v[i]);
        i += 1;
    }
    out
}

/// Appends `more` to `v`.
pub fn extend(v: &mut Vec<u8>, more: &[u8])
    ensures
        final(v)@ == old(v)@ + more@,
{
    let ghost start = v@;
    let mut i: usize = 0;
    while i < more.len()
        invariant
            i <= more@.len(),
            v@ == start + more@.take(i as int),
        decreases more@.len() - i,
    {
        v.push(more[i]);
        i += 1;
    }
    assert(more@.take(i as int) =~= more@);
}

/// Equality of two byte sequences.
pub fn equal(a: &[u8], b: &[u8]) -> (r: bool)
    ensures
        r == (a@ == b@),
{
    if a.len() != b.len() {
        return false;
    }
    let mut i: usize = 0;
    while i < a.len()
        invariant
            i <= a@.len(),
            a@.len() == b@.len(),
            a@.take(i as int) == b@.take(i as int),
        decreases a@.len() - i,
    {
        if a[i] != b[i] {
            assert(a@[i as int] != b@[i as int]);
            return false;
        }
        assert(a@.take(i + 1) =~= a@.take(i as int).push(a@[i as int]));
        assert(b@.take(i + 1) =~= b@.take(i as int).push(b@[i as int]));
        i += 1;
    }
    assert(a@.take(i as int) =~= a@);
    assert(b@.take(i as int) =~= b@);
    true
}

/// The sum of all bytes.
pub open spec fn byte_sum(s: Seq<u8>) -> nat
    decreases s.len(),
{
    if s.len() == 0 {
        0
    } else {
        byte_sum(s.drop_last()) + s.last() as nat
    }
}

/// The sum of `v[from..to]` modulo 256.
pub fn sum_mod(v: &[u8], from: usize, to: usize) -> (r: u8)
    requires
        from <= to <= v@.len(),
    ensures
        r == byte_sum(v@.subrange(from as int, to as int)) % 256,
{
    let mut sum: u32 = 0;
    let mut i: usize = from;
    assert(v@.subrange(from as int, from as int) =~= Seq::<u8>::empty());
    while i < to
        invariant
            from <= i <= to <= v@.len(),
            sum < 256,
            sum == byte_sum(v@.subrange(from as int, i as int)) % 256,
        decreases to - i,
    {
        assert(v@.subrange(from as int, i + 1).drop_last() =~= v@.subrange(from as int, i as int));
        sum = (sum + v[i] as u32) % 256;
        i += 1;
    }
    sum as u8
}

/// The four bytes of `v`, the most significant first.
pub open spec fn be_bytes(v: u32) -> Seq<u8> {
    seq![
        (v / 0x1000000) as u8,
        (v / 0x10000 % 0x100) as u8,
        (v / 0x100 % 0x100) as u8,
        (v % 0x100) as u8,
    ]
}

/// The number whose four bytes stand at the head of `s`, the most significant first.
pub open spec fn be_value(s: Seq<u8>) -> u32 {
    (s[0] * 0x1000000 + s[1] * 0x10000 + s[2] * 0x100 + s[3]) as u32
}

/// Appends the four bytes of `v`, the most significant first.
pub fn push_be(out: &mut Vec<u8>, v: u32)
    ensures
        final(out)@ == old(out)@ + be_bytes(v),
{
    let ghost start = out@;
    out.push((v / 0x1000000) as u8);
    out.push((v / 0x10000 % 0x100) as u8);
    out.push((v / 0x100 % 0x100) as u8);
    out.push((v % 0x100) as u8);
    assert(out@ =~= start + be_bytes(v));
}

/// The number whose four bytes stand at `v[at..at + 4]`.
pub fn be_at(v: &[u8], at: usize) -> (r: u32)
    requires
        at + 4 <= v@.len(),
    ensures
        r == be_value(v@.skip(at as int)),
{
    let n: usize = v.len();
    v[at] as u32 * 0x1000000 + v[at + 1] as u32 * 0x10000 + v[at + 2] as u32 * 0x100 + v[at
        + 3] as u32
}

/// Reading back four big-endian bytes gives the number that was written.
pub proof fn be_reads_back(v: u32, tail: Seq<u8>)
    ensures
        be_value(be_bytes(v) + tail) == v,
{
}

/// The most significant byte comes first: a byte that is put behind a number
/// stands behind its bytes.
#[verifier::rlimit(60)]
#[verifier::spinoff_prover]
pub proof fn the_last_byte_is_the_lowest(v: u32, b: u8)
    requires
        v < 0x1000000,
    ensures
        be_bytes((256 * v + b) as u32) == be_bytes(v).skip(1).push(b),
        be_bytes(0) == seq![0u8, 0u8, 0u8, 0u8],
{
    let n = (256 * v + b) as u32;
    assert(n / 0x1000000 == v / 0x10000 && n / 0x10000 % 0x100 == v / 0x100 % 0x100 && n / 0x100
        % 0x100 == v % 0x100 && n % 0x100 == b);
    assert(v / 0x10000 % 0x100 == v / 0x10000);
    assert(be_bytes(n) =~= be_bytes(v).skip(1).push(b));
}

/// Four bytes make up a number, the first the highest.
pub proof fn four_bytes_make_a_number(a: u8, b: u8, c: u8, d: u8)
    ensures
        ({
            let n = 0x1000000 * a + 0x10000 * b + 0x100 * c + d;
            &&& 0 <= n <= u32::MAX
            &&& be_bytes(n as u32) == seq![a, b, c, d]
        }),
{
    let one = a as u32;
    let two = (256 * one + b) as u32;
    let three = (256 * two + c) as u32;
    let n = (256 * three + d) as u32;
    the_last_byte_is_the_lowest(0, a);
    the_last_byte_is_the_lowest(one, b);
    the_last_byte_is_the_lowest(two, c);
    the_last_byte_is_the_lowest(three, d);
    assert(n == 0x1000000 * a + 0x10000 * b + 0x100 * c + d);
    assert(be_bytes(n) =~= seq![a, b, c, d]);
}

/// A number is what its four bytes make up.
#[verifier::rlimit(60)]
#[verifier::spinoff_prover]
pub proof fn a_number_is_its_four_bytes(n: u32)
    ensures
        n == 0x1000000 * be_bytes(n)[0] + 0x10000 * be_bytes(n)[1] + 0x100 * be_bytes(n)[2]
            + be_bytes(n)[3],
{
    let one = n / 0x100;
    let two = one / 0x100;
    let three = two / 0x100;
    assert(two == n / 0x10000 && three == n / 0x1000000) by (bit_vector)
        requires
            one == n / 0x100,
            two == one / 0x100,
            three == two / 0x100,
    ;
    assert(n == one * 0x100 + n % 0x100);
    assert(one == two * 0x100 + one % 0x100);
    assert(two == three * 0x100 + two % 0x100);
    assert(three <= 255);
    let b = be_bytes(n);
    assert(b[0] == three && b[1] == two % 0x100 && b[2] == one % 0x100 && b[3] == n % 0x100);
}

} // verus!
