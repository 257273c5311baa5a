//! Support bitmaps: which pids of a range a vehicle has.
use crate::text;
use vstd::prelude::*;

verus! {

/// The supported pids of a range.
#[derive(Debug, Clone)]
pub struct PidSupportResult {
    /// The mode, such as "01".
    pub mode: String,
    /// The pid that asked for the range.
    pub base_offset: u16,
    /// The supported pids with their mode, such as "010C".
    pub supported_pids: Vec<String>,
}

/// The weight of bit `k`, counted from the left.
pub open spec fn weight(k: int) -> int {
    if k == 0 {
        128
    } else if k == 1 {
        64
    } else if k == 2 {
        32
    } else if k == 3 {
        16
    } else if k == 4 {
        8
    } else if k == 5 {
        4
    } else if k == 6 {
        2
    } else {
        1
    }
}

/// Whether bit `k` of the bitmap is set, counted from the left of the first
/// byte.
pub open spec fn is_set(d: Seq<u8>, k: int) -> bool {
    (d[k / 8] as int / weight(k % 8)) % 2 == 1
}

/// How many bits the bitmap has: at most four bytes count.
pub open spec fn bit_count(d: Seq<u8>) -> nat {
    if d.len() < 4 {
        8 * d.len()
    } else {
        32
    }
}

/// The pids of the first `n` bits that are set.
pub open spec fn supported(d: Seq<u8>, mode: Seq<char>, base: nat, n: nat) -> Seq<Seq<char>>
    decreases n,
{
    if n == 0 {
        Seq::empty()
    } else {
        let before = supported(d, mode, base, (n - 1) as nat);
        if is_set(d, n - 1) {
            before.push(mode + text::hex_padded(base + n, 2))
        } else {
            before
        }
    }
}

fn weight_of(k: usize) -> (r: u8)
    requires
        k < 8,
    ensures
        r == weight(k as int),
        r > 0,
{
    match k {
        0 => 128,
        1 => 64,
        2 => 32,
        3 => 16,
        4 => 8,
        5 => 4,
        6 => 2,
        _ => 1,
    }
}

/// Reads a bitmap: bit `k`, from the left, stands for pid `base_offset + k + 1`.
/// Fewer than four bytes give what they hold.
pub fn parse_supported_pids(data_bytes: &[u8], mode: &str, base_offset: u16) -> (r:
    PidSupportResult)
    requires
        forall|k: int|
            0 <= k < bit_count(data_bytes@) && #[trigger] is_set(data_bytes@, k) ==> base_offset + k
                + 1 <= 0xFFFF,
    ensures
        r.mode@ == mode@,
        r.base_offset == base_offset,
        text::views(r.supported_pids@) == supported(
            data_bytes@,
            mode@,
            base_offset as nat,
            bit_count(data_bytes@),
        ),
{
    let n: usize = if data_bytes.len() < 4 {
        8 * data_bytes.len()
    } else {
        32
    };
    let mut out: Vec<String> = Vec::new();
    let mut k: usize = 0;
    assert(text::views(out@) =~= supported(data_bytes@, mode@, base_offset as nat, 0));
    while k < n
        invariant
            k <= n,
            n == bit_count(data_bytes@),
            n <= 32,
            n <= 8 * data_bytes@.len(),
            forall|k: int|
                0 <= k < bit_count(data_bytes@) && #[trigger] is_set(data_bytes@, k) ==> base_offset
                    + k + 1 <= 0xFFFF,
            text::views(out@) == supported(data_bytes@, mode@, base_offset as nat, k as nat),
        decreases n - k,
    {
        let w: u8 = weight_of(k % 8);
        let ghost before = text::views(out@);
        if (data_bytes[k / 8] / w) % 2 == 1 {
            assert(is_set(data_bytes@, k as int));
            let mut pid = mode.to_owned();
            text::push_hex(&mut pid, base_offset as u32 + k as u32 + 1, 2);
            let ghost pv = pid@;
            out.push(pid);
            assert(text::views(out@) =~= before.push(pv));
        } else {
            assert(!is_set(data_bytes@, k as int));
        }
        k += 1;
    }
    PidSupportResult { mode: mode.to_owned(), base_offset, supported_pids: out }
}

// ---- laws ----

/// A pid is listed exactly where its bit is set, and no more pids are listed
/// than bits are set.
pub proof fn listed_pids_are_set(d: Seq<u8>, mode: Seq<char>, base: nat, n: nat, i: int)
    requires
        0 <= i < supported(d, mode, base, n).len(),
    ensures
        exists|k: int|
            0 <= k < n && #[trigger] is_set(d, k) && supported(d, mode, base, n)[i] == mode
                + text::hex_padded((base + k + 1) as nat, 2),
    decreases n,
{
    let before = supported(d, mode, base, (n - 1) as nat);
    if i < before.len() {
        listed_pids_are_set(d, mode, base, (n - 1) as nat, i);
        let k = choose|k: int|
            0 <= k < n - 1 && #[trigger] is_set(d, k) && before[i] == mode + text::hex_padded(
                (base + k + 1) as nat,
                2,
            );
        assert(is_set(d, k) && supported(d, mode, base, n)[i] == before[i]);
    } else {
        assert(is_set(d, n - 1));
    }
}

/// A pid whose bit is set is listed.
pub proof fn set_pids_are_listed(d: Seq<u8>, mode: Seq<char>, base: nat, n: nat, k: int)
    requires
        0 <= k < n,
        is_set(d, k),
    ensures
        supported(d, mode, base, n).contains(mode + text::hex_padded((base + k + 1) as nat, 2)),
    decreases n,
{
    let pid = mode + text::hex_padded((base + k + 1) as nat, 2);
    let all = supported(d, mode, base, n);
    let before = supported(d, mode, base, (n - 1) as nat);
    if k == n - 1 {
        text::lemma_push_contains(before, pid);
    } else {
        set_pids_are_listed(d, mode, base, (n - 1) as nat, k);
        text::lemma_push_contains(before, all.last());
    }
}

/// Bit `j` of byte `i`, counted from the left, is the bit of the mask that `j`
/// shifts to the right move to.
proof fn lemma_bit(d: Seq<u8>, i: int, j: u8)
    requires
        0 <= i < d.len(),
        j < 8,
    ensures
        is_set(d, 8 * i + j) <==> d[i] & (0x80u8 >> j) != 0,
{
    let b = d[i];
    let k = 8 * i + j;
    assert(k / 8 == i && k % 8 == j);
    assert((j == 0 ==> (b / 128 % 2 == 1 <==> b & (0x80u8 >> j) != 0)) && (j == 1 ==> (b / 64 % 2
        == 1 <==> b & (0x80u8 >> j) != 0)) && (j == 2 ==> (b / 32 % 2 == 1 <==> b & (0x80u8 >> j)
        != 0)) && (j == 3 ==> (b / 16 % 2 == 1 <==> b & (0x80u8 >> j) != 0)) && (j == 4 ==> (b / 8
        % 2 == 1 <==> b & (0x80u8 >> j) != 0)) && (j == 5 ==> (b / 4 % 2 == 1 <==> b & (0x80u8 >> j)
        != 0)) && (j == 6 ==> (b / 2 % 2 == 1 <==> b & (0x80u8 >> j) != 0)) && (j == 7 ==> (b % 2
        == 1 <==> b & (0x80u8 >> j) != 0))) by (bit_vector)
        requires
            j < 8,
    ;
}

/// The pid that stands `8 i + j + 1` behind the base is listed exactly where
/// bit `j` of byte `i`, counted from the left, is set, in each of the first four
/// bytes; whether it is listed depends on no other bit.
pub proof fn a_pid_is_listed_for_its_bit(d: Seq<u8>, mode: Seq<char>, base: nat, i: int, j: u8)
    requires
        0 <= i < d.len(),
        i < 4,
        j < 8,
    ensures
        supported(d, mode, base, bit_count(d)).contains(
            mode + text::hex_padded((base + 8 * i + j + 1) as nat, 2),
        ) <==> d[i] & (0x80u8 >> j) != 0,
{
    let k = 8 * i + j;
    let n = bit_count(d);
    let pid = mode + text::hex_padded((base + k + 1) as nat, 2);
    let all = supported(d, mode, base, n);
    lemma_bit(d, i, j);
    if is_set(d, k) {
        set_pids_are_listed(d, mode, base, n, k);
    }
    if all.contains(pid) {
        let at = choose|at: int| 0 <= at < all.len() && all[at] == pid;
        listed_pids_are_set(d, mode, base, n, at);
        let m = choose|m: int|
            0 <= m < n && #[trigger] is_set(d, m) && all[at] == mode + text::hex_padded(
                (base + m + 1) as nat,
                2,
            );
        lemma_same_number(mode, (base + k + 1) as nat, (base + m + 1) as nat);
    }
}

/// Behind a mode, different numbers are different pids.
proof fn lemma_same_number(mode: Seq<char>, a: nat, b: nat)
    requires
        mode + text::hex_padded(a, 2) == mode + text::hex_padded(b, 2),
    ensures
        a == b,
{
    let x = mode + text::hex_padded(a, 2);
    let y = mode + text::hex_padded(b, 2);
    assert(x.skip(mode.len() as int) =~= text::hex_padded(a, 2));
    assert(y.skip(mode.len() as int) =~= text::hex_padded(b, 2));
    text::lemma_hex_padded(a, 2);
    text::lemma_hex_padded(b, 2);
}

/// Nothing else is listed: a listed pid stands between one and 32 behind the
/// base, no further than the bytes reach, and the list ascends, so that none
/// stands twice.
pub proof fn listed_pids_ascend(d: Seq<u8>, mode: Seq<char>, base: nat, p: int, q: int)
    requires
        0 <= p < q < supported(d, mode, base, bit_count(d)).len(),
    ensures
        exists|a: int, b: int|
            0 < a < b <= 32 && b <= 8 * d.len() && supported(d, mode, base, bit_count(d))[p] == mode
                + #[trigger] text::hex_padded((base + a) as nat, 2) && supported(
                d,
                mode,
                base,
                bit_count(d),
            )[q] == mode + #[trigger] text::hex_padded((base + b) as nat, 2),
{
    lemma_listed_ascend(d, mode, base, bit_count(d), p, q);
}

proof fn lemma_listed_ascend(d: Seq<u8>, mode: Seq<char>, base: nat, n: nat, p: int, q: int)
    requires
        0 <= p < q < supported(d, mode, base, n).len(),
    ensures
        exists|a: int, b: int|
            0 < a < b <= n && supported(d, mode, base, n)[p] == mode + #[trigger] text::hex_padded(
                (base + a) as nat,
                2,
            ) && supported(d, mode, base, n)[q] == mode + #[trigger] text::hex_padded(
                (base + b) as nat,
                2,
            ),
    decreases n,
{
    let all = supported(d, mode, base, n);
    let before = supported(d, mode, base, (n - 1) as nat);
    if q < before.len() {
        lemma_listed_ascend(d, mode, base, (n - 1) as nat, p, q);
        let (a, b) = choose|a: int, b: int|
            0 < a < b <= n - 1 && before[p] == mode + #[trigger] text::hex_padded(
                (base + a) as nat,
                2,
            ) && before[q] == mode + #[trigger] text::hex_padded((base + b) as nat, 2);
        assert(all[p] == mode + text::hex_padded((base + a) as nat, 2));
        assert(all[q] == mode + text::hex_padded((base + b) as nat, 2));
    } else {
        listed_pids_are_set(d, mode, base, (n - 1) as nat, p);
        let k = choose|k: int|
            0 <= k < n - 1 && #[trigger] is_set(d, k) && before[p] == mode + text::hex_padded(
                (base + k + 1) as nat,
                2,
            );
        let a = k + 1;
        let b = n as int;
        assert(base + a == base + k + 1);
        assert(all[p] == mode + text::hex_padded((base + a) as nat, 2));
        assert(all[q] == mode + text::hex_padded((base + b) as nat, 2));
    }
}

/// A listed pid stands between one and 32 behind the base, no further than the
/// bytes reach.
pub proof fn listed_pids_are_in_range(d: Seq<u8>, mode: Seq<char>, base: nat, p: int)
    requires
        0 <= p < supported(d, mode, base, bit_count(d)).len(),
    ensures
        exists|a: int|
            0 < a <= 32 && a <= 8 * d.len() && supported(d, mode, base, bit_count(d))[p] == mode
                + #[trigger] text::hex_padded((base + a) as nat, 2),
{
    let all = supported(d, mode, base, bit_count(d));
    listed_pids_are_set(d, mode, base, bit_count(d), p);
    let k = choose|k: int|
        0 <= k < bit_count(d) && #[trigger] is_set(d, k) && all[p] == mode + text::hex_padded(
            (base + k + 1) as nat,
            2,
        );
    let a = k + 1;
    assert(base + a == base + k + 1);
    assert(all[p] == mode + text::hex_padded((base + a) as nat, 2));
}

} // verus!
