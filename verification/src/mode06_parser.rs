//! Mode 06 test results: blocks of nine bytes.
use vstd::prelude::*;

verus! {

/// One test result, unscaled.
#[derive(Debug, Clone, Copy, PartialEq, Eq, Structural)]
pub struct Mode06TestResult {
    /// Monitor id.
    pub mid: u8,
    /// Test id.
    pub tid: u8,
    /// Unit and scaling id.
    pub uasid: u8,
    pub value: u16,
    pub min_limit: u16,
    pub max_limit: u16,
}

/// All test results of a reply.
#[derive(Debug, Clone)]
pub struct Mode06Result {
    pub test_results: Vec<Mode06TestResult>,
}

/// Two bytes as a number, the high one first.
pub open spec fn word(hi: u8, lo: u8) -> u16 {
    (hi * 256 + lo) as u16
}

/// The test result that starts at `at`.
pub open spec fn block_at(d: Seq<u8>, at: int) -> Mode06TestResult {
    Mode06TestResult {
        mid: d[at],
        tid: d[at + 1],
        uasid: d[at + 2],
        value: word(d[at + 3], d[at + 4]),
        min_limit: word(d[at + 5], d[at + 6]),
        max_limit: word(d[at + 7], d[at + 8]),
    }
}

/// The test results of a reply: one per whole block.
pub open spec fn blocks(d: Seq<u8>) -> Seq<Mode06TestResult> {
    Seq::new(d.len() / 9, |i: int| block_at(d, 9 * i))
}

fn word_of(hi: u8, lo: u8) -> (r: u16)
    ensures
        r == word(hi, lo),
{
    hi as u16 * 256 + lo as u16
}

/// Reads the test results from the data of a reply, the echo stripped. An
/// incomplete block at the end is left out.
pub fn parse_mode06(data_bytes: &[u8]) -> (r: Mode06Result)
    ensures
        r.test_results@ == blocks(data_bytes@),
{
    let mut results: Vec<Mode06TestResult> = Vec::new();
    let n: usize = data_bytes.len();
    let mut at: usize = 0;
    while n - at >= 9
        invariant
            n == data_bytes@.len(),
            at <= n,
            at == 9 * results@.len(),
            forall|i: int|
                0 <= i < results@.len() ==> #[trigger] results@[i] == block_at(data_bytes@, 9 * i),
        decreases n - at,
    {
        results.push(
            Mode06TestResult {
                mid: data_bytes[at],
                tid: data_bytes[at + 1],
                uasid: data_bytes[at + 2],
                value: word_of(data_bytes[at + 3], data_bytes[at + 4]),
                min_limit: word_of(data_bytes[at + 5], data_bytes[at + 6]),
                max_limit: word_of(data_bytes[at + 7], data_bytes[at + 8]),
            },
        );
        at += 9;
    }
    assert(results@.len() == n / 9);
    assert(results@ =~= blocks(data_bytes@));
    Mode06Result { test_results: results }
}

// ---- laws ----

/// A test result as it stands on the wire.
pub open spec fn written(t: Mode06TestResult) -> Seq<u8> {
    seq![
        t.mid,
        t.tid,
        t.uasid,
        (t.value / 256) as u8,
        (t.value % 256) as u8,
        (t.min_limit / 256) as u8,
        (t.min_limit % 256) as u8,
        (t.max_limit / 256) as u8,
        (t.max_limit % 256) as u8,
    ]
}

/// Test results as they stand on the wire, one behind the other.
pub open spec fn all_written(v: Seq<Mode06TestResult>) -> Seq<u8>
    decreases v.len(),
{
    if v.len() == 0 {
        Seq::empty()
    } else {
        all_written(v.drop_last()) + written(v.last())
    }
}

/// Test results that are written one behind the other are read back, all of them
/// and in order; the bytes of an incomplete block behind them are left out.
pub proof fn written_results_are_read_back(v: Seq<Mode06TestResult>, tail: Seq<u8>)
    requires
        tail.len() < 9,
    ensures
        blocks(all_written(v) + tail) == v,
{
    lemma_written(v);
    let d = all_written(v) + tail;
    assert(d.len() / 9 == v.len());
    assert forall|i: int| 0 <= i < v.len() implies #[trigger] blocks(d)[i] == v[i] by {
        assert(d.subrange(9 * i, 9 * i + 9) =~= all_written(v).subrange(9 * i, 9 * i + 9));
        let w = d.subrange(9 * i, 9 * i + 9);
        assert(w == written(v[i]));
        assert forall|k: int| 0 <= k < 9 implies #[trigger] d[9 * i + k] == written(v[i])[k] by {
            assert(w[k] == d[9 * i + k]);
        }
        assert(d[9 * i] == written(v[i])[0]);
        let t = v[i];
        assert((t.value / 256) as u8 == t.value / 256);
        assert((t.min_limit / 256) as u8 == t.min_limit / 256);
        assert((t.max_limit / 256) as u8 == t.max_limit / 256);
    }
    assert(blocks(d) =~= v);
}

proof fn lemma_written(v: Seq<Mode06TestResult>)
    ensures
        all_written(v).len() == 9 * v.len(),
        forall|i: int|
            0 <= i < v.len() ==> all_written(v).subrange(9 * i, 9 * i + 9) == written(
                #[trigger] v[i],
            ),
    decreases v.len(),
{
    if v.len() > 0 {
        let head = v.drop_last();
        lemma_written(head);
        assert forall|i: int| 0 <= i < v.len() implies all_written(v).subrange(9 * i, 9 * i + 9)
            == written(#[trigger] v[i]) by {
            if i < head.len() {
                assert(head[i] == v[i]);
                assert(all_written(v).subrange(9 * i, 9 * i + 9) =~= all_written(head).subrange(
                    9 * i,
                    9 * i + 9,
                ));
            } else {
                assert(all_written(v).subrange(9 * i, 9 * i + 9) =~= written(v[i]));
            }
        }
    }
}

} // verus!
