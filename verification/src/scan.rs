//! Four interchangeable scanning strategies over one contract.
//!
//! Each strategy takes the bytes of a source and, in count mode, returns the
//! number of newline-delimited records, or a decode error when the bytes are
//! not well-formed UTF-8. The strategies differ only in how they traverse
//! the bytes — one materializes an owned copy of every record, one reuses a
//! single buffer, one walks the input in fixed-size chunks, one reads the
//! whole region in place — and all are proved to return the same outcome.
//!
//! Echo mode reproduces the input from its records: `echo_lines` reinserts
//! the delimiter after every record, `echo_concat` joins the records with no
//! separator at all.

use vstd::prelude::*;

use crate::records::{
    is_delim, join_plain, join_records, newline_count, record_count, spec_records,
    lemma_join_plain_step, lemma_join_records, lemma_newline_count_le_len,
    lemma_newline_count_step, lemma_record_count_matches_records, lemma_records_step,
};
use crate::utf8::{valid_utf8, validate_utf8};

verus! {

/// Why a scan failed. The bytes handed to a scan are already in memory, so
/// the one failure a scan itself can meet is malformed UTF-8; open and read
/// failures belong to whoever produced the bytes.
#[derive(Clone, Copy, Debug, PartialEq, Eq, Structural)]
pub enum ScanError {
    /// The input is not well-formed UTF-8.
    Decode,
}

/// The one contract all counting strategies share: well-formed input yields
/// exactly its record count, malformed input yields the decode error.
pub open spec fn scan_outcome(s: Seq<u8>, r: Result<usize, ScanError>) -> bool {
    match r {
        Ok(n) => valid_utf8(s) && n == record_count(s),
        Err(e) => !valid_utf8(s) && e == ScanError::Decode,
    }
}

/// Idempotence: two scans of the same unchanged input agree, whatever pair
/// of strategies produced the two outcomes.
pub proof fn lemma_scan_idempotent(
    s: Seq<u8>,
    r1: Result<usize, ScanError>,
    r2: Result<usize, ScanError>,
)
    requires
        scan_outcome(s, r1),
        scan_outcome(s, r2),
    ensures
        r1 == r2,
{
}

/// Count the delimiters in `bytes`, then close a final unterminated record.
///
/// The single in-place pass shared by the strategies that do not copy.
fn count_delims_in_place(bytes: &[u8]) -> (n: usize)
    ensures
        n == record_count(bytes@),
{
    let len: usize = bytes.len();
    let mut count: usize = 0;
    let mut i: usize = 0;
    while i < len
        invariant
            len == bytes@.len(),
            i <= len,
            count <= i,
            count == newline_count(bytes@.take(i as int)),
        decreases len - i,
    {
        proof {
            lemma_newline_count_step(bytes@, i as int);
        }
        if bytes[i] == 10 {
            count = count + 1;
        }
        i = i + 1;
    }
    proof {
        assert(bytes@.take(len as int) =~= bytes@);
    }
    if len > 0 && bytes[len - 1] != 10 {
        proof {
            lemma_newline_count_step(bytes@, len as int - 1);
            lemma_newline_count_le_len(bytes@.take(len as int - 1));
        }
        count = count + 1;
    }
    count
}

/// Mapped scan, count mode: the source's bytes stand in memory as one
/// region; validate the whole region as UTF-8 once, then split on the
/// delimiter in place, with no copying. Malformed bytes are reported as a
/// decode error rather than silently yielding no records. An empty region
/// is well-formed and holds zero records.
pub fn mapped_scan_count(bytes: &[u8]) -> (r: Result<usize, ScanError>)
    ensures
        scan_outcome(bytes@, r),
{
    if !validate_utf8(bytes) {
        return Err(ScanError::Decode);
    }
    Ok(count_delims_in_place(bytes))
}

/// Manual scan, count mode: fill one reusable buffer up to each delimiter,
/// count the record, clear the buffer (capacity retained), and read on; a
/// nonempty buffer at end of input is one final record.
pub fn manual_scan_count(bytes: &[u8]) -> (r: Result<usize, ScanError>)
    ensures
        scan_outcome(bytes@, r),
{
    if !validate_utf8(bytes) {
        return Err(ScanError::Decode);
    }
    let len: usize = bytes.len();
    let mut buf: Vec<u8> = Vec::new();
    let mut count: usize = 0;
    let mut i: usize = 0;
    while i < len
        invariant
            len == bytes@.len(),
            i <= len,
            count <= i,
            count == newline_count(bytes@.take(i as int)),
            buf@.len() == 0 <==> (i == 0 || is_delim(bytes@[i as int - 1])),
        decreases len - i,
    {
        proof {
            lemma_newline_count_step(bytes@, i as int);
        }
        let b = bytes[i];
        if b == 10 {
            count = count + 1;
            buf.clear();
        } else {
            buf.push(b);
        }
        i = i + 1;
    }
    proof {
        assert(bytes@.take(len as int) =~= bytes@);
    }
    if buf.len() > 0 {
        proof {
            lemma_newline_count_step(bytes@, len as int - 1);
            lemma_newline_count_le_len(bytes@.take(len as int - 1));
        }
        count = count + 1;
    }
    Ok(count)
}

/// The explicitly tuned read-chunk size of the sized-buffer strategy.
pub const CHUNK_SIZE: usize = 128 * 1024;

/// Sized-buffer scan, count mode: walk the input in chunks of a tuned,
/// explicitly chosen size rather than a library default. Behaviorally
/// indistinguishable from the other strategies; the chunking is the point
/// under measurement.
pub fn sized_buffer_scan_count(bytes: &[u8]) -> (r: Result<usize, ScanError>)
    ensures
        scan_outcome(bytes@, r),
{
    if !validate_utf8(bytes) {
        return Err(ScanError::Decode);
    }
    let len: usize = bytes.len();
    let mut count: usize = 0;
    let mut i: usize = 0;
    while i < len
        invariant
            len == bytes@.len(),
            i <= len,
            count <= i,
            count == newline_count(bytes@.take(i as int)),
        decreases len - i,
    {
        let end: usize = if len - i > CHUNK_SIZE {
            i + CHUNK_SIZE
        } else {
            len
        };
        let mut j: usize = i;
        while j < end
            invariant
                len == bytes@.len(),
                i <= j <= end,
                end <= len,
                count <= j,
                count == newline_count(bytes@.take(j as int)),
            decreases end - j,
        {
            proof {
                lemma_newline_count_step(bytes@, j as int);
            }
            if bytes[j] == 10 {
                count = count + 1;
            }
            j = j + 1;
        }
        i = end;
    }
    proof {
        assert(bytes@.take(len as int) =~= bytes@);
    }
    if len > 0 && bytes[len - 1] != 10 {
        proof {
            lemma_newline_count_step(bytes@, len as int - 1);
            lemma_newline_count_le_len(bytes@.take(len as int - 1));
        }
        count = count + 1;
    }
    Ok(count)
}

/// The contents of a list of owned records, record by record.
pub open spec fn record_views(rs: Seq<Vec<u8>>) -> Seq<Seq<u8>> {
    rs.map_values(|rec: Vec<u8>| rec@)
}

/// Split `bytes` into its records, each an owned copy with the delimiter
/// stripped, in source order.
pub fn split_records(bytes: &[u8]) -> (rs: Vec<Vec<u8>>)
    ensures
        record_views(rs@) == spec_records(bytes@),
{
    let len: usize = bytes.len();
    let mut acc: Vec<Vec<u8>> = Vec::new();
    let mut cur: Vec<u8> = Vec::new();
    let mut i: usize = 0;
    while i < len
        invariant
            len == bytes@.len(),
            i <= len,
            i == 0 || is_delim(bytes@[i as int - 1]) ==> cur@.len() == 0 && record_views(acc@) == spec_records(bytes@.take(i as int)),
            i > 0 && !is_delim(bytes@[i as int - 1]) ==> cur@.len() > 0 && record_views(
                acc@,
            ).push(cur@) == spec_records(bytes@.take(i as int)),
        decreases len - i,
    {
        proof {
            lemma_records_step(bytes@, i as int);
        }
        let ghost prev_acc = record_views(acc@);
        let ghost prev_cur = cur@;
        let b = bytes[i];
        if b == 10 {
            acc.push(cur);
            cur = Vec::new();
            proof {
                assert(record_views(acc@) =~= prev_acc.push(prev_cur));
                if i == 0 || is_delim(bytes@[i as int - 1]) {
                    assert(prev_cur =~= Seq::<u8>::empty());
                    assert(spec_records(bytes@.take(i as int + 1)) == spec_records(
                        bytes@.take(i as int),
                    ).push(Seq::empty()));
                }
            }
        } else {
            cur.push(b);
            proof {
                if i == 0 || is_delim(bytes@[i as int - 1]) {
                    assert(cur@ =~= seq![b]);
                } else {
                    let prev = spec_records(bytes@.take(i as int));
                    assert(prev == prev_acc.push(prev_cur));
                    assert(prev.last() == prev_cur);
                    assert(prev.update(prev.len() - 1, prev.last().push(b)) =~= prev_acc.push(
                        prev_cur.push(b),
                    ));
                }
            }
        }
        i = i + 1;
    }
    proof {
        assert(bytes@.take(len as int) =~= bytes@);
    }
    if cur.len() > 0 {
        let ghost prev_acc = record_views(acc@);
        let ghost prev_cur = cur@;
        acc.push(cur);
        proof {
            assert(record_views(acc@) =~= prev_acc.push(prev_cur));
        }
    }
    acc
}

/// Iterator scan, count mode: materialize every record as an owned value —
/// one allocation per record, the straightforward strategy — and count what
/// was produced.
pub fn iterator_scan_count(bytes: &[u8]) -> (r: Result<usize, ScanError>)
    ensures
        scan_outcome(bytes@, r),
{
    if !validate_utf8(bytes) {
        return Err(ScanError::Decode);
    }
    let recs = split_records(bytes);
    proof {
        lemma_record_count_matches_records(bytes@);
        assert(record_views(recs@).len() == recs@.len());
    }
    Ok(recs.len())
}

/// Echo mode, delimiter-preserving: write every record back out with the
/// delimiter reinserted after it. An input that already ends with the
/// delimiter is reproduced byte for byte; otherwise one closing delimiter
/// is appended.
pub fn echo_lines(bytes: &[u8]) -> (r: Result<Vec<u8>, ScanError>)
    ensures
        match r {
            Ok(out) => valid_utf8(bytes@) && out@ == join_records(spec_records(bytes@)),
            Err(e) => !valid_utf8(bytes@) && e == ScanError::Decode,
        },
{
    if !validate_utf8(bytes) {
        return Err(ScanError::Decode);
    }
    proof {
        lemma_join_records(bytes@);
    }
    let mut out: Vec<u8> = Vec::new();
    out.extend_from_slice(bytes);
    assert(out@ =~= bytes@);
    let len: usize = bytes.len();
    if len > 0 && bytes[len - 1] != 10 {
        out.push(10);
        assert(out@ =~= bytes@ + seq![10u8]);
    }
    Ok(out)
}

/// Echo mode, concatenating: write every record back out with no separator
/// between records — the delimiter is stripped and never reinserted.
pub fn echo_concat(bytes: &[u8]) -> (r: Result<Vec<u8>, ScanError>)
    ensures
        match r {
            Ok(out) => valid_utf8(bytes@) && out@ == join_plain(spec_records(bytes@)),
            Err(e) => !valid_utf8(bytes@) && e == ScanError::Decode,
        },
{
    if !validate_utf8(bytes) {
        return Err(ScanError::Decode);
    }
    let len: usize = bytes.len();
    let mut out: Vec<u8> = Vec::new();
    let mut i: usize = 0;
    while i < len
        invariant
            len == bytes@.len(),
            i <= len,
            out@ == join_plain(spec_records(bytes@.take(i as int))),
        decreases len - i,
    {
        proof {
            lemma_join_plain_step(bytes@, i as int);
        }
        let ghost prev_out = out@;
        let b = bytes[i];
        if b != 10 {
            out.push(b);
            proof {
                assert(out@ =~= prev_out + seq![b]);
            }
        } else {
            proof {
                assert(out@ =~= prev_out + Seq::<u8>::empty());
            }
        }
        i = i + 1;
    }
    proof {
        assert(bytes@.take(len as int) =~= bytes@);
    }
    Ok(out)
}

} // verus!
