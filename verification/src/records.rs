//! The mathematical model of newline-delimited records.
//!
//! A byte sequence is read as a list of records separated by the delimiter
//! byte `0x0A`. A delimiter closes the record before it; a final segment
//! without a trailing delimiter still forms one record. So `a\nb\n` and
//! `a\nb` both hold the two records `a` and `b`, while the empty sequence
//! holds none.

use vstd::prelude::*;

verus! {

/// The newline delimiter byte.
pub open spec fn is_delim(b: u8) -> bool {
    b == 10
}

/// How many delimiter bytes `s` holds.
pub open spec fn newline_count(s: Seq<u8>) -> nat
    decreases s.len(),
{
    if s.len() == 0 {
        0
    } else {
        newline_count(s.drop_last()) + if is_delim(s.last()) {
            1nat
        } else {
            0nat
        }
    }
}

/// How many records `s` holds: one per delimiter, plus one for a final
/// unterminated segment.
pub open spec fn record_count(s: Seq<u8>) -> nat {
    if s.len() == 0 {
        0
    } else if is_delim(s.last()) {
        newline_count(s)
    } else {
        newline_count(s) + 1
    }
}

/// The records of `s`, in source order, each with its delimiter stripped.
///
/// Defined by how one more byte extends the records of a prefix: a delimiter
/// closes the pending record (opening a fresh empty one implicitly), and any
/// other byte extends the pending record, starting one if none is open. A
/// record is *open* exactly when the prefix is nonempty and does not end with
/// the delimiter.
pub open spec fn spec_records(s: Seq<u8>) -> Seq<Seq<u8>>
    decreases s.len(),
{
    if s.len() == 0 {
        Seq::empty()
    } else {
        let prev = spec_records(s.drop_last());
        let open = s.len() > 1 && !is_delim(s[s.len() - 2]);
        let b = s.last();
        if is_delim(b) {
            if open {
                prev
            } else {
                prev.push(Seq::empty())
            }
        } else {
            if open {
                prev.update(prev.len() - 1, prev.last().push(b))
            } else {
                prev.push(seq![b])
            }
        }
    }
}

/// The records joined back together, a delimiter after each one.
pub open spec fn join_records(rs: Seq<Seq<u8>>) -> Seq<u8>
    decreases rs.len(),
{
    if rs.len() == 0 {
        Seq::empty()
    } else {
        join_records(rs.drop_last()) + rs.last() + seq![10u8]
    }
}

/// The records joined with no separator at all.
pub open spec fn join_plain(rs: Seq<Seq<u8>>) -> Seq<u8>
    decreases rs.len(),
{
    if rs.len() == 0 {
        Seq::empty()
    } else {
        join_plain(rs.drop_last()) + rs.last()
    }
}

/// An input with N delimiter-separated segments has exactly N records,
/// whether or not the final segment is closed by a delimiter: the number of
/// records that `spec_records` lists is exactly `record_count`.
pub proof fn lemma_record_count_matches_records(s: Seq<u8>)
    ensures
        spec_records(s).len() == record_count(s),
    decreases s.len(),
{
    if s.len() > 0 {
        lemma_record_count_matches_records(s.drop_last());
    }
}

/// A nonempty input that does not end with the delimiter has an open final
/// record, so it has at least one record.
pub proof fn lemma_records_nonempty(s: Seq<u8>)
    requires
        s.len() > 0,
    ensures
        spec_records(s).len() > 0,
{
    lemma_record_count_matches_records(s);
    if !is_delim(s.last()) {
    } else {
        lemma_newline_count_positive(s);
    }
}

/// A sequence whose last byte is the delimiter holds at least one delimiter.
proof fn lemma_newline_count_positive(s: Seq<u8>)
    requires
        s.len() > 0,
        is_delim(s.last()),
    ensures
        newline_count(s) > 0,
{
}

/// Joining the records of `s` with the delimiter reinserted yields `s`
/// itself when `s` is empty or already ends with the delimiter, and `s` with
/// one delimiter appended otherwise.
pub proof fn lemma_join_records(s: Seq<u8>)
    ensures
        s.len() == 0 ==> join_records(spec_records(s)) == s,
        s.len() > 0 && is_delim(s.last()) ==> join_records(spec_records(s)) == s,
        s.len() > 0 && !is_delim(s.last()) ==> join_records(spec_records(s)) == s + seq![10u8],
    decreases s.len(),
{
    if s.len() == 0 {
        assert(join_records(spec_records(s)) =~= s);
    } else {
        let t = s.drop_last();
        let b = s.last();
        lemma_join_records(t);
        let prev = spec_records(t);
        if is_delim(b) {
            if t.len() > 0 && !is_delim(t.last()) {
                // the delimiter closes the open record: the records are unchanged
                assert(join_records(prev) =~= t + seq![10u8]);
                assert(spec_records(s) =~= prev);
                assert(join_records(spec_records(s)) =~= s);
            } else {
                // a fresh empty record is closed at once
                assert(join_records(prev) =~= t);
                assert(spec_records(s) =~= prev.push(Seq::empty()));
                assert(prev.push(Seq::empty()).drop_last() =~= prev);
                assert(join_records(spec_records(s)) =~= t + Seq::<u8>::empty() + seq![10u8]);
                assert(join_records(spec_records(s)) =~= s);
            }
        } else {
            if t.len() > 0 && !is_delim(t.last()) {
                // the byte extends the open final record
                lemma_records_nonempty(t);
                assert(join_records(prev) =~= t + seq![10u8]);
                let k = prev.len() - 1;
                let cur = spec_records(s);
                assert(cur =~= prev.update(k, prev.last().push(b)));
                assert(cur.drop_last() =~= prev.drop_last());
                assert(cur.last() =~= prev.last().push(b));
                assert(join_records(prev) == join_records(prev.drop_last()) + prev.last()
                    + seq![10u8]);
                let ab = join_records(prev.drop_last()) + prev.last();
                assert(ab + seq![10u8] =~= t + seq![10u8]);
                assert((ab + seq![10u8]).len() == (t + seq![10u8]).len());
                assert(ab.len() == t.len());
                assert forall|i: int| 0 <= i < t.len() implies ab[i] == t[i] by {
                    assert(0 <= i < ab.len());
                    assert(ab[i] == (ab + seq![10u8])[i]);
                    assert(t[i] == (t + seq![10u8])[i]);
                }
                assert(ab =~= t);
                assert(join_records(cur) == join_records(cur.drop_last()) + cur.last()
                    + seq![10u8]);
                assert(join_records(cur) =~= t + seq![b] + seq![10u8]);
                assert(t + seq![b] =~= s);
                assert(join_records(cur) =~= s + seq![10u8]);
            } else {
                // the byte starts a new open record
                assert(join_records(prev) =~= t);
                let cur = spec_records(s);
                assert(cur =~= prev.push(seq![b]));
                assert(cur.drop_last() =~= prev);
                assert(join_records(cur) =~= t + seq![b] + seq![10u8]);
                assert(t + seq![b] =~= s);
                assert(join_records(cur) =~= s + seq![10u8]);
            }
        }
    }
}

/// Round trip: echoing the records of an input that already ends with the
/// delimiter (or is empty) and reinserting the delimiter after each record
/// reproduces the input exactly.
pub proof fn lemma_round_trip(s: Seq<u8>)
    requires
        s.len() == 0 || is_delim(s.last()),
    ensures
        join_records(spec_records(s)) == s,
{
    lemma_join_records(s);
}

/// A sequence cannot hold more delimiters than bytes.
pub proof fn lemma_newline_count_le_len(s: Seq<u8>)
    ensures
        newline_count(s) <= s.len(),
    decreases s.len(),
{
    if s.len() > 0 {
        lemma_newline_count_le_len(s.drop_last());
    }
}

/// Extending a prefix of `s` by one byte raises its delimiter count by one
/// exactly when that byte is the delimiter.
pub proof fn lemma_newline_count_step(s: Seq<u8>, i: int)
    requires
        0 <= i < s.len(),
    ensures
        newline_count(s.take(i + 1)) == newline_count(s.take(i)) + if is_delim(s[i]) {
            1int
        } else {
            0int
        },
{
    assert(s.take(i + 1).drop_last() =~= s.take(i));
    assert(s.take(i + 1).last() == s[i]);
}

/// How one more byte extends the records of a prefix of `s`: a delimiter
/// closes the pending record, any other byte extends it, starting one if
/// none is open.
pub proof fn lemma_records_step(s: Seq<u8>, i: int)
    requires
        0 <= i < s.len(),
    ensures
        ({
            let prev = spec_records(s.take(i));
            let open = i > 0 && !is_delim(s[i - 1]);
            spec_records(s.take(i + 1)) == if is_delim(s[i]) {
                if open {
                    prev
                } else {
                    prev.push(Seq::empty())
                }
            } else {
                if open {
                    prev.update(prev.len() - 1, prev.last().push(s[i]))
                } else {
                    prev.push(seq![s[i]])
                }
            }
        }),
{
    assert(s.take(i + 1).drop_last() =~= s.take(i));
    assert(s.take(i + 1).last() == s[i]);
}

/// Extending a prefix of `s` by one byte leaves the delimiter-free join of
/// its records unchanged when that byte is the delimiter, and appends the
/// byte otherwise.
pub proof fn lemma_join_plain_step(s: Seq<u8>, i: int)
    requires
        0 <= i < s.len(),
    ensures
        join_plain(spec_records(s.take(i + 1))) == join_plain(spec_records(s.take(i))) + if is_delim(
            s[i],
        ) {
            Seq::<u8>::empty()
        } else {
            seq![s[i]]
        },
{
    lemma_records_step(s, i);
    let prev = spec_records(s.take(i));
    let open = i > 0 && !is_delim(s[i - 1]);
    let b = s[i];
    if is_delim(b) {
        if open {
            assert(join_plain(prev) =~= join_plain(prev) + Seq::<u8>::empty());
        } else {
            let cur = prev.push(Seq::<u8>::empty());
            assert(cur.drop_last() =~= prev);
            assert(join_plain(cur) =~= join_plain(prev) + Seq::<u8>::empty());
        }
    } else {
        if open {
            assert(s.take(i).len() > 0);
            assert(s.take(i).last() == s[i - 1]);
            lemma_records_nonempty(s.take(i));
            let cur = prev.update(prev.len() - 1, prev.last().push(b));
            assert(cur.drop_last() =~= prev.drop_last());
            assert(cur.last() =~= prev.last().push(b));
            assert(join_plain(cur) == join_plain(prev.drop_last()) + prev.last().push(b));
            assert(join_plain(prev.drop_last()) + prev.last().push(b) =~= (join_plain(
                prev.drop_last(),
            ) + prev.last()) + seq![b]);
        } else {
            let cur = prev.push(seq![b]);
            assert(cur.drop_last() =~= prev);
            assert(join_plain(cur) == join_plain(prev) + seq![b]);
        }
    }
}

/// An empty input holds no records.
pub proof fn lemma_empty_input()
    ensures
        record_count(Seq::<u8>::empty()) == 0,
        spec_records(Seq::<u8>::empty()) == Seq::<Seq<u8>>::empty(),
{
}

/// An input of exactly one byte that is not the delimiter holds exactly one
/// record.
pub proof fn lemma_single_byte(b: u8)
    requires
        !is_delim(b),
    ensures
        record_count(seq![b]) == 1,
{
    assert(seq![b].len() == 1);
    assert(seq![b].last() == b);
    assert(seq![b].drop_last() =~= Seq::<u8>::empty());
    assert(newline_count(Seq::<u8>::empty()) == 0);
    assert(newline_count(seq![b]) == 0);
}

} // verus!
