//! Scenario tests for the scanning strategies: counts, echo modes, and
//! decode failures, each on concrete inputs.

use linescan::scan::{
    echo_concat, echo_lines, iterator_scan_count, manual_scan_count, mapped_scan_count,
    sized_buffer_scan_count, split_records, ScanError,
};

#[test]
fn empty_input_counts_zero_for_all_strategies() {
    assert_eq!(iterator_scan_count(b""), Ok(0));
    assert_eq!(manual_scan_count(b""), Ok(0));
    assert_eq!(sized_buffer_scan_count(b""), Ok(0));
    // the pinned choice for the mapped strategy: an empty region is a
    // validly empty mapping holding zero records, not an error
    assert_eq!(mapped_scan_count(b""), Ok(0));
}

#[test]
fn single_byte_counts_one_for_all_strategies() {
    assert_eq!(iterator_scan_count(b"x"), Ok(1));
    assert_eq!(manual_scan_count(b"x"), Ok(1));
    assert_eq!(sized_buffer_scan_count(b"x"), Ok(1));
    assert_eq!(mapped_scan_count(b"x"), Ok(1));
}

#[test]
fn three_terminated_records_count_three() {
    let input = b"a\nb\nc\n";
    assert_eq!(iterator_scan_count(input), Ok(3));
    assert_eq!(manual_scan_count(input), Ok(3));
    assert_eq!(sized_buffer_scan_count(input), Ok(3));
    assert_eq!(mapped_scan_count(input), Ok(3));
}

#[test]
fn trailing_unterminated_record_still_counts() {
    let input = b"a\nb\nc";
    assert_eq!(iterator_scan_count(input), Ok(3));
    assert_eq!(manual_scan_count(input), Ok(3));
    assert_eq!(sized_buffer_scan_count(input), Ok(3));
    assert_eq!(mapped_scan_count(input), Ok(3));
}

#[test]
fn echo_lines_reproduces_terminated_input() {
    assert_eq!(echo_lines(b"a\nb\nc\n"), Ok(b"a\nb\nc\n".to_vec()));
}

#[test]
fn echo_lines_closes_unterminated_input() {
    assert_eq!(echo_lines(b"a\nb\nc"), Ok(b"a\nb\nc\n".to_vec()));
}

#[test]
fn echo_lines_of_empty_input_is_empty() {
    assert_eq!(echo_lines(b""), Ok(Vec::new()));
}

#[test]
fn echo_concat_strips_every_delimiter() {
    assert_eq!(echo_concat(b"a\nb\nc\n"), Ok(b"abc".to_vec()));
    assert_eq!(echo_concat(b"a\nb\nc"), Ok(b"abc".to_vec()));
    assert_eq!(echo_concat(b"\n\n"), Ok(Vec::new()));
}

#[test]
fn invalid_utf8_fails_with_decode_error_in_every_strategy() {
    let input: &[u8] = &[0x61, 0xFF, 0x0A];
    assert_eq!(iterator_scan_count(input), Err(ScanError::Decode));
    assert_eq!(manual_scan_count(input), Err(ScanError::Decode));
    assert_eq!(sized_buffer_scan_count(input), Err(ScanError::Decode));
    // the pinned choice for the mapped strategy: malformed bytes surface a
    // decode error instead of silently yielding no records
    assert_eq!(mapped_scan_count(input), Err(ScanError::Decode));
    assert_eq!(echo_lines(input), Err(ScanError::Decode));
    assert_eq!(echo_concat(input), Err(ScanError::Decode));
}

#[test]
fn scanning_twice_yields_the_same_count() {
    let input = b"one\ntwo\nthree";
    let first = manual_scan_count(input);
    let second = manual_scan_count(input);
    assert_eq!(first, second);
    assert_eq!(first, mapped_scan_count(input));
    assert_eq!(first, iterator_scan_count(input));
    assert_eq!(first, sized_buffer_scan_count(input));
}

#[test]
fn split_records_strips_delimiters_in_source_order() {
    let recs = split_records(b"a\nb\nc");
    assert_eq!(recs, vec![b"a".to_vec(), b"b".to_vec(), b"c".to_vec()]);
}

#[test]
fn split_records_of_lone_delimiter_is_one_empty_record() {
    let recs = split_records(b"\n");
    assert_eq!(recs, vec![Vec::new()]);
}

#[test]
fn split_records_keeps_interior_empty_records() {
    let recs = split_records(b"a\n\n");
    assert_eq!(recs, vec![b"a".to_vec(), Vec::new()]);
}

#[test]
fn split_records_drops_nothing_after_final_delimiter() {
    let recs = split_records(b"a\n");
    assert_eq!(recs, vec![b"a".to_vec()]);
}

#[test]
fn multibyte_text_counts_by_records_not_bytes() {
    // "é", "€" and an emoji: two-, three- and four-byte sequences
    let mut input: Vec<u8> = Vec::new();
    input.extend_from_slice(&[0xC3, 0xA9, 0x0A]);
    input.extend_from_slice(&[0xE2, 0x82, 0xAC, 0x0A]);
    input.extend_from_slice(&[0xF0, 0x9F, 0x98, 0x80]);
    assert_eq!(iterator_scan_count(&input), Ok(3));
    assert_eq!(manual_scan_count(&input), Ok(3));
    assert_eq!(sized_buffer_scan_count(&input), Ok(3));
    assert_eq!(mapped_scan_count(&input), Ok(3));
}

#[test]
fn sized_buffer_strategy_crosses_chunk_boundaries() {
    // longer than one 128 KiB chunk, one record per 16 bytes
    let mut input: Vec<u8> = Vec::new();
    let records: usize = 16 * 1024;
    for _ in 0..records {
        input.extend_from_slice(b"0123456789abcde\n");
    }
    assert_eq!(sized_buffer_scan_count(&input), Ok(records));
    assert_eq!(mapped_scan_count(&input), Ok(records));
}
