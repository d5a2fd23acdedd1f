//! Tests of the UTF-8 validator on well-formed and malformed sequences.

use linescan::utf8::validate_utf8;

#[test]
fn ascii_is_valid() {
    assert!(validate_utf8(b""));
    assert!(validate_utf8(b"hello, world\n"));
}

#[test]
fn well_formed_multibyte_sequences_are_valid() {
    assert!(validate_utf8(&[0xC3, 0xA9])); // two bytes
    assert!(validate_utf8(&[0xE2, 0x82, 0xAC])); // three bytes
    assert!(validate_utf8(&[0xED, 0x9F, 0xBF])); // last code point before the surrogates
    assert!(validate_utf8(&[0xEE, 0x80, 0x80])); // first code point after the surrogates
    assert!(validate_utf8(&[0xF0, 0x9F, 0x98, 0x80])); // four bytes
    assert!(validate_utf8(&[0xF4, 0x8F, 0xBF, 0xBF])); // the last code point
}

#[test]
fn stray_continuation_byte_is_invalid() {
    assert!(!validate_utf8(&[0x80]));
    assert!(!validate_utf8(&[0x61, 0xBF, 0x62]));
}

#[test]
fn truncated_sequences_are_invalid() {
    assert!(!validate_utf8(&[0xC3]));
    assert!(!validate_utf8(&[0xE2, 0x82]));
    assert!(!validate_utf8(&[0xF0, 0x9F, 0x98]));
}

#[test]
fn overlong_encodings_are_invalid() {
    assert!(!validate_utf8(&[0xC0, 0x80])); // two-byte form of NUL
    assert!(!validate_utf8(&[0xC1, 0xBF]));
    assert!(!validate_utf8(&[0xE0, 0x80, 0x80])); // three-byte form of NUL
    assert!(!validate_utf8(&[0xF0, 0x80, 0x80, 0x80])); // four-byte form of NUL
}

#[test]
fn surrogate_code_points_are_invalid() {
    assert!(!validate_utf8(&[0xED, 0xA0, 0x80]));
    assert!(!validate_utf8(&[0xED, 0xBF, 0xBF]));
}

#[test]
fn code_points_beyond_the_maximum_are_invalid() {
    assert!(!validate_utf8(&[0xF4, 0x90, 0x80, 0x80]));
    assert!(!validate_utf8(&[0xF5, 0x80, 0x80, 0x80]));
    assert!(!validate_utf8(&[0xFF]));
}

#[test]
fn validator_agrees_with_the_standard_library() {
    let samples: Vec<Vec<u8>> = vec![
        b"plain ascii\n".to_vec(),
        vec![0xC3, 0xA9, 0x0A, 0xE2, 0x82, 0xAC],
        vec![0xED, 0xA0, 0x80],
        vec![0xC3],
        vec![0x80, 0x61],
        vec![0xF4, 0x8F, 0xBF, 0xBF],
        vec![0xF4, 0x90, 0x80, 0x80],
    ];
    for s in samples {
        assert_eq!(validate_utf8(&s), std::str::from_utf8(&s).is_ok());
    }
}
