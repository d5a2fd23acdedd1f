//! Well-formed UTF-8, as a specification on byte sequences, and a verified
//! single-pass validator.
//!
//! The encoding is the standard one: one-byte sequences are ASCII; longer
//! sequences start with a leading byte whose range excludes overlong forms
//! (`0xC2..=0xDF`, `0xE0..=0xEF`, `0xF0..=0xF4`), continue with bytes in
//! `0x80..=0xBF`, and the second byte of `0xE0`-, `0xED`-, `0xF0`- and
//! `0xF4`-led sequences is further restricted to exclude overlong forms,
//! surrogates, and code points above `0x10FFFF`.

use vstd::prelude::*;

verus! {

/// A UTF-8 continuation byte: high bits `10`.
pub open spec fn is_cont(b: u8) -> bool {
    0x80 <= b && b <= 0xBF
}

/// Length of the well-formed UTF-8 sequence that starts at position `i` of
/// `s`, or `0` if the bytes at `i` do not begin one.
pub open spec fn utf8_step(s: Seq<u8>, i: int) -> int {
    if i < 0 || i >= s.len() {
        0
    } else {
        let b0 = s[i];
        if b0 < 0x80 {
            1
        } else if 0xC2 <= b0 && b0 <= 0xDF {
            if i + 1 < s.len() && is_cont(s[i + 1]) {
                2
            } else {
                0
            }
        } else if b0 == 0xE0 {
            if i + 2 < s.len() && 0xA0 <= s[i + 1] && s[i + 1] <= 0xBF && is_cont(s[i + 2]) {
                3
            } else {
                0
            }
        } else if 0xE1 <= b0 && b0 <= 0xEC {
            if i + 2 < s.len() && is_cont(s[i + 1]) && is_cont(s[i + 2]) {
                3
            } else {
                0
            }
        } else if b0 == 0xED {
            if i + 2 < s.len() && 0x80 <= s[i + 1] && s[i + 1] <= 0x9F && is_cont(s[i + 2]) {
                3
            } else {
                0
            }
        } else if 0xEE <= b0 && b0 <= 0xEF {
            if i + 2 < s.len() && is_cont(s[i + 1]) && is_cont(s[i + 2]) {
                3
            } else {
                0
            }
        } else if b0 == 0xF0 {
            if i + 3 < s.len() && 0x90 <= s[i + 1] && s[i + 1] <= 0xBF && is_cont(s[i + 2])
                && is_cont(s[i + 3]) {
                4
            } else {
                0
            }
        } else if 0xF1 <= b0 && b0 <= 0xF3 {
            if i + 3 < s.len() && is_cont(s[i + 1]) && is_cont(s[i + 2]) && is_cont(s[i + 3]) {
                4
            } else {
                0
            }
        } else if b0 == 0xF4 {
            if i + 3 < s.len() && 0x80 <= s[i + 1] && s[i + 1] <= 0x8F && is_cont(s[i + 2])
                && is_cont(s[i + 3]) {
                4
            } else {
                0
            }
        } else {
            0
        }
    }
}

/// The bytes of `s` from position `i` to the end form a well-formed UTF-8
/// string.
pub open spec fn valid_utf8_from(s: Seq<u8>, i: int) -> bool
    decreases s.len() - i
        when 0 <= i <= s.len()
{
    if i == s.len() {
        true
    } else {
        let k = utf8_step(s, i);
        k > 0 && valid_utf8_from(s, i + k)
    }
}

/// The whole of `s` forms a well-formed UTF-8 string.
pub open spec fn valid_utf8(s: Seq<u8>) -> bool {
    valid_utf8_from(s, 0)
}

/// Whether `b` is a UTF-8 continuation byte.
fn is_cont_byte(b: u8) -> (r: bool)
    ensures
        r == is_cont(b),
{
    0x80 <= b && b <= 0xBF
}

/// Decide in one pass whether `bytes` is well-formed UTF-8.
pub fn validate_utf8(bytes: &[u8]) -> (r: bool)
    ensures
        r == valid_utf8(bytes@),
{
    let n: usize = bytes.len();
    let mut i: usize = 0;
    while i < n
        invariant
            n == bytes@.len(),
            i <= n,
            valid_utf8(bytes@) == valid_utf8_from(bytes@, i as int),
        decreases n - i,
    {
        let b0 = bytes[i];
        let rem: usize = n - i;
        let mut step: usize = 0;
        if b0 < 0x80 {
            step = 1;
        } else if 0xC2 <= b0 && b0 <= 0xDF {
            if rem >= 2 && is_cont_byte(bytes[i + 1]) {
                step = 2;
            }
        } else if b0 == 0xE0 {
            if rem >= 3 && 0xA0 <= bytes[i + 1] && bytes[i + 1] <= 0xBF && is_cont_byte(
                bytes[i + 2],
            ) {
                step = 3;
            }
        } else if 0xE1 <= b0 && b0 <= 0xEC {
            if rem >= 3 && is_cont_byte(bytes[i + 1]) && is_cont_byte(bytes[i + 2]) {
                step = 3;
            }
        } else if b0 == 0xED {
            if rem >= 3 && 0x80 <= bytes[i + 1] && bytes[i + 1] <= 0x9F && is_cont_byte(
                bytes[i + 2],
            ) {
                step = 3;
            }
        } else if 0xEE <= b0 && b0 <= 0xEF {
            if rem >= 3 && is_cont_byte(bytes[i + 1]) && is_cont_byte(bytes[i + 2]) {
                step = 3;
            }
        } else if b0 == 0xF0 {
            if rem >= 4 && 0x90 <= bytes[i + 1] && bytes[i + 1] <= 0xBF && is_cont_byte(
                bytes[i + 2],
            ) && is_cont_byte(bytes[i + 3]) {
                step = 4;
            }
        } else if 0xF1 <= b0 && b0 <= 0xF3 {
            if rem >= 4 && is_cont_byte(bytes[i + 1]) && is_cont_byte(bytes[i + 2]) && is_cont_byte(
                bytes[i + 3],
            ) {
                step = 4;
            }
        } else if b0 == 0xF4 {
            if rem >= 4 && 0x80 <= bytes[i + 1] && bytes[i + 1] <= 0x8F && is_cont_byte(
                bytes[i + 2],
            ) && is_cont_byte(bytes[i + 3]) {
                step = 4;
            }
        }
        if step == 0 {
            assert(utf8_step(bytes@, i as int) == 0);
            assert(!valid_utf8_from(bytes@, i as int));
            return false;
        }
        assert(utf8_step(bytes@, i as int) == step);
        assert(valid_utf8_from(bytes@, i as int) == valid_utf8_from(bytes@, i + step));
        i = i + step;
    }
    true
}

} // verus!
