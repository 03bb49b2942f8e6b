//! UTF-8 validation of raw input bytes, checked before any parsing.
//! Shortest-form UTF-8, with surrogates and values above U+10FFFF
//! rejected; the validator reports the offset of the first invalid
//! sequence.

use vstd::prelude::*;

verus! {

pub open spec fn utf8_cont(b: u8) -> bool {
    0x80 <= b && b <= 0xBF
}

/// Offset of the first byte of the first invalid sequence at or after `i`,
/// or `None` when the rest is well-formed UTF-8.
pub open spec fn utf8_fail_from(s: Seq<u8>, i: int) -> Option<int>
    decreases s.len() - i,
{
    if i < 0 || i >= s.len() {
        None
    } else {
        let b0 = s[i];
        if b0 < 0x80 {
            utf8_fail_from(s, i + 1)
        } else if 0xC2 <= b0 && b0 <= 0xDF {
            if i + 2 <= s.len() && utf8_cont(s[i + 1]) {
                utf8_fail_from(s, i + 2)
            } else {
                Some(i)
            }
        } else if b0 == 0xE0 {
            if i + 3 <= s.len() && 0xA0 <= s[i + 1] && s[i + 1] <= 0xBF && utf8_cont(s[i + 2]) {
                utf8_fail_from(s, i + 3)
            } else {
                Some(i)
            }
        } else if (0xE1 <= b0 && b0 <= 0xEC) || b0 == 0xEE || b0 == 0xEF {
            if i + 3 <= s.len() && utf8_cont(s[i + 1]) && utf8_cont(s[i + 2]) {
                utf8_fail_from(s, i + 3)
            } else {
                Some(i)
            }
        } else if b0 == 0xED {
            if i + 3 <= s.len() && 0x80 <= s[i + 1] && s[i + 1] <= 0x9F && utf8_cont(s[i + 2]) {
                utf8_fail_from(s, i + 3)
            } else {
                Some(i)
            }
        } else if b0 == 0xF0 {
            if i + 4 <= s.len() && 0x90 <= s[i + 1] && s[i + 1] <= 0xBF && utf8_cont(s[i + 2])
                && utf8_cont(s[i + 3]) {
                utf8_fail_from(s, i + 4)
            } else {
                Some(i)
            }
        } else if 0xF1 <= b0 && b0 <= 0xF3 {
            if i + 4 <= s.len() && utf8_cont(s[i + 1]) && utf8_cont(s[i + 2]) && utf8_cont(
                s[i + 3],
            ) {
                utf8_fail_from(s, i + 4)
            } else {
                Some(i)
            }
        } else if b0 == 0xF4 {
            if i + 4 <= s.len() && 0x80 <= s[i + 1] && s[i + 1] <= 0x8F && utf8_cont(s[i + 2])
                && utf8_cont(s[i + 3]) {
                utf8_fail_from(s, i + 4)
            } else {
                Some(i)
            }
        } else {
            Some(i)
        }
    }
}

pub open spec fn utf8_valid(s: Seq<u8>) -> bool {
    utf8_fail_from(s, 0) is None
}

/// Offset of the first invalid UTF-8 sequence, or `None` if well-formed.
#[verifier::loop_isolation(false)]
pub fn utf8_check(s: &[u8]) -> (r: Option<usize>)
    ensures
        match r {
            Some(i) => utf8_fail_from(s@, 0) == Some(i as int) && i < s@.len(),
            None => utf8_valid(s@),
        },
{
    let n = s.len();
    let mut i: usize = 0;
    while i < n
        invariant
            i <= n,
            utf8_fail_from(s@, 0) == utf8_fail_from(s@, i as int),
        decreases n - i,
    {
        let b0 = s[i];
        if b0 < 0x80 {
            i = i + 1;
        } else if 0xC2 <= b0 && b0 <= 0xDF {
            if n - i >= 2 && 0x80 <= s[i + 1] && s[i + 1] <= 0xBF {
                i = i + 2;
            } else {
                return Some(i);
            }
        } else if b0 == 0xE0 {
            if n - i >= 3 && 0xA0 <= s[i + 1] && s[i + 1] <= 0xBF && 0x80 <= s[i + 2] && s[i + 2]
                <= 0xBF {
                i = i + 3;
            } else {
                return Some(i);
            }
        } else if (0xE1 <= b0 && b0 <= 0xEC) || b0 == 0xEE || b0 == 0xEF {
            if n - i >= 3 && 0x80 <= s[i + 1] && s[i + 1] <= 0xBF && 0x80 <= s[i + 2] && s[i + 2]
                <= 0xBF {
                i = i + 3;
            } else {
                return Some(i);
            }
        } else if b0 == 0xED {
            if n - i >= 3 && 0x80 <= s[i + 1] && s[i + 1] <= 0x9F && 0x80 <= s[i + 2] && s[i + 2]
                <= 0xBF {
                i = i + 3;
            } else {
                return Some(i);
            }
        } else if b0 == 0xF0 {
            if n - i >= 4 && 0x90 <= s[i + 1] && s[i + 1] <= 0xBF && 0x80 <= s[i + 2] && s[i + 2]
                <= 0xBF && 0x80 <= s[i + 3] && s[i + 3] <= 0xBF {
                i = i + 4;
            } else {
                return Some(i);
            }
        } else if 0xF1 <= b0 && b0 <= 0xF3 {
            if n - i >= 4 && 0x80 <= s[i + 1] && s[i + 1] <= 0xBF && 0x80 <= s[i + 2] && s[i + 2]
                <= 0xBF && 0x80 <= s[i + 3] && s[i + 3] <= 0xBF {
                i = i + 4;
            } else {
                return Some(i);
            }
        } else if b0 == 0xF4 {
            if n - i >= 4 && 0x80 <= s[i + 1] && s[i + 1] <= 0x8F && 0x80 <= s[i + 2] && s[i + 2]
                <= 0xBF && 0x80 <= s[i + 3] && s[i + 3] <= 0xBF {
                i = i + 4;
            } else {
                return Some(i);
            }
        } else {
            return Some(i);
        }
    }
    None
}

/// What `str::from_utf8` yields on well-formed bytes: the decoded
/// character sequence, a function of the bytes alone.
pub uninterp spec fn decoded_of(s: Seq<u8>) -> Seq<char>;

/// Relies on str::from_utf8: on bytes this module's validator accepts it
/// returns the decoded string slice.
#[verifier::external_body]
pub fn bytes_to_str(b: &[u8]) -> (r: &str)
    requires
        utf8_valid(b@),
    ensures
        r@ == decoded_of(b@),
{
    str::from_utf8(b).unwrap()
}

} // verus!
