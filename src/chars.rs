//! Character classes used by the segmenter.
use vstd::prelude::*;

verus! {

/// A code point of the CJK Unified Ideographs range `[0x4E00, 0x9FA6)`.
pub open spec fn spec_is_chinese(c: char) -> bool {
    0x4e00 <= (c as u32) && (c as u32) < 0x9fa6
}

/// An ASCII digit or letter.
pub open spec fn spec_is_alnum(c: char) -> bool {
    ('0' <= c && c <= '9') || ('A' <= c && c <= 'Z') || ('a' <= c && c <= 'z')
}

pub fn is_chinese_char(c: char) -> (r: bool)
    ensures
        r == spec_is_chinese(c),
{
    let v = c as u32;
    v >= 0x4e00 && v < 0x9fa6
}

pub fn is_ascii_alnum(c: char) -> (r: bool)
    ensures
        r == spec_is_alnum(c),
{
    ('0' <= c && c <= '9') || ('A' <= c && c <= 'Z') || ('a' <= c && c <= 'z')
}

} // verus!
