//! Searching and comparing bytes.

use vstd::prelude::*;

verus! {

/// The line feed, which ends a line.
pub const NEWLINE: u8 = 0x0A;

/// The carriage return, dropped from the end of a line.
pub const RETURN: u8 = 0x0D;

/// The double quote, which opens and closes a JSON string.
pub const QUOTE: u8 = 0x22;

/// The backslash, which escapes the byte behind it in a JSON string.
pub const BACKSLASH: u8 = 0x5C;

/// The space.
pub const SPACE: u8 = 0x20;

/// The horizontal tab.
pub const TAB: u8 = 0x09;

/// `{`, which opens an object.
pub const OPEN_BRACE: u8 = 0x7B;

/// `}`, which closes an object.
pub const CLOSE_BRACE: u8 = 0x7D;

/// `[`, which opens an array.
pub const OPEN_BRACKET: u8 = 0x5B;

/// `]`, which closes an array.
pub const CLOSE_BRACKET: u8 = 0x5D;

/// `:`, which stands between a key and its value.
pub const COLON: u8 = 0x3A;

/// `,`, which stands between two members.
pub const COMMA: u8 = 0x2C;

/// `-`, the minus sign.
pub const MINUS: u8 = 0x2D;

/// `+`, the plus sign.
pub const PLUS: u8 = 0x2B;

/// `.`, the decimal point.
pub const POINT: u8 = 0x2E;

/// `0`, the first digit.
pub const ZERO: u8 = 0x30;

/// `9`, the last digit.
pub const NINE: u8 = 0x39;

/// `e`, before an exponent.
pub const LOWER_E: u8 = 0x65;

/// `E`, before an exponent.
pub const UPPER_E: u8 = 0x45;

/// `p` is the first position of `hay` at which `wanted` holds.
pub open spec fn is_first(hay: Seq<u8>, wanted: spec_fn(u8) -> bool, p: int) -> bool {
    &&& 0 <= p < hay.len()
    &&& wanted(hay[p])
    &&& forall|i: int| 0 <= i < p ==> !wanted(#[trigger] hay[i])
}

/// No byte of `hay` is `wanted`.
pub open spec fn has_none(hay: Seq<u8>, wanted: spec_fn(u8) -> bool) -> bool {
    forall|i: int| 0 <= i < hay.len() ==> !wanted(#[trigger] hay[i])
}

/// `memchr::memchr` gives the position of the first byte of the haystack that
/// equals the needle, and `None` if no byte does.
pub assume_specification[ memchr::memchr ](needle: u8, haystack: &[u8]) -> (out: Option<usize>)
    ensures
        match out {
            Some(p) => is_first(haystack@, |b: u8| b == needle, p as int),
            None => has_none(haystack@, |b: u8| b == needle),
        },
;

/// `memchr::memchr2` gives the position of the first byte of the haystack that
/// equals one of two needles, and `None` if no byte does.
pub assume_specification[ memchr::memchr2 ](
    needle1: u8,
    needle2: u8,
    haystack: &[u8],
) -> (out: Option<usize>)
    ensures
        match out {
            Some(p) => is_first(haystack@, |b: u8| b == needle1 || b == needle2, p as int),
            None => has_none(haystack@, |b: u8| b == needle1 || b == needle2),
        },
;

/// `hay` begins with `prefix`.
pub open spec fn has_prefix(hay: Seq<u8>, prefix: Seq<u8>) -> bool {
    prefix.len() <= hay.len() && hay.take(prefix.len() as int) == prefix
}

/// Whether `hay` begins with `prefix` (`<[u8]>::starts_with`).
#[verifier::external_body]
pub(crate) fn starts_with(hay: &[u8], prefix: &[u8]) -> (out: bool)
    ensures
        out == has_prefix(hay@, prefix@),
{
    hay.starts_with(prefix)
}

} // verus!
