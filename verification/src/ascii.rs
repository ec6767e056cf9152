//! The ASCII bytes that the grammar names.
use vstd::prelude::*;

verus! {

/// A horizontal tab.
pub const TAB: u8 = 9;

/// A line feed.
pub const LINE_FEED: u8 = 10;

/// A carriage return.
pub const CARRIAGE_RETURN: u8 = 13;

/// A space.
pub const SPACE: u8 = 32;

/// `"`
pub const DOUBLE_QUOTE: u8 = 34;

/// `'`
pub const QUOTE: u8 = 39;

/// `(`
pub const LEFT_PAREN: u8 = 40;

/// `)`
pub const RIGHT_PAREN: u8 = 41;

/// `*`
pub const STAR: u8 = 42;

/// `,`
pub const COMMA: u8 = 44;

/// `-`
pub const MINUS: u8 = 45;

/// `.`
pub const DOT: u8 = 46;

/// `/`
pub const SLASH: u8 = 47;

/// `;`
pub const SEMICOLON: u8 = 59;

/// A backslash.
pub const BACKSLASH: u8 = 92;

/// A backtick.
pub const BACKTICK: u8 = 96;

/// Whether `b` is an ASCII letter.
pub open spec fn is_alpha(b: u8) -> bool {
    (97 <= b && b <= 122) || (65 <= b && b <= 90)
}

/// Whether `b` is an ASCII digit.
pub open spec fn is_digit(b: u8) -> bool {
    48 <= b && b <= 57
}

/// The ASCII lower-case form of a byte; bytes other than `A`..`Z` stay.
pub open spec fn lower(b: u8) -> u8 {
    if 65 <= b && b <= 90 {
        (b + 32) as u8
    } else {
        b
    }
}

/// The bytes of `s`, each in ASCII lower case.
pub open spec fn lowered(s: Seq<u8>) -> Seq<u8> {
    Seq::new(s.len(), |i: int| lower(s[i]))
}

/// Tells ASCII letters from other bytes.
pub fn alphabetic(b: u8) -> (r: bool)
    ensures
        r == is_alpha(b),
{
    (97 <= b && b <= 122) || (65 <= b && b <= 90)
}

/// Tells ASCII digits from other bytes.
pub fn numeric(b: u8) -> (r: bool)
    ensures
        r == is_digit(b),
{
    48 <= b && b <= 57
}

/// Puts an ASCII capital in lower case and leaves any other byte alone.
pub fn to_lower(b: u8) -> (r: u8)
    ensures
        r == lower(b),
{
    if 65 <= b && b <= 90 {
        b + 32
    } else {
        b
    }
}

} // verus!
