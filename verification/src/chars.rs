//! Character classification for the pre-tokenization grammar.
//!
//! The grammar distinguishes letters, numerals, whitespace, newlines and
//! "symbolic" characters (everything else). Whitespace and newlines are
//! small fixed sets and are defined here outright; the Unicode letter and
//! numeral classes come from std behind trusted wrappers.
use vstd::prelude::*;

verus! {

/// True of the two characters the grammar treats as line breaks.
pub open spec fn is_nl(c: char) -> bool {
    c == '\r' || c == '\n'
}

/// The Unicode `White_Space` characters, written out as code points.
pub open spec fn is_ws(c: char) -> bool {
    ||| 0x9 <= c as u32 <= 0xD
    ||| c as u32 == 0x20
    ||| c as u32 == 0x85
    ||| c as u32 == 0xA0
    ||| c as u32 == 0x1680
    ||| 0x2000 <= c as u32 <= 0x200A
    ||| c as u32 == 0x2028
    ||| c as u32 == 0x2029
    ||| c as u32 == 0x202F
    ||| c as u32 == 0x205F
    ||| c as u32 == 0x3000
}

/// Whether a character is a Unicode letter; the wrapper below ties this
/// name to `char::is_alphabetic`.
pub uninterp spec fn is_letter(c: char) -> bool;

/// Whether a character is a Unicode numeral; the wrapper below ties this
/// name to `char::is_numeric`.
pub uninterp spec fn is_number(c: char) -> bool;

/// Relies on `char::is_alphabetic`: membership in the Unicode letter
/// category, a function of the character alone.
#[verifier::external_body]
pub fn char_is_letter(c: char) -> (r: bool)
    ensures
        r == is_letter(c),
{
    c.is_alphabetic()
}

/// Relies on `char::is_numeric`: membership in the Unicode number
/// category, a function of the character alone.
#[verifier::external_body]
pub fn char_is_number(c: char) -> (r: bool)
    ensures
        r == is_number(c),
{
    c.is_numeric()
}

pub fn char_is_nl(c: char) -> (r: bool)
    ensures
        r == is_nl(c),
{
    c == '\r' || c == '\n'
}

pub fn char_is_ws(c: char) -> (r: bool)
    ensures
        r == is_ws(c),
{
    let u = c as u32;
    (0x9 <= u && u <= 0xD) || u == 0x20 || u == 0x85 || u == 0xA0 || u == 0x1680
        || (0x2000 <= u && u <= 0x200A) || u == 0x2028 || u == 0x2029 || u == 0x202F || u == 0x205F
        || u == 0x3000
}

/// A character that no other grammar class covers: not whitespace, not a
/// letter, not a numeral.
pub open spec fn is_sym(c: char) -> bool {
    !is_ws(c) && !is_letter(c) && !is_number(c)
}

pub fn char_is_sym(c: char) -> (r: bool)
    ensures
        r == is_sym(c),
{
    !char_is_ws(c) && !char_is_letter(c) && !char_is_number(c)
}

} // verus!
