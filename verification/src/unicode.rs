//! Character properties from Unicode: display widths, as `unicode_width`
//! computes them, and the White_Space property, as std reports it.

use unicode_width::{UnicodeWidthChar, UnicodeWidthStr};
use vstd::prelude::*;

verus! {

/// The width that `UnicodeWidthChar::width` gives a character: `None` for a
/// control character, else the number of columns it takes.
pub uninterp spec fn unicode_char_width(c: char) -> Option<usize>;

/// The width that `UnicodeWidthStr::width` gives a string.
pub uninterp spec fn unicode_str_width(s: Seq<char>) -> usize;

/// Calls `UnicodeWidthChar::width`. Its result is named by
/// `unicode_char_width`; the source shows that printable ASCII is one column
/// wide, that the C0 and C1 control ranges (and DEL) have no width, and that
/// every character from U+00A0 on has one.
#[verifier::external_body]
pub(crate) fn char_width(c: char) -> (r: Option<usize>)
    ensures
        r == unicode_char_width(c),
        0x20 <= (c as u32) < 0x7f ==> r == Some(1usize),
        (c as u32) < 0x20 || (0x7f <= (c as u32) < 0xa0) ==> r is None,
        0xa0 <= (c as u32) ==> r is Some,
{
    UnicodeWidthChar::width(c)
}

/// Calls `UnicodeWidthStr::width`. Its result is named by
/// `unicode_str_width`; the source folds over the characters from zero, so
/// the empty string has width zero.
#[verifier::external_body]
pub(crate) fn str_width(s: &str) -> (r: usize)
    ensures
        r == unicode_str_width(s@),
        s@.len() == 0 ==> r == 0,
{
    UnicodeWidthStr::width(s)
}

/// Whether a character has the Unicode White_Space property, as `char::is_whitespace`
/// reports it: the 25 code points that PropList.txt lists, U+0009 to U+000D,
/// U+0020, U+0085, U+00A0, U+1680, U+2000 to U+200A, U+2028, U+2029, U+202F,
/// U+205F and U+3000.
pub open spec fn has_white_space_property(c: char) -> bool {
    let u = c as u32;
    ||| 0x9 <= u <= 0xd
    ||| u == 0x20
    ||| u == 0x85
    ||| u == 0xa0
    ||| u == 0x1680
    ||| 0x2000 <= u <= 0x200a
    ||| u == 0x2028
    ||| u == 0x2029
    ||| u == 0x202f
    ||| u == 0x205f
    ||| u == 0x3000
}

/// Calls `char::is_whitespace`, which its documentation defines as having the
/// White_Space property of the Unicode Character Database; the contract
/// claims the property as `has_white_space_property` lists it.
#[verifier::external_body]
pub(crate) fn is_whitespace(c: char) -> (r: bool)
    ensures
        r == has_white_space_property(c),
{
    c.is_whitespace()
}

/// Whether a character is an ASCII control character, as `char::is_ascii_control`
/// documents it: U+0000 to U+001F, or U+007F.
pub open spec fn is_ascii_control(c: char) -> bool {
    (c as u32) <= 0x1f || (c as u32) == 0x7f
}

} // verus!
