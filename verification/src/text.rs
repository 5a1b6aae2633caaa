//! Character classes and case mapping (Unicode tables, taken from std), the
//! White_Space test, and string comparison.
use vstd::prelude::*;

use crate::pfr::fuzzy_search::chars_of;

verus! {

/// Whether `c` is alphabetic or numeric in Unicode, as `char::is_alphanumeric` says.
pub uninterp spec fn alphanumeric(c: char) -> bool;

/// The first character of the lowercase mapping of `c`, as `char::to_lowercase` gives it.
pub uninterp spec fn lowercase_first(c: char) -> char;

/// The lowercase mapping of a string, as `str::to_lowercase` gives it.
pub uninterp spec fn lowercase(s: Seq<char>) -> Seq<char>;

/// The text `String::from_utf8_lossy` makes of some bytes.
pub uninterp spec fn utf8_lossy(b: Seq<u8>) -> Seq<char>;


/// Whether `c` has the Unicode White_Space property, the test
/// `char::is_whitespace` makes: the ASCII tab, line feed, vertical tab, form
/// feed, carriage return and space, and U+0085, U+00A0, U+1680,
/// U+2000..=U+200A, U+2028, U+2029, U+202F, U+205F and U+3000.
pub open spec fn whitespace(c: char) -> bool {
    let v = c as u32;
    ||| 0x09 <= v <= 0x0D
    ||| v == 0x20
    ||| v == 0x85
    ||| v == 0xA0
    ||| v == 0x1680
    ||| 0x2000 <= v <= 0x200A
    ||| v == 0x2028
    ||| v == 0x2029
    ||| v == 0x202F
    ||| v == 0x205F
    ||| v == 0x3000
}

/// Whether `c` is white space (see `whitespace`).
pub fn is_whitespace(c: char) -> (r: bool)
    ensures
        r == whitespace(c),
{
    let v = c as u32;
    (0x09 <= v && v <= 0x0D) || v == 0x20 || v == 0x85 || v == 0xA0 || v == 0x1680 || (0x2000 <= v && v
        <= 0x200A) || v == 0x2028 || v == 0x2029 || v == 0x202F || v == 0x205F || v == 0x3000
}

/// `char::is_alphanumeric`: the Unicode Alphabetic or Numeric property. Its
/// value comes from std's Unicode tables and is named, not stated.
#[verifier::external_body]
pub(crate) fn is_alphanumeric(c: char) -> (r: bool)
    ensures
        r == alphanumeric(c),
{
    c.is_alphanumeric()
}

/// `char::to_lowercase`, first character: std documents that the mapping yields
/// at least one character; which one comes from its Unicode tables and is named,
/// not stated.
#[verifier::external_body]
pub(crate) fn char_to_lowercase(c: char) -> (r: char)
    ensures
        r == lowercase_first(c),
{
    c.to_lowercase().next().unwrap()
}

/// `str::to_lowercase`: the lowercase mapping of each character (with the
/// final-sigma rule), from std's Unicode tables; the result is named, not stated.
#[verifier::external_body]
pub(crate) fn to_lowercase(s: &str) -> (r: String)
    ensures
        r@ == lowercase(s@),
{
    s.to_lowercase()
}

/// `String::from_utf8_lossy`: std documents that valid UTF-8 comes back as the
/// same text and that each invalid sequence (at least one byte) becomes one
/// replacement character, so there are no more characters than bytes; which
/// characters come out of invalid input is named, not stated.
#[verifier::external_body]
pub(crate) fn from_utf8_lossy(b: &[u8]) -> (r: String)
    ensures
        r@ == utf8_lossy(b@),
        vstd::utf8::valid_utf8(b@) ==> r@ == vstd::utf8::decode_utf8(b@),
        r@.len() <= b@.len(),
{
    String::from_utf8_lossy(b).into_owned()
}

/// The text `String::from_utf8_lossy` makes of some bytes, with what std
/// documents made explicit: valid UTF-8 comes back as the text it encodes.
pub open spec fn lossy_text(b: Seq<u8>) -> Seq<char> {
    if vstd::utf8::valid_utf8(b) {
        vstd::utf8::decode_utf8(b)
    } else {
        utf8_lossy(b)
    }
}

/// `String::push`: std documents that it appends the character to the end.
#[verifier::external_body]
pub(crate) fn push_char(s: &mut String, c: char)
    ensures
        final(s)@ == old(s)@.push(c),
{
    s.push(c)
}

/// Whether two strings hold the same characters.
pub fn str_eq(a: &str, b: &str) -> (r: bool)
    ensures
        r == (a@ == b@),
{
    let va = chars_of(a);
    let vb = chars_of(b);
    if va.len() != vb.len() {
        return false;
    }
    let mut i: usize = 0;
    while i < va.len()
        invariant
            va@ == a@,
            vb@ == b@,
            va@.len() == vb@.len(),
            i <= va@.len(),
            forall|k: int| 0 <= k < i ==> va@[k] == vb@[k],
        decreases va@.len() - i,
    {
        if va[i] != vb[i] {
            return false;
        }
        i = i + 1;
    }
    assert(a@ =~= b@);
    true
}

} // verus!
