//! Letter case and character classes.
//!
//! The tables behind the Unicode classes and case mappings are those of the
//! standard library; what it answers for a character is named here and stated
//! in full for ASCII only.

use vstd::prelude::*;

use crate::text::append;

verus! {

/// Whether `c` is an ASCII letter.
pub open spec fn is_ascii_letter(c: char) -> bool {
    'a' <= c <= 'z' || 'A' <= c <= 'Z'
}

/// Whether `c` is an ASCII letter or digit.
pub open spec fn is_ascii_alphanumeric(c: char) -> bool {
    is_ascii_letter(c) || '0' <= c <= '9'
}

/// Whether `c` is an uppercase ASCII letter.
pub open spec fn is_ascii_uppercase(c: char) -> bool {
    'A' <= c <= 'Z'
}

/// Whether `c` is an ASCII character.
pub open spec fn is_ascii_char(c: char) -> bool {
    c <= '\u{7f}'
}

/// `c` with an uppercase ASCII letter made lowercase.
pub open spec fn ascii_lower(c: char) -> char {
    if 'A' <= c <= 'Z' {
        (c as u32 + 32) as char
    } else {
        c
    }
}

/// `c` with a lowercase ASCII letter made uppercase.
pub open spec fn ascii_upper(c: char) -> char {
    if 'a' <= c <= 'z' {
        (c as u32 - 32) as char
    } else {
        c
    }
}

/// `text` with its uppercase ASCII letters made lowercase.
pub open spec fn ascii_lowercase(text: Seq<char>) -> Seq<char> {
    text.map_values(|c: char| ascii_lower(c))
}

/// `text` with its lowercase ASCII letters made uppercase.
pub open spec fn ascii_uppercase(text: Seq<char>) -> Seq<char> {
    text.map_values(|c: char| ascii_upper(c))
}

/// What `char::is_alphabetic` answers.
pub uninterp spec fn unicode_alphabetic(c: char) -> bool;

/// What `char::is_alphanumeric` answers.
pub uninterp spec fn unicode_alphanumeric(c: char) -> bool;

/// What `char::to_lowercase` yields.
pub uninterp spec fn unicode_lower(c: char) -> Seq<char>;

/// What `char::to_uppercase` yields.
pub uninterp spec fn unicode_upper(c: char) -> Seq<char>;

/// What `str::to_lowercase` returns.
pub uninterp spec fn unicode_lowercase(text: Seq<char>) -> Seq<char>;

/// `char::is_alphabetic`: whether the character has Unicode's `Alphabetic`
/// property. Among the ASCII characters these are the letters.
pub assume_specification[ char::is_alphabetic ](c: char) -> (res: bool)
    ensures
        res == unicode_alphabetic(c),
        is_ascii_char(c) ==> res == is_ascii_letter(c),
;

/// `char::is_alphanumeric`: whether the character is alphabetic or numeric in
/// Unicode's terms. Among the ASCII characters these are the letters and the
/// digits.
pub assume_specification[ char::is_alphanumeric ](c: char) -> (res: bool)
    ensures
        res == unicode_alphanumeric(c),
        is_ascii_char(c) ==> res == is_ascii_alphanumeric(c),
;

/// `char::to_lowercase`: the lowercase mapping of the character, one or more
/// characters. An ASCII character maps to its ASCII lowercase.
#[verifier::external_body]
fn lower(c: char) -> (out: Vec<char>)
    ensures
        out@ == unicode_lower(c),
        out@.len() >= 1,
        is_ascii_char(c) ==> out@ == seq![ascii_lower(c)],
{
    c.to_lowercase().collect()
}

/// `char::to_uppercase`: the uppercase mapping of the character, one or more
/// characters. An ASCII character maps to its ASCII uppercase.
#[verifier::external_body]
fn upper(c: char) -> (out: Vec<char>)
    ensures
        out@ == unicode_upper(c),
        out@.len() >= 1,
        is_ascii_char(c) ==> out@ == seq![ascii_upper(c)],
{
    c.to_uppercase().collect()
}

/// `str::to_lowercase`: the lowercase equivalent of the whole text, in which
/// a mapping may depend on where a character stands. A text of ASCII
/// characters maps character by character.
#[verifier::external_body]
pub(crate) fn lowercase(text: &str) -> (out: String)
    ensures
        out@ == unicode_lowercase(text@),
        (forall|i: int| 0 <= i < text@.len() ==> is_ascii_char(#[trigger] text@[i])) ==> out@
            == ascii_lowercase(text@),
{
    text.to_lowercase()
}

/// The lowercase mappings of the characters, one after the other.
pub open spec fn lower_chars(text: Seq<char>) -> Seq<char>
    decreases text.len(),
{
    if text.len() == 0 {
        Seq::empty()
    } else {
        lower_chars(text.drop_last()) + unicode_lower(text.last())
    }
}

/// The lowercase mappings of the characters.
pub fn lowered(text: &[char]) -> (out: Vec<char>)
    ensures
        out@ == lower_chars(text@),
{
    let mut out: Vec<char> = Vec::new();
    let mut i: usize = 0;
    while i < text.len()
        invariant
            i <= text@.len(),
            out@ == lower_chars(text@.take(i as int)),
        decreases text@.len() - i,
    {
        append(&mut out, lower(text[i]).as_slice());
        assert(text@.take(i + 1).drop_last() == text@.take(i as int));
        i += 1;
    }
    assert(text@.take(text@.len() as int) == text@);
    out
}

/// The uppercase mapping of one character.
pub fn append_upper(out: &mut Vec<char>, c: char)
    ensures
        final(out)@ == old(out)@ + unicode_upper(c),
{
    append(out, upper(c).as_slice());
}

/// Makes an uppercase ASCII letter lowercase.
pub fn to_ascii_lower(c: char) -> (res: char)
    ensures
        res == ascii_lower(c),
{
    if 'A' <= c && c <= 'Z' {
        (c as u8 + 32) as char
    } else {
        c
    }
}

/// Makes a lowercase ASCII letter uppercase.
pub fn to_ascii_upper(c: char) -> (res: char)
    ensures
        res == ascii_upper(c),
{
    if 'a' <= c && c <= 'z' {
        (c as u8 - 32) as char
    } else {
        c
    }
}

/// Makes the uppercase ASCII letters of a text lowercase.
pub fn to_ascii_lowercase(text: &[char]) -> (out: Vec<char>)
    ensures
        out@ == ascii_lowercase(text@),
{
    let mut out: Vec<char> = Vec::new();
    let mut i: usize = 0;
    while i < text.len()
        invariant
            i <= text@.len(),
            out@ == ascii_lowercase(text@.take(i as int)),
        decreases text@.len() - i,
    {
        out.push(to_ascii_lower(text[i]));
        assert(text@.take(i + 1) == text@.take(i as int).push(text@[i as int]));
        assert(out@ =~= ascii_lowercase(text@.take(i + 1)));
        i += 1;
    }
    assert(text@.take(text@.len() as int) == text@);
    out
}

/// Makes the lowercase ASCII letters of a text uppercase.
pub fn to_ascii_uppercase(text: &[char]) -> (out: Vec<char>)
    ensures
        out@ == ascii_uppercase(text@),
{
    let mut out: Vec<char> = Vec::new();
    let mut i: usize = 0;
    while i < text.len()
        invariant
            i <= text@.len(),
            out@ == ascii_uppercase(text@.take(i as int)),
        decreases text@.len() - i,
    {
        out.push(to_ascii_upper(text[i]));
        assert(text@.take(i + 1) == text@.take(i as int).push(text@[i as int]));
        assert(out@ =~= ascii_uppercase(text@.take(i + 1)));
        i += 1;
    }
    assert(text@.take(text@.len() as int) == text@);
    out
}

} // verus!
