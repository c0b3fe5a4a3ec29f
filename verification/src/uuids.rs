//! UUIDs as numbers, and their textual forms.

use vstd::arithmetic::power::pow;
use vstd::prelude::*;

use crate::letters::ascii_lowercase;
use crate::numerals::{hex_digits, hex_value, is_hex_digit, lemma_hex_digits, lemma_hex_digits_shape};

verus! {

/// A UUID: the number that its sixteen bytes form, the first byte being the
/// most significant.
#[derive(Clone, Copy, Debug, Default, Eq, Ord, PartialEq, PartialOrd, Structural)]
pub struct Uuid(pub u128);

/// Digits in groups of 8, 4, 4, 4 and 12, with hyphens between the groups.
pub open spec fn grouped(digits: Seq<char>) -> Seq<char> {
    digits.subrange(0, 8).push('-') + digits.subrange(8, 12).push('-') + digits.subrange(
        12,
        16,
    ).push('-') + digits.subrange(16, 20).push('-') + digits.subrange(20, 32)
}

/// The hyphenated form of a UUID in lowercase.
pub open spec fn hyphenated_text(value: nat) -> Seq<char> {
    grouped(hex_digits(value, 32))
}

/// The digits of a hyphenated form, without the hyphens.
pub open spec fn ungrouped(text: Seq<char>) -> Seq<char> {
    text.subrange(0, 8) + text.subrange(9, 13) + text.subrange(14, 18) + text.subrange(19, 23)
        + text.subrange(24, 36)
}

/// Whether the hyphens of a 36-character form stand in their places.
pub open spec fn has_hyphens(text: Seq<char>) -> bool {
    text.len() == 36 && text[8] == '-' && text[13] == '-' && text[18] == '-' && text[23] == '-'
}

/// The digits of a UUID's textual form: the bare digits, the hyphenated form,
/// the hyphenated form in braces, or the hyphenated form as a URN.
pub open spec fn uuid_digits(text: Seq<char>) -> Option<Seq<char>> {
    if text.len() == 32 {
        Some(text)
    } else if has_hyphens(text) {
        Some(ungrouped(text))
    } else if text.len() == 38 && text[0] == '{' && text[37] == '}' && has_hyphens(
        text.subrange(1, 37),
    ) {
        Some(ungrouped(text.subrange(1, 37)))
    } else if text.len() == 45 && ascii_lowercase(text.take(9)) == seq![
        'u',
        'r',
        'n',
        ':',
        'u',
        'u',
        'i',
        'd',
        ':',
    ] && has_hyphens(text.skip(9)) {
        Some(ungrouped(text.skip(9)))
    } else {
        None
    }
}

/// The UUID that `text` denotes.
pub open spec fn uuid_value(text: Seq<char>) -> Option<nat> {
    match uuid_digits(text) {
        Some(digits) => if forall|i: int|
            0 <= i < digits.len() ==> is_hex_digit(#[trigger] digits[i]) {
            Some(hex_value(digits))
        } else {
            None
        },
        None => None,
    }
}

/// `uuid::Uuid::parse_str`: accepts 32 hexadecimal digits of either case, bare
/// or in the hyphenated, braced or URN form, and rejects every other text.
#[verifier::external_body]
pub(crate) fn parse_uuid(text: &str) -> (res: Option<Uuid>)
    ensures
        match res {
            Some(id) => uuid_value(text@) == Some(id.0 as nat),
            None => uuid_value(text@) is None,
        },
{
    match uuid::Uuid::parse_str(text) {
        Ok(id) => Some(Uuid(id.as_u128())),
        Err(_) => None,
    }
}

/// `uuid::Uuid::hyphenated`: the lowercase digits in five groups.
#[verifier::external_body]
pub(crate) fn hyphenated(id: Uuid) -> (text: String)
    ensures
        text@ == hyphenated_text(id.0 as nat),
{
    uuid::Uuid::from_u128(id.0).hyphenated().to_string()
}

/// The hyphenated form of a UUID denotes that UUID.
pub proof fn law_hyphenated_reads_back(value: u128)
    ensures
        uuid_value(hyphenated_text(value as nat)) == Some(value as nat),
{
    let digits = hex_digits(value as nat, 32);
    lemma_sixteen_to_the_32nd();
    lemma_hex_digits(value as nat, 32);
    let text = hyphenated_text(value as nat);
    assert(text.len() == 36);
    assert(has_hyphens(text));
    assert(ungrouped(text) =~= digits);
}

/// A hyphenated form has 36 characters, digits and hyphens alone.
pub proof fn lemma_hyphenated_chars(value: nat)
    ensures
        hyphenated_text(value).len() == 36,
        forall|i: int|
            0 <= i < 36 ==> (is_hex_digit(#[trigger] hyphenated_text(value)[i])
                || hyphenated_text(value)[i] == '-'),
{
    lemma_hex_digits_shape(value, 32);
    let digits = hex_digits(value, 32);
    let text = hyphenated_text(value);
    assert forall|i: int| 0 <= i < 36 implies (is_hex_digit(#[trigger] text[i]) || text[i]
        == '-') by {
        if i < 8 {
            assert(text[i] == digits[i]);
        } else if 8 < i < 13 {
            assert(text[i] == digits[i - 1]);
        } else if 13 < i < 18 {
            assert(text[i] == digits[i - 2]);
        } else if 18 < i < 23 {
            assert(text[i] == digits[i - 3]);
        } else if 23 < i {
            assert(text[i] == digits[i - 4]);
        }
    }
}

proof fn lemma_sixteen_to_the_32nd()
    ensures
        pow(16, 32) == u128::MAX + 1,
{
    vstd::arithmetic::power::lemma_pow_adds(16, 8, 8);
    vstd::arithmetic::power::lemma_pow_adds(16, 16, 16);
    assert(pow(16, 8) == 0x1_0000_0000) by {
        reveal_with_fuel(pow, 9);
    }
    assert(pow(16, 16) == 0x1_0000_0000_0000_0000);
    assert(0x1_0000_0000_0000_0000int * 0x1_0000_0000_0000_0000int == u128::MAX + 1);
}

} // verus!
