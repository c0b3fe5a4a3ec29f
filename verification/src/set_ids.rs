//! Anonymous set IDs: a year of four digits and a suffix of letters.

use vstd::prelude::*;

use crate::letters::{is_ascii_char, is_ascii_uppercase};
use crate::numerals::{
    all_digits, decimal, digits_value, is_digit, lemma_decimal, number_up_to, read_number,
    unsigned_digits,
};
use crate::order::{byte_count, bytes_of};
use crate::text::{chars_of, front, rest, string_of};

verus! {

/// What is wrong with an anonymous set ID.
#[derive(Clone, Copy, Debug, Eq, PartialEq, Structural)]
pub enum SetIdError {
    /// It is shorter than a year and a letter.
    TooShort,
    /// It does not begin with a year.
    NoYear,
    /// Its suffix has something else than uppercase letters.
    BadSuffix,
    /// Its suffix counts further than a `usize`.
    TooLarge,
}

/// What is wrong with a release date.
#[derive(Clone, Copy, Debug, Eq, PartialEq, Structural)]
pub enum ReleaseDateError {
    /// It has no first four bytes.
    NoYear,
    /// Its first four bytes are no year.
    InvalidYear,
}

/// The letter for a value below 26.
pub open spec fn letter(value: int) -> char {
    (65 + value) as char
}

/// The suffix for an ordinal: `A` to `Z`, then `AA`, `AB` and so on.
pub open spec fn suffix(ordinal: nat) -> Seq<char>
    decreases ordinal,
{
    if ordinal < 26 {
        seq![letter(ordinal as int)]
    } else {
        suffix((ordinal / 26 - 1) as nat).push(letter((ordinal % 26) as int))
    }
}

/// The number that a suffix counts to: letters are digits from 1 to 26.
pub open spec fn suffix_value(text: Seq<char>) -> nat
    decreases text.len(),
{
    if text.len() == 0 {
        0
    } else {
        26 * suffix_value(text.drop_last()) + (text.last() as u32 - 64) as nat
    }
}

/// Whether the text consists of uppercase ASCII letters.
pub open spec fn all_uppercase(text: Seq<char>) -> bool {
    forall|i: int| 0 <= i < text.len() ==> is_ascii_uppercase(#[trigger] text[i])
}

/// Whether the text begins with four ASCII characters.
pub open spec fn has_ascii_front(text: Seq<char>) -> bool {
    text.len() >= 4 && is_ascii_char(text[0]) && is_ascii_char(text[1]) && is_ascii_char(text[2])
        && is_ascii_char(text[3])
}

/// The year at the front of the text: four ASCII characters that denote it.
pub open spec fn leading_year(text: Seq<char>) -> Option<nat> {
    if has_ascii_front(text) {
        number_up_to(text.take(4), u16::MAX as nat)
    } else {
        None
    }
}

/// The year and the ordinal of an anonymous set ID.
pub open spec fn set_id_of(value: Seq<char>) -> Result<(nat, nat), SetIdError> {
    if byte_count(value) < 5 {
        Err(SetIdError::TooShort)
    } else {
        match leading_year(value) {
            None => Err(SetIdError::NoYear),
            Some(year) => if !all_uppercase(value.skip(4)) {
                Err(SetIdError::BadSuffix)
            } else if suffix_value(value.skip(4)) > usize::MAX {
                Err(SetIdError::TooLarge)
            } else {
                Ok((year, (suffix_value(value.skip(4)) - 1) as nat))
            },
        }
    }
}

/// The anonymous set ID for a year and an ordinal.
pub open spec fn set_id(year: nat, ordinal: nat) -> Seq<char> {
    decimal(year) + suffix(ordinal)
}

/// The year of a release date.
pub open spec fn year_of(released_at: Seq<char>) -> Result<nat, ReleaseDateError> {
    match four_bytes(released_at) {
        None => Err(ReleaseDateError::NoYear),
        Some(front) => match number_up_to(front, u16::MAX as nat) {
            Some(year) => Ok(year),
            None => Err(ReleaseDateError::InvalidYear),
        },
    }
}

/// The characters that make up the first four bytes, where the fourth byte
/// ends a character.
pub open spec fn four_bytes(text: Seq<char>) -> Option<Seq<char>> {
    if text.len() >= 1 && byte_count(text.take(1)) == 4 {
        Some(text.take(1))
    } else if text.len() >= 2 && byte_count(text.take(2)) == 4 {
        Some(text.take(2))
    } else if text.len() >= 3 && byte_count(text.take(3)) == 4 {
        Some(text.take(3))
    } else if text.len() >= 4 && byte_count(text.take(4)) == 4 {
        Some(text.take(4))
    } else {
        None
    }
}

/// What the result of reading a set ID says.
pub open spec fn set_id_result(res: Result<(u16, usize), SetIdError>) -> Result<
    (nat, nat),
    SetIdError,
> {
    match res {
        Ok((year, ordinal)) => Ok((year as nat, ordinal as nat)),
        Err(problem) => Err(problem),
    }
}

/// A suffix is not empty, has only uppercase letters, and counts to one more
/// than its ordinal.
pub proof fn lemma_suffix(ordinal: nat)
    ensures
        suffix(ordinal).len() > 0,
        all_uppercase(suffix(ordinal)),
        suffix_value(suffix(ordinal)) == ordinal + 1,
    decreases ordinal,
{
    let text = suffix(ordinal);
    if ordinal < 26 {
        assert(text.drop_last() =~= Seq::empty());
        assert(suffix_value(text.drop_last()) == 0);
        assert(is_ascii_uppercase(text[0]));
    } else {
        let front = suffix((ordinal / 26 - 1) as nat);
        lemma_suffix((ordinal / 26 - 1) as nat);
        assert(text.drop_last() =~= front);
        assert forall|i: int| 0 <= i < text.len() implies is_ascii_uppercase(
            #[trigger] text[i],
        ) by {
            if i < front.len() {
                assert(text[i] == front[i]);
            }
        }
    }
}

/// A set ID that can be read has a year and at least one letter.
pub proof fn lemma_readable_length(value: Seq<char>)
    requires
        set_id_of(value) is Ok,
    ensures
        value.len() >= 5,
{
    lemma_four_ascii(value);
    if value.len() == 4 {
        assert(value.take(4) =~= value);
    }
}

/// The year and the ordinal of a set ID are within their types' limits.
pub proof fn lemma_set_id_bounds(value: Seq<char>)
    requires
        set_id_of(value) is Ok,
    ensures
        (set_id_of(value)->Ok_0).0 <= u16::MAX,
        (set_id_of(value)->Ok_0).1 < usize::MAX,
{
    lemma_four_ascii(value);
    if value.len() == 4 {
        assert(value.take(4) =~= value);
    }
    law_every_suffix_is_reached(value.skip(4));
}

/// Every text of uppercase letters is the suffix of one ordinal.
pub proof fn law_every_suffix_is_reached(text: Seq<char>)
    requires
        text.len() > 0,
        all_uppercase(text),
    ensures
        suffix_value(text) > 0,
        suffix((suffix_value(text) - 1) as nat) == text,
    decreases text.len(),
{
    let last = text.last();
    let front = text.drop_last();
    assert(is_ascii_uppercase(text[text.len() - 1]));
    lemma_letter(last);
    if front.len() == 0 {
        assert(suffix_value(front) == 0);
        assert(text =~= seq![last]);
    } else {
        assert(all_uppercase(front)) by {
            assert forall|i: int| 0 <= i < front.len() implies is_ascii_uppercase(
                #[trigger] front[i],
            ) by {
                assert(front[i] == text[i]);
            }
        }
        law_every_suffix_is_reached(front);
        let value = suffix_value(text);
        assert(value - 1 == 26 * suffix_value(front) + (last as u32 - 65));
        assert((value - 1) as nat / 26 - 1 == suffix_value(front) - 1);
        assert(text =~= front.push(last));
    }
}

proof fn lemma_letter(c: char)
    requires
        is_ascii_uppercase(c),
    ensures
        letter(c as u32 - 65) == c,
        0 <= c as u32 - 65 < 26,
{
}

/// The numeral of a four-digit number has four digits.
proof fn lemma_four_digits(year: nat)
    requires
        1000 <= year <= 9999,
    ensures
        decimal(year).len() == 4,
{
    reveal_with_fuel(decimal, 5);
}

proof fn lemma_ascii_bytes(text: Seq<char>)
    requires
        forall|i: int| 0 <= i < text.len() ==> is_ascii_char(#[trigger] text[i]),
    ensures
        byte_count(text) == text.len(),
    decreases text.len(),
{
    if text.len() > 0 {
        let front = text.drop_last();
        assert forall|i: int| 0 <= i < front.len() implies is_ascii_char(#[trigger] front[i]) by {
            assert(front[i] == text[i]);
        }
        lemma_ascii_bytes(front);
        assert(is_ascii_char(text[text.len() - 1]));
    }
}

/// A set ID made for a year of four digits reads back as its year and
/// ordinal, as long as the count fits.
pub proof fn law_set_ids_read_back(year: nat, ordinal: nat)
    requires
        1000 <= year <= 9999,
        ordinal < usize::MAX,
    ensures
        set_id_of(set_id(year, ordinal)) == Ok::<(nat, nat), SetIdError>((year, ordinal)),
        is_origin_set(set_id(year, ordinal)),
{
    let text = set_id(year, ordinal);
    lemma_decimal(year);
    lemma_four_digits(year);
    lemma_suffix(ordinal);
    assert(text.take(4) =~= decimal(year));
    assert(text.skip(4) =~= suffix(ordinal));
    assert forall|i: int| 0 <= i < text.len() implies is_ascii_char(#[trigger] text[i]) by {
        if i < 4 {
            assert(is_digit(decimal(year)[i]));
        } else {
            assert(is_ascii_uppercase(suffix(ordinal)[i - 4]));
        }
    }
    lemma_ascii_bytes(text);
    assert(is_ascii_char(text[0]) && is_ascii_char(text[1]) && is_ascii_char(text[2])
        && is_ascii_char(text[3]));
}

/// Different years or ordinals have different set IDs.
pub proof fn law_set_ids_are_distinct(
    year: nat,
    ordinal: nat,
    other_year: nat,
    other_ordinal: nat,
)
    requires
        set_id(year, ordinal) == set_id(other_year, other_ordinal),
    ensures
        year == other_year,
        ordinal == other_ordinal,
{
    let text = set_id(year, ordinal);
    lemma_decimal(year);
    lemma_decimal(other_year);
    lemma_suffix(ordinal);
    lemma_suffix(other_ordinal);
    let a = decimal(year).len() as int;
    let b = decimal(other_year).len() as int;
    if a < b {
        assert(is_digit(decimal(other_year)[a]));
        assert(text[a] == decimal(other_year)[a]);
        assert(text[a] == suffix(ordinal)[0]);
        assert(is_ascii_uppercase(suffix(ordinal)[0]));
    }
    if b < a {
        assert(is_digit(decimal(year)[b]));
        assert(text[b] == decimal(year)[b]);
        assert(text[b] == suffix(other_ordinal)[0]);
        assert(is_ascii_uppercase(suffix(other_ordinal)[0]));
    }
    assert(text.take(a) =~= decimal(year));
    assert(text.take(a) =~= decimal(other_year));
    assert(text.skip(a) =~= suffix(ordinal));
    assert(text.skip(a) =~= suffix(other_ordinal));
}

/// The suffix for an ordinal.
pub fn alpha_suffix(ordinal: u128) -> (out: String)
    ensures
        out@ == suffix(ordinal as nat),
{
    let mut reversed: Vec<char> = Vec::new();
    let mut left: u128 = ordinal;
    let ghost mut tail: Seq<char> = Seq::empty();
    let mut done = false;
    assert(suffix(left as nat) + tail =~= suffix(ordinal as nat));
    while !done
        invariant
            reversed@ == tail.reverse(),
            !done ==> suffix(left as nat) + tail == suffix(ordinal as nat),
            done ==> tail == suffix(ordinal as nat),
        decreases left,
            (if done {
                0int
            } else {
                1int
            }),
    {
        let low: u8 = (left % 26) as u8;
        let c = (65 + low) as char;
        let ghost before = tail;
        reversed.push(c);
        proof {
            tail = seq![c] + before;
            assert(reversed@ =~= tail.reverse());
        }
        if left < 26 {
            done = true;
            assert(suffix(left as nat) =~= seq![c]);
        } else {
            proof {
                let next = (left / 26 - 1) as nat;
                assert(suffix(left as nat) == suffix(next).push(c));
                assert(suffix(next).push(c) + before =~= suffix(next) + tail);
            }
            left = left / 26 - 1;
        }
    }
    let mut out: Vec<char> = Vec::new();
    let mut i: usize = reversed.len();
    while i > 0
        invariant
            i <= reversed@.len(),
            reversed@ == tail.reverse(),
            out@ == tail.take(reversed@.len() - i),
        decreases i,
    {
        i -= 1;
        out.push(reversed[i]);
        assert(tail.take(reversed@.len() - i) =~= tail.take(reversed@.len() - i - 1).push(
            reversed@[i as int],
        ));
    }
    assert(tail.take(tail.len() as int) =~= tail);
    string_of(out.as_slice())
}

/// Whether the text consists of uppercase ASCII letters.
fn only_uppercase(text: &[char]) -> (res: bool)
    ensures
        res == all_uppercase(text@),
{
    let mut i: usize = 0;
    while i < text.len()
        invariant
            i <= text@.len(),
            forall|j: int| 0 <= j < i ==> is_ascii_uppercase(#[trigger] text@[j]),
        decreases text@.len() - i,
    {
        if !('A' <= text[i] && text[i] <= 'Z') {
            assert(!is_ascii_uppercase(text@[i as int]));
            return false;
        }
        i += 1;
    }
    true
}

/// A longer suffix counts at least as far.
proof fn lemma_suffix_prefix(text: Seq<char>, count: int)
    requires
        0 <= count <= text.len(),
        all_uppercase(text),
    ensures
        suffix_value(text.take(count)) <= suffix_value(text),
    decreases text.len() - count,
{
    if count == text.len() {
        assert(text.take(count) =~= text);
    } else {
        let shorter = text.drop_last();
        assert(shorter.take(count) =~= text.take(count));
        assert(all_uppercase(shorter)) by {
            assert forall|i: int| 0 <= i < shorter.len() implies is_ascii_uppercase(
                #[trigger] shorter[i],
            ) by {
                assert(shorter[i] == text[i]);
            }
        }
        lemma_suffix_prefix(shorter, count);
    }
}

/// Counts as far as a suffix does, if that fits.
fn count_suffix(text: &[char]) -> (res: Option<usize>)
    requires
        all_uppercase(text@),
    ensures
        match res {
            Some(value) => value == suffix_value(text@),
            None => suffix_value(text@) > usize::MAX,
        },
{
    let mut value: usize = 0;
    let mut i: usize = 0;
    while i < text.len()
        invariant
            i <= text@.len(),
            all_uppercase(text@),
            value == suffix_value(text@.take(i as int)),
        decreases text@.len() - i,
    {
        proof {
            assert(text@.take(i + 1).drop_last() =~= text@.take(i as int));
            assert(is_ascii_uppercase(text@[i as int]));
            lemma_suffix_prefix(text@, i + 1);
        }
        let digit: u128 = (text[i] as u32 - 64) as u128;
        let next: u128 = value as u128 * 26 + digit;
        assert(next == suffix_value(text@.take(i + 1)));
        if next > usize::MAX as u128 {
            return None;
        }
        value = next as usize;
        i += 1;
    }
    assert(text@.take(text@.len() as int) =~= text@);
    Some(value)
}

/// Whether the text begins with four ASCII characters.
fn ascii_front(text: &[char]) -> (res: bool)
    ensures
        res == has_ascii_front(text@),
{
    text.len() >= 4 && text[0] <= '\u{7f}' && text[1] <= '\u{7f}' && text[2] <= '\u{7f}' && text[3]
        <= '\u{7f}'
}

proof fn lemma_four_ascii(text: Seq<char>)
    requires
        has_ascii_front(text),
    ensures
        byte_count(text.take(4)) == 4,
{
    let four = text.take(4);
    assert forall|i: int| 0 <= i < four.len() implies is_ascii_char(#[trigger] four[i]) by {
        assert(four[i] == text[i]);
    }
    lemma_ascii_bytes(four);
}

/// Reads an anonymous set ID: its year and its ordinal.
pub fn parse_anonymous_set_id(value: &str) -> (res: Result<(u16, usize), SetIdError>)
    ensures
        set_id_result(res) == set_id_of(value@),
{
    let chars = chars_of(value);
    let text = chars.as_slice();
    let bytes: u128 = bytes_of(text);
    if bytes < 5 {
        return Err(SetIdError::TooShort);
    }
    if !ascii_front(text) {
        return Err(SetIdError::NoYear);
    }
    let year: u16 = match read_number(front(text, 4), 0xffff) {
        Some(year) => year as u16,
        None => {
            return Err(SetIdError::NoYear);
        },
    };
    let letters = rest(text, 4);
    if !only_uppercase(letters) {
        return Err(SetIdError::BadSuffix);
    }
    proof {
        lemma_four_ascii(text@);
        if text@.len() == 4 {
            assert(text@.take(4) =~= text@);
        }
        law_every_suffix_is_reached(letters@);
    }
    match count_suffix(letters) {
        Some(count) => Ok((year, count - 1)),
        None => Err(SetIdError::TooLarge),
    }
}

/// Checks an anonymous set ID.
pub fn validate_anonymous_set_id(value: &str) -> (res: Result<(), SetIdError>)
    ensures
        match res {
            Ok(_) => set_id_of(value@) is Ok,
            Err(problem) => set_id_of(value@) == Err::<(nat, nat), SetIdError>(problem),
        },
{
    match parse_anonymous_set_id(value) {
        Ok(_) => Ok(()),
        Err(problem) => Err(problem),
    }
}

/// What the result of reading a year says.
pub open spec fn year_result(res: Result<u16, ReleaseDateError>) -> Result<nat, ReleaseDateError> {
    match res {
        Ok(year) => Ok(year as nat),
        Err(problem) => Err(problem),
    }
}

/// The year of a release date.
pub fn release_year(released_at: &str) -> (res: Result<u16, ReleaseDateError>)
    ensures
        year_result(res) == year_of(released_at@),
{
    let chars = chars_of(released_at);
    let text = chars.as_slice();
    let count: usize = if text.len() >= 1 && bytes_of(front(text, 1)) == 4 {
        1
    } else if text.len() >= 2 && bytes_of(front(text, 2)) == 4 {
        2
    } else if text.len() >= 3 && bytes_of(front(text, 3)) == 4 {
        3
    } else if text.len() >= 4 && bytes_of(front(text, 4)) == 4 {
        4
    } else {
        return Err(ReleaseDateError::NoYear);
    };
    match read_number(front(text, count), 0xffff) {
        Some(year) => Ok(year as u16),
        None => Err(ReleaseDateError::InvalidYear),
    }
}

/// Whether the value is a set ID as scripts carry it: four digits and at
/// least one uppercase letter.
pub open spec fn is_origin_set(value: Seq<char>) -> bool {
    value.len() >= 5 && all_digits(value.take(4)) && all_uppercase(value.skip(4))
}

/// Checks a set ID as scripts carry it.
pub fn validate_origin_set(value: &str) -> (res: Result<(), InvalidOriginSet>)
    ensures
        res is Ok <==> is_origin_set(value@),
{
    let chars = chars_of(value);
    if chars.len() < 5 {
        return Err(InvalidOriginSet);
    }
    let year = front(chars.as_slice(), 4);
    let mut i: usize = 0;
    while i < year.len()
        invariant
            i <= year@.len(),
            chars@ == value@,
            value@.len() >= 5,
            year@ == value@.take(4),
            forall|j: int| 0 <= j < i ==> is_digit(#[trigger] year@[j]),
        decreases year@.len() - i,
    {
        if !('0' <= year[i] && year[i] <= '9') {
            assert(!is_digit(value@.take(4)[i as int]));
            return Err(InvalidOriginSet);
        }
        i += 1;
    }
    assert(all_digits(value@.take(4)));
    if only_uppercase(rest(chars.as_slice(), 4)) {
        Ok(())
    } else {
        Err(InvalidOriginSet)
    }
}

/// The value is not four digits and at least one uppercase letter.
#[derive(Clone, Copy, Debug, Eq, PartialEq, Structural)]
pub struct InvalidOriginSet;

/// Every set ID that scripts may carry is an anonymous set ID, as long as its
/// count fits.
pub proof fn law_origin_sets_are_set_ids(value: Seq<char>)
    requires
        is_origin_set(value),
        suffix_value(value.skip(4)) <= usize::MAX,
    ensures
        set_id_of(value) is Ok,
{
    let year = value.take(4);
    assert forall|i: int| 0 <= i < value.len() implies is_ascii_char(#[trigger] value[i]) by {
        if i < 4 {
            assert(is_digit(year[i]));
        } else {
            assert(is_ascii_uppercase(value.skip(4)[i - 4]));
        }
    }
    lemma_ascii_bytes(value);
    assert(is_ascii_char(value[0]) && is_ascii_char(value[1]) && is_ascii_char(value[2])
        && is_ascii_char(value[3]));
    assert(is_digit(year[0]));
    assert(unsigned_digits(year) == year);
    assert(digits_value(year) <= 9999) by {
        reveal_with_fuel(digits_value, 5);
        assert(is_digit(year[1]) && is_digit(year[2]) && is_digit(year[3]));
        assert(year.drop_last().last() == year[2]);
        assert(year.drop_last().drop_last().last() == year[1]);
        assert(year.drop_last().drop_last().drop_last().last() == year[0]);
    }
}

} // verus!
