//! The order of texts, their lines and their white space.

use vstd::prelude::*;

use crate::ids::trie_path_of;
use crate::numerals::{digit_char, hex, lemma_hex, 
    all_digits, decimal, digits_value, is_digit, number_up_to, padded_key, unsigned_digits, zeros,
};
use crate::order::{byte_count, lemma_text_less_irreflexive, longer_first, text_less};
use crate::registry::released_before;
use crate::set_ids::{
    four_bytes, has_ascii_front, leading_year, set_id_of, year_of, ReleaseDateError, SetIdError,
};
use crate::sets::SetInfo;
use crate::tables::lacks;
use crate::text::{lemma_find_char, lemma_find_char_is, lines, trim, trim_end, trim_start};

verus! {

proof fn lemma_less(front: Seq<char>, left: Seq<char>, right: Seq<char>)
    ensures
        text_less(front + left, front + right) == text_less(left, right),
    decreases front.len(),
{
    if front.len() == 0 {
        assert(front + left =~= left);
        assert(front + right =~= right);
    } else {
        let rest = front.drop_first();
        assert((front + left)[0] == front[0]);
        assert((front + right)[0] == front[0]);
        assert((front + left).drop_first() =~= rest + left);
        assert((front + right).drop_first() =~= rest + right);
        lemma_less(rest, left, right);
    }
}

/// Texts are ordered by the first character in which they differ, and a text
/// comes before its continuations. Where longer names go first, more bytes do.
pub proof fn law_texts_are_ordered(
    front: Seq<char>,
    first: char,
    left: Seq<char>,
    second: char,
    right: Seq<char>,
)
    ensures
        first < second ==> text_less(front + seq![first] + left, front + seq![second] + right)
            && !text_less(front + seq![second] + right, front + seq![first] + left),
        text_less(front, front + seq![first] + left),
        !text_less(front + seq![first] + left, front),
        !text_less(front, front),
        byte_count(left) > byte_count(right) ==> longer_first(left, right) && !longer_first(
            right,
            left,
        ),
{
    let none = Seq::<char>::empty();
    let a = seq![first] + left;
    let b = seq![second] + right;
    assert(front + seq![first] + left =~= front + a);
    assert(front + seq![second] + right =~= front + b);
    assert(front + none =~= front);
    lemma_less(front, a, b);
    lemma_less(front, b, a);
    lemma_less(front, none, a);
    lemma_less(front, a, none);
    lemma_less(front, none, none);
    assert(a[0] == first);
    assert(b[0] == second);
}

/// Sets are ordered by their release dates, and by their codes where the dates
/// are one.
pub proof fn law_sets_are_ordered_by_release(left: SetInfo, right: SetInfo)
    ensures
        left.released_at != right.released_at ==> released_before(left, right) == text_less(
            left.released_at,
            right.released_at,
        ),
        left.released_at == right.released_at ==> released_before(left, right) == text_less(
            left.code,
            right.code,
        ),
{
    lemma_text_less_irreflexive(left.released_at);
}

/// A line ends at a line feed, and a carriage return before it belongs to the
/// line's end.
pub proof fn law_lines_end_at_line_feeds(line: Seq<char>, rest: Seq<char>)
    requires
        lacks(line, '\n'),
    ensures
        lines(line + seq!['\n'] + rest) == seq![
            if line.len() > 0 && line.last() == '\r' {
                line.drop_last()
            } else {
                line
            },
        ] + lines(rest),
        lines(line) == if line.len() == 0 {
            Seq::empty()
        } else {
            seq![line]
        },
{
    let text = line + seq!['\n'] + rest;
    let at = line.len() as int;
    assert(text[at] == '\n');
    assert forall|i: int| 0 <= i < at implies text[i] != '\n' by {
        assert(text[i] == line[i]);
    }
    lemma_find_char_is(text, '\n', at);
    assert(text.take(at) =~= line);
    assert(text.skip(at + 1) =~= rest);
    lemma_find_char(line, '\n');
}

/// What is trimmed away are the characters that Unicode counts as white space.
pub proof fn law_white_space_is_unicode(c: char)
    ensures
        (trim(seq![c]).len() == 0) <==> (c == ' ' || c == '\t' || c == '\n' || c == '\u{b}' || c
            == '\u{c}' || c == '\r' || c == '\u{85}' || c == '\u{a0}' || c == '\u{1680}'
            || '\u{2000}' <= c <= '\u{200a}' || c == '\u{2028}' || c == '\u{2029}' || c
            == '\u{202f}' || c == '\u{205f}' || c == '\u{3000}'),
{
    let text = seq![c];
    let none = Seq::<char>::empty();
    assert(text.drop_first() =~= none);
    assert(text.drop_last() =~= none);
    assert(trim_start(none) =~= none);
    assert(trim_end(none) =~= none);
    assert(text[0] == c);
    assert(text.last() == c);
}

/// Whether the text is four decimal digits.
pub open spec fn is_year(text: Seq<char>) -> bool {
    text.len() == 4 && forall|i: int| 0 <= i < 4 ==> '0' <= #[trigger] text[i] <= '9'
}

/// The number that four digits stand for.
pub open spec fn year_value(text: Seq<char>) -> int {
    1000 * (text[0] as int - 48) + 100 * (text[1] as int - 48) + 10 * (text[2] as int - 48) + (
    text[3] as int - 48)
}

proof fn lemma_year(text: Seq<char>)
    requires
        is_year(text),
    ensures
        number_up_to(text, u16::MAX as nat) == Some(year_value(text) as nat),
        year_value(text) >= 0,
{
    let three = text.drop_last();
    let two = three.drop_last();
    let one = two.drop_last();
    assert('0' <= text[0] <= '9');
    assert('0' <= text[1] <= '9');
    assert('0' <= text[2] <= '9');
    assert('0' <= text[3] <= '9');
    assert(one.drop_last() =~= Seq::empty());
    assert(digits_value(one.drop_last()) == 0);
    assert(digits_value(one) == text[0] as int - 48);
    assert(digits_value(two) == 10 * digits_value(one) + (text[1] as int - 48));
    assert(digits_value(three) == 10 * digits_value(two) + (text[2] as int - 48));
    assert(digits_value(text) == 10 * digits_value(three) + (text[3] as int - 48));
    assert(all_digits(text)) by {
        assert forall|i: int| 0 <= i < text.len() implies is_digit(#[trigger] text[i]) by {
            assert('0' <= text[i] <= '9');
        }
    }
    assert(text[0] != '+');
    assert(unsigned_digits(text) == text);
}

proof fn lemma_four_bytes(text: Seq<char>)
    requires
        text.len() >= 4,
        forall|i: int| 0 <= i < 4 ==> #[trigger] text[i] <= '\u{7f}',
    ensures
        four_bytes(text) == Some(text.take(4)),
{
    let one = text.take(1);
    let two = text.take(2);
    let three = text.take(3);
    let four = text.take(4);
    assert(text[0] <= '\u{7f}' && text[1] <= '\u{7f}' && text[2] <= '\u{7f}' && text[3]
        <= '\u{7f}');
    assert(one.drop_last() =~= Seq::empty());
    assert(byte_count(one.drop_last()) == 0);
    assert(byte_count(one) == 1);
    assert(two.drop_last() =~= one);
    assert(byte_count(two) == 2);
    assert(three.drop_last() =~= two);
    assert(byte_count(three) == 3);
    assert(four.drop_last() =~= three);
    assert(byte_count(four) == 4);
}

/// The year of a release date is its first four digits.
pub proof fn law_release_years_come_first(year: Seq<char>, rest: Seq<char>)
    requires
        is_year(year),
    ensures
        year_of(year + rest) == Ok::<nat, ReleaseDateError>(year_value(year) as nat),
{
    let text = year + rest;
    assert forall|i: int| 0 <= i < 4 implies #[trigger] text[i] <= '\u{7f}' by {
        assert('0' <= year[i] <= '9');
        assert(text[i] == year[i]);
    }
    lemma_four_bytes(text);
    assert(text.take(4) =~= year);
    lemma_year(year);
}

proof fn lemma_bytes_at_least(text: Seq<char>)
    ensures
        byte_count(text) >= text.len(),
        (forall|i: int| 0 <= i < text.len() ==> #[trigger] text[i] <= '\u{7f}') ==> byte_count(text)
            == text.len(),
    decreases text.len(),
{
    if text.len() > 0 {
        let front = text.drop_last();
        lemma_bytes_at_least(front);
        if forall|i: int| 0 <= i < text.len() ==> #[trigger] text[i] <= '\u{7f}' {
            assert forall|i: int| 0 <= i < front.len() implies #[trigger] front[i] <= '\u{7f}' by {
                assert(front[i] == text[i]);
            }
            assert(text[text.len() - 1] <= '\u{7f}');
        }
    }
}

/// An anonymous set ID is four digits and capital letters: something else in
/// the place of the letters is refused, and so is a text without letters.
pub proof fn law_set_ids_are_checked(year: Seq<char>, rest: Seq<char>)
    requires
        is_year(year),
    ensures
        rest.len() == 0 ==> set_id_of(year + rest) == Err::<(nat, nat), SetIdError>(
            SetIdError::TooShort,
        ),
        rest.len() > 0 && (exists|i: int|
            0 <= i < rest.len() && !('A' <= #[trigger] rest[i] <= 'Z')) ==> set_id_of(year + rest)
            == Err::<(nat, nat), SetIdError>(SetIdError::BadSuffix),
        set_id_of(year + rest) is Ok ==> (set_id_of(year + rest)->Ok_0).0 == year_value(year),
{
    let text = year + rest;
    lemma_year(year);
    lemma_bytes_at_least(text);
    lemma_bytes_at_least(year);
    assert forall|i: int| 0 <= i < 4 implies #[trigger] year[i] <= '\u{7f}' by {
        assert('0' <= year[i] <= '9');
    }
    if rest.len() == 0 {
        assert(text =~= year);
    } else {
        assert(text.take(4) =~= year);
        assert(text.skip(4) =~= rest);
        assert(text[0] == year[0] && text[1] == year[1] && text[2] == year[2] && text[3]
            == year[3]);
        assert(year[0] <= '\u{7f}' && year[1] <= '\u{7f}' && year[2] <= '\u{7f}' && year[3]
            <= '\u{7f}');
        assert(has_ascii_front(text));
        assert(leading_year(text) == Some(year_value(year) as nat));
    }
}

/// The script of a number stands three directories deep: two digits of the
/// number, filled up with zeros to eight digits, name each of them, and all
/// digits name the file.
pub proof fn law_scripts_stand_in_directories(root: Seq<char>, id: nat)
    ensures
        ({
            let digits = decimal(id);
            let key = Seq::new(
                (if digits.len() < 8 {
                    8 - digits.len()
                } else {
                    0
                }) as nat,
                |i: int| '0',
            ) + digits;
            let base = if root.len() == 0 || root.last() == '/' {
                root
            } else {
                root.push('/')
            };
            trie_path_of(root, id) == base + seq![
                key[0],
                key[1],
                '/',
                key[2],
                key[3],
                '/',
                key[4],
                key[5],
                '/',
            ] + key + seq!['.', 't', 'x', 't']
        }),
{
    let digits = decimal(id);
    let key = padded_key(id);
    assert(zeros(8 - digits.len()) =~= Seq::new(
        (if digits.len() < 8 {
            8 - digits.len()
        } else {
            0
        }) as nat,
        |i: int| '0',
    ));
    assert(key.len() >= 8);
    let base = if root.len() == 0 || root.last() == '/' {
        root
    } else {
        root.push('/')
    };
    let tail = key.subrange(0, 2).push('/') + key.subrange(2, 4).push('/') + key.subrange(
        4,
        6,
    ).push('/') + key + seq!['.', 't', 'x', 't'];
    assert(tail =~= seq![key[0], key[1], '/', key[2], key[3], '/', key[4], key[5], '/'] + key
        + seq!['.', 't', 'x', 't']);
    assert(trie_path_of(root, id) =~= base + seq![
        key[0],
        key[1],
        '/',
        key[2],
        key[3],
        '/',
        key[4],
        key[5],
        '/',
    ] + key + seq!['.', 't', 'x', 't']);
}

/// Numerals have no zeros in front.
pub proof fn law_numerals_have_no_leading_zeros(n: nat)
    ensures
        decimal(n).len() > 0,
        n > 0 ==> decimal(n)[0] != '0',
        decimal(0) == seq!['0'],
    decreases n,
{
    if n >= 10 {
        law_numerals_have_no_leading_zeros(n / 10);
        assert(decimal(n)[0] == decimal(n / 10)[0]);
    } else {
        assert(decimal(n)[0] == digit_char(n as int));
    }
    assert(decimal(0) =~= seq!['0']);
}

/// The value of a digit in small letters, up to fifteen.
pub open spec fn small_digit(c: char) -> Option<int> {
    if '0' <= c <= '9' {
        Some(c as int - '0' as int)
    } else if 'a' <= c <= 'f' {
        Some(c as int - 'a' as int + 10)
    } else {
        None
    }
}

/// Every byte is two digits in small letters, the larger part first.
pub proof fn law_bytes_are_two_digits(bytes: Seq<u8>, at: int)
    requires
        0 <= at < bytes.len(),
    ensures
        hex(bytes).len() == 2 * bytes.len(),
        small_digit(hex(bytes)[2 * at]) is Some,
        small_digit(hex(bytes)[2 * at + 1]) is Some,
        16 * small_digit(hex(bytes)[2 * at])->0 + small_digit(hex(bytes)[2 * at + 1])->0
            == bytes[at],
    decreases bytes.len(),
{
    lemma_hex(bytes);
    let front = bytes.drop_last();
    lemma_hex(front);
    if at < front.len() {
        law_bytes_are_two_digits(front, at);
        assert(hex(bytes)[2 * at] == hex(front)[2 * at]);
        assert(hex(bytes)[2 * at + 1] == hex(front)[2 * at + 1]);
    } else {
        let byte = bytes.last();
        assert(hex(bytes)[2 * at] == digit_char(byte as int / 16));
        assert(hex(bytes)[2 * at + 1] == digit_char(byte as int % 16));
    }
}

} // verus!
