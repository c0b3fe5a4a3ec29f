//! Which colors belong to a card.

use vstd::prelude::*;
use vstd::utf8::{
    char_u32_cast, encode_scalar, encode_utf8, leading_byte_width_1, leading_byte_width_2, leading_byte_width_3,
    leading_byte_width_4,
};

use crate::letters::unicode_alphabetic;
use crate::parameters::lemma_split_not_empty;
use crate::script::optional_view;
use crate::scryfall::{
    basic_land_type, card_has_type, card_letters, color_identity_of, explicit_letters, face_letters,
    first_bytes, has_symbol, identity_part, in_identity, letters_end, letters_start, list_of, lists,
    outside_parentheses, symbol_has, type_line_has, ScryfallCard,
};
use crate::tables::lacks;
use crate::text::{find_char, lemma_find_char, lemma_find_char_is, split};
use crate::word_laws::{law_words_stand_between_gaps, stands_between};
use crate::words::{words, Gap};

verus! {

/// Whether a mana symbol has the color as one of its alternatives.
pub open spec fn offers(symbol: Seq<char>, color: char) -> bool {
    exists|front: Seq<char>, back: Seq<char>|
        symbol == #[trigger] (front + seq![color] + back) && (front.len() == 0 || front.last()
            == '/') && (back.len() == 0 || back[0] == '/')
}

/// Whether a mana symbol of the color stands somewhere in the text.
pub open spec fn shows_mana(text: Seq<char>, color: char) -> bool {
    exists|before: Seq<char>, symbol: Seq<char>, after: Seq<char>|
        text == #[trigger] (before + seq!['{'] + symbol + seq!['}'] + after) && lacks(symbol, '{')
            && lacks(symbol, '}') && offers(symbol, color)
}

/// Whether a text of the list begins with the color's letter.
pub open spec fn begins_one(list: Seq<String>, color: char) -> bool {
    exists|i: int|
        0 <= i < list.len() && (#[trigger] list[i])@.len() > 0 && list[i]@[0] == color
}

/// Whether a card or a face has the color: in its mana cost, in its rules text
/// outside parentheses, among its colors, or in its color indicator.
pub open spec fn is_source(
    mana_cost: Seq<char>,
    oracle_text: Option<Seq<char>>,
    colors: Seq<String>,
    color_indicator: Option<Seq<String>>,
    color: char,
) -> bool {
    ||| shows_mana(mana_cost, color)
    ||| oracle_text matches Some(text) && shows_mana(outside_parentheses(text, 0), color)
    ||| begins_one(colors, color)
    ||| color_indicator matches Some(indicator) && begins_one(indicator, color)
}

/// Whether the card or one of its faces has the color.
pub open spec fn has_color(card: ScryfallCard, color: char) -> bool {
    ||| is_source(
        card.mana_cost@,
        optional_view(card.oracle_text),
        card.colors@,
        list_of(card.color_indicator),
        color,
    )
    ||| exists|i: int|
        0 <= i < card.card_faces@.len() && is_source(
            (#[trigger] card.card_faces@[i]).mana_cost@,
            optional_view(card.card_faces@[i].oracle_text),
            card.card_faces@[i].colors@,
            list_of(card.card_faces@[i].color_indicator),
            color,
        )
}

/// Whether the type line has the word, with nothing but white space and
/// characters that are no letters between the word and its neighbors.
pub open spec fn is_typed(type_line: Seq<char>, word: Seq<char>) -> bool {
    exists|before: Seq<char>, front: Seq<char>, back: Seq<char>, after: Seq<char>|
        type_line == #[trigger] (before + (front + word + back) + after) && stands_between(
            before,
            front + word + back,
            after,
            Gap::WhiteSpace,
        ) && no_letters(front) && no_letters(back)
}

/// Whether the text has no letters.
pub open spec fn no_letters(text: Seq<char>) -> bool {
    forall|i: int| 0 <= i < text.len() ==> !unicode_alphabetic(#[trigger] text[i])
}

/// Whether the card or one of its faces has the type.
pub open spec fn is_of_type(card: ScryfallCard, word: Seq<char>) -> bool {
    ||| is_typed(card.type_line@, word)
    ||| exists|i: int|
        0 <= i < card.card_faces@.len() && is_typed(
            (#[trigger] card.card_faces@[i]).type_line@,
            word,
        )
}

/// The basic land type that gives mana of the color.
pub open spec fn land_of(color: char) -> Seq<char> {
    if color == 'W' {
        "Plains"@
    } else if color == 'U' {
        "Island"@
    } else if color == 'B' {
        "Swamp"@
    } else if color == 'R' {
        "Mountain"@
    } else {
        "Forest"@
    }
}

/// The place of a color among the five.
pub open spec fn rank(color: char) -> Option<int> {
    if color == 'W' {
        Some(0)
    } else if color == 'U' {
        Some(1)
    } else if color == 'B' {
        Some(2)
    } else if color == 'R' {
        Some(3)
    } else if color == 'G' {
        Some(4)
    } else {
        None
    }
}

proof fn lemma_part_offered(symbol: Seq<char>, color: char)
    requires
        color != '/',
        split(symbol, '/').contains(seq![color]),
    ensures
        offers(symbol, color),
    decreases symbol.len(),
{
    let parts = split(symbol, '/');
    let none = Seq::<char>::empty();
    let i = choose|i: int| 0 <= i < parts.len() && parts[i] == seq![color];
    lemma_find_char(symbol, '/');
    match find_char(symbol, '/') {
        Some(at) => {
            let later = symbol.skip(at + 1);
            if i == 0 {
                assert(symbol.take(at) == seq![color]);
                assert(symbol =~= none + seq![color] + symbol.skip(at));
            } else {
                assert(parts[i] == split(later, '/')[i - 1]);
                lemma_part_offered(later, color);
                let (front, back) = choose|front: Seq<char>, back: Seq<char>|
                    later == #[trigger] (front + seq![color] + back) && (front.len() == 0
                        || front.last() == '/') && (back.len() == 0 || back[0] == '/');
                let longer = symbol.take(at + 1) + front;
                assert(symbol =~= symbol.take(at + 1) + later);
                assert(symbol =~= longer + seq![color] + back);
                if front.len() == 0 {
                    assert(longer.last() == symbol[at]);
                } else {
                    assert(longer.last() == front.last());
                }
            }
        },
        None => {
            assert(symbol =~= none + seq![color] + none);
        },
    }
}

proof fn lemma_offered_part(symbol: Seq<char>, front: Seq<char>, color: char, back: Seq<char>)
    requires
        color != '/',
        symbol == front + seq![color] + back,
        front.len() == 0 || front.last() == '/',
        back.len() == 0 || back[0] == '/',
    ensures
        split(symbol, '/').contains(seq![color]),
    decreases symbol.len(),
{
    let parts = split(symbol, '/');
    lemma_find_char(symbol, '/');
    assert(symbol[front.len() as int] == color);
    if front.len() == 0 {
        if back.len() == 0 {
            assert(symbol =~= seq![color]);
            assert(find_char(symbol, '/') is None);
            assert(parts[0] == seq![color]);
        } else {
            assert(symbol[1] == back[0]);
            lemma_find_char_is(symbol, '/', 1);
            assert(symbol.take(1) =~= seq![color]);
            assert(parts[0] == seq![color]);
        }
    } else {
        assert(symbol[front.len() - 1] == front.last());
        let at = find_char(symbol, '/')->0;
        let later = symbol.skip(at + 1);
        let rest = front.skip(at + 1);
        assert(later =~= rest + seq![color] + back);
        if rest.len() > 0 {
            assert(rest.last() == front.last());
        }
        lemma_offered_part(later, rest, color, back);
        let i = choose|i: int| 0 <= i < split(later, '/').len() && split(later, '/')[i] == seq![color];
        assert(parts[i + 1] == seq![color]);
    }
}

/// A piece behind a brace begins with a symbol.
proof fn lemma_symbol_shown(text: Seq<char>, at: int, color: char)
    requires
        color != '/',
        1 <= at < split(text, '{').len(),
        symbol_has(split(text, '{')[at], color),
    ensures
        shows_mana(text, color),
    decreases text.len(),
{
    let pieces = split(text, '{');
    lemma_find_char(text, '{');
    let first = find_char(text, '{')->0;
    let later = text.skip(first + 1);
    assert(pieces[at] == split(later, '{')[at - 1]);
    if at == 1 {
        let piece = pieces[1];
        lemma_find_char(later, '{');
        lemma_find_char(piece, '}');
        let end = find_char(piece, '}')->0;
        let symbol = piece.take(end);
        let after = later.skip(end + 1);
        lemma_part_offered(symbol, color);
        assert(later.take(end) =~= symbol);
        assert(later[end] == piece[end]);
        assert(text =~= text.take(first) + seq!['{'] + symbol + seq!['}'] + after);
        assert(lacks(symbol, '}'));
        assert forall|i: int| 0 <= i < symbol.len() implies #[trigger] symbol[i] != '{' by {
            assert(symbol[i] == later[i]);
        }
    } else {
        lemma_symbol_shown(later, at - 1, color);
        let (before, symbol, after) = choose|before: Seq<char>, symbol: Seq<char>, after: Seq<char>|
            later == #[trigger] (before + seq!['{'] + symbol + seq!['}'] + after) && lacks(
                symbol,
                '{',
            ) && lacks(symbol, '}') && offers(symbol, color);
        let longer = text.take(first + 1) + before;
        assert(text =~= text.take(first + 1) + later);
        assert(text =~= longer + seq!['{'] + symbol + seq!['}'] + after);
    }
}

proof fn lemma_shown_symbol(
    text: Seq<char>,
    before: Seq<char>,
    symbol: Seq<char>,
    after: Seq<char>,
    color: char,
) -> (at: int)
    requires
        color != '/',
        text == before + seq!['{'] + symbol + seq!['}'] + after,
        lacks(symbol, '{'),
        lacks(symbol, '}'),
        offers(symbol, color),
    ensures
        1 <= at < split(text, '{').len(),
        symbol_has(split(text, '{')[at], color),
    decreases text.len(),
{
    lemma_find_char(text, '{');
    let brace = before.len() as int;
    assert(text[brace] == '{');
    let first = find_char(text, '{')->0;
    let later = text.skip(first + 1);
    lemma_split_not_empty(later, '{');
    assert(split(text, '{').len() == split(later, '{').len() + 1);
    if first == brace {
        let piece = split(later, '{')[0];
        let end = symbol.len() as int;
        assert(later =~= symbol + seq!['}'] + after);
        lemma_find_char(later, '{');
        assert forall|i: int| 0 <= i <= end implies later[i] != '{' by {
            if i < end {
                assert(later[i] == symbol[i]);
            }
        }
        assert(piece.len() > end);
        assert(piece[end] == '}');
        assert forall|i: int| 0 <= i < end implies piece[i] != '}' by {
            assert(piece[i] == symbol[i]);
        }
        lemma_find_char_is(piece, '}', end);
        assert(piece.take(end) =~= symbol);
        let (front, back) = choose|front: Seq<char>, back: Seq<char>|
            symbol == #[trigger] (front + seq![color] + back) && (front.len() == 0 || front.last()
                == '/') && (back.len() == 0 || back[0] == '/');
        lemma_offered_part(symbol, front, color, back);
        assert(split(text, '{')[1] == piece);
        1
    } else {
        let rest = before.skip(first + 1);
        assert(later =~= rest + seq!['{'] + symbol + seq!['}'] + after);
        let inner = lemma_shown_symbol(later, rest, symbol, after, color);
        assert(split(text, '{')[inner + 1] == split(later, '{')[inner]);
        inner + 1
    }
}

/// A text is searched for mana symbols of a color between its braces.
pub proof fn law_symbols_stand_between_braces(text: Seq<char>, color: char)
    requires
        color != '/',
    ensures
        has_symbol(text, color) == shows_mana(text, color),
{
    if has_symbol(text, color) {
        let at = choose|i: int|
            1 <= i < split(text, '{').len() && symbol_has(#[trigger] split(text, '{')[i], color);
        lemma_symbol_shown(text, at, color);
    }
    if shows_mana(text, color) {
        let (before, symbol, after) = choose|before: Seq<char>, symbol: Seq<char>, after: Seq<char>|
            text == #[trigger] (before + seq!['{'] + symbol + seq!['}'] + after) && lacks(
                symbol,
                '{',
            ) && lacks(symbol, '}') && offers(symbol, color);
        let at = lemma_shown_symbol(text, before, symbol, after, color);
    }
}

proof fn lemma_outside_front(text: Seq<char>, rest: Seq<char>, depth: nat)
    requires
        lacks(text, '('),
        lacks(text, ')'),
    ensures
        outside_parentheses(text + rest, depth) == (if depth == 0 {
            text
        } else {
            Seq::empty()
        }) + outside_parentheses(rest, depth),
    decreases text.len(),
{
    let whole = text + rest;
    if text.len() == 0 {
        assert(whole =~= rest);
        assert(outside_parentheses(whole, depth) =~= text + outside_parentheses(rest, depth));
        assert(outside_parentheses(whole, depth) =~= Seq::<char>::empty() + outside_parentheses(
            rest,
            depth,
        ));
    } else {
        let tail = text.drop_first();
        assert(whole[0] == text[0]);
        assert(whole.drop_first() =~= tail + rest);
        assert forall|i: int| 0 <= i < tail.len() implies #[trigger] tail[i] != '(' by {
            assert(tail[i] == text[i + 1]);
        }
        assert forall|i: int| 0 <= i < tail.len() implies #[trigger] tail[i] != ')' by {
            assert(tail[i] == text[i + 1]);
        }
        lemma_outside_front(tail, rest, depth);
        if depth == 0 {
            assert(seq![text[0]] + (tail + outside_parentheses(rest, depth)) =~= text
                + outside_parentheses(rest, depth));
        }
    }
}

proof fn lemma_group_goes(before: Seq<char>, inner: Seq<char>, after: Seq<char>, depth: nat)
    requires
        lacks(inner, '('),
        lacks(inner, ')'),
    ensures
        outside_parentheses(before + seq!['('] + inner + seq![')'] + after, depth)
            == outside_parentheses(before + after, depth),
    decreases before.len(),
{
    let text = before + seq!['('] + inner + seq![')'] + after;
    let less = before + after;
    if before.len() == 0 {
        assert(less =~= after);
        assert(text[0] == '(');
        assert(text.drop_first() =~= inner + (seq![')'] + after));
        lemma_outside_front(inner, seq![')'] + after, depth + 1);
        let closed = seq![')'] + after;
        assert(closed[0] == ')');
        assert(closed.drop_first() =~= after);
        assert(outside_parentheses(text, depth) =~= outside_parentheses(after, depth));
    } else {
        let rest = before.drop_first();
        assert(text[0] == before[0]);
        assert(less[0] == before[0]);
        assert(text.drop_first() =~= rest + seq!['('] + inner + seq![')'] + after);
        assert(less.drop_first() =~= rest + after);
        lemma_group_goes(rest, inner, after, depth + 1);
        lemma_group_goes(rest, inner, after, depth);
        if depth > 0 {
            lemma_group_goes(rest, inner, after, (depth - 1) as nat);
        }
    }
}

proof fn lemma_unopened(text: Seq<char>)
    requires
        lacks(text, '('),
    ensures
        outside_parentheses(text, 0) == text,
    decreases text.len(),
{
    if text.len() > 0 {
        let tail = text.drop_first();
        assert forall|i: int| 0 <= i < tail.len() implies #[trigger] tail[i] != '(' by {
            assert(tail[i] == text[i + 1]);
        }
        lemma_unopened(tail);
        assert(text[0] != '(');
        assert(seq![text[0]] + tail =~= text);
    } else {
        assert(text =~= Seq::empty());
    }
}

proof fn lemma_unclosed(text: Seq<char>, depth: nat)
    requires
        lacks(text, ')'),
        depth > 0,
    ensures
        outside_parentheses(text, depth) == Seq::<char>::empty(),
    decreases text.len(),
{
    if text.len() > 0 {
        let tail = text.drop_first();
        assert forall|i: int| 0 <= i < tail.len() implies #[trigger] tail[i] != ')' by {
            assert(tail[i] == text[i + 1]);
        }
        assert(text[0] != ')');
        lemma_unclosed(tail, depth);
        lemma_unclosed(tail, depth + 1);
    }
}

/// Text in parentheses leaves no trace, nested or not; what is never opened
/// stays, and what is never closed goes to the end.
pub proof fn law_text_in_parentheses_goes(before: Seq<char>, inner: Seq<char>, after: Seq<char>)
    ensures
        lacks(inner, '(') && lacks(inner, ')') ==> outside_parentheses(
            before + seq!['('] + inner + seq![')'] + after,
            0,
        ) == outside_parentheses(before + after, 0),
        lacks(before, '(') ==> outside_parentheses(before, 0) == before,
        lacks(before, '(') && lacks(before, ')') && lacks(inner, ')') ==> outside_parentheses(
            before + seq!['('] + inner,
            0,
        ) == before,
{
    if lacks(inner, '(') && lacks(inner, ')') {
        lemma_group_goes(before, inner, after, 0);
    }
    if lacks(before, '(') {
        lemma_unopened(before);
    }
    if lacks(before, '(') && lacks(before, ')') && lacks(inner, ')') {
        let rest = seq!['('] + inner;
        assert(before + seq!['('] + inner =~= before + rest);
        lemma_outside_front(before, rest, 0);
        assert(rest[0] == '(');
        assert(rest.drop_first() =~= inner);
        lemma_unclosed(inner, 1);
        assert(before + outside_parentheses(rest, 0) =~= before);
    }
}

proof fn lemma_first_byte(text: Seq<char>, color: char)
    requires
        text.len() > 0,
        rank(color) is Some,
    ensures
        encode_utf8(text).len() > 0,
        (encode_utf8(text)[0] == color as u8) == (text[0] == color),
{
    let scalar = text[0] as u32;
    let first = encode_scalar(scalar);
    assert(encode_utf8(text) == first + encode_utf8(text.drop_first()));
    assert(scalar <= 0x7f ==> leading_byte_width_1(scalar) == scalar) by (bit_vector);
    assert(leading_byte_width_2(scalar) >= 0x80) by (bit_vector);
    assert(leading_byte_width_3(scalar) >= 0x80) by (bit_vector);
    assert(leading_byte_width_4(scalar) >= 0x80) by (bit_vector);
    assert(first.len() > 0);
    assert(encode_utf8(text)[0] == first[0]);
    assert(color as u8 == color as u32);
    char_u32_cast(text[0], scalar);
    char_u32_cast(color, color as u32);
    assert(scalar as char == text[0]);
    assert((color as u32) as char == color);
    if scalar <= 0x7f {
        assert(first[0] == scalar);
        if first[0] == color as u8 {
            assert(scalar == color as u32);
        }
    } else {
        assert(first[0] >= 0x80);
        assert((color as u8) < 0x80);
        assert(text[0] != color);
    }
}

proof fn lemma_begins(list: Seq<String>, color: char)
    requires
        rank(color) is Some,
    ensures
        first_bytes(list).contains(color as u8) == begins_one(list, color),
{
    if first_bytes(list).contains(color as u8) {
        let i = choose|i: int|
            0 <= i < list.len() && (#[trigger] list[i])@.len() > 0 && encode_utf8(list[i]@)[0]
                == color as u8;
        lemma_first_byte(list[i]@, color);
    }
    if begins_one(list, color) {
        let i = choose|i: int|
            0 <= i < list.len() && (#[trigger] list[i])@.len() > 0 && list[i]@[0] == color;
        lemma_first_byte(list[i]@, color);
    }
}

proof fn lemma_letters(
    mana_cost: Seq<char>,
    oracle_text: Option<Seq<char>>,
    colors: Seq<String>,
    color_indicator: Option<Seq<String>>,
    color: char,
)
    requires
        rank(color) is Some,
    ensures
        explicit_letters(mana_cost, oracle_text, colors, color_indicator).contains(color as u8)
            == is_source(mana_cost, oracle_text, colors, color_indicator, color),
{
    law_symbols_stand_between_braces(mana_cost, color);
    assert((color as u8) as char == color);
    lemma_begins(colors, color);
    if let Some(text) = oracle_text {
        law_symbols_stand_between_braces(outside_parentheses(text, 0), color);
    }
    if let Some(indicator) = color_indicator {
        lemma_begins(indicator, color);
    }
}

proof fn lemma_has_color(card: ScryfallCard, color: char)
    requires
        rank(color) is Some,
    ensures
        card_letters(card).contains(color as u8) == has_color(card, color),
{
    lemma_letters(
        card.mana_cost@,
        optional_view(card.oracle_text),
        card.colors@,
        list_of(card.color_indicator),
        color,
    );
    assert forall|i: int| 0 <= i < card.card_faces@.len() implies face_letters(
        #[trigger] card.card_faces@[i],
    ).contains(color as u8) == is_source(
        card.card_faces@[i].mana_cost@,
        optional_view(card.card_faces@[i].oracle_text),
        card.card_faces@[i].colors@,
        list_of(card.card_faces@[i].color_indicator),
        color,
    ) by {
        let face = card.card_faces@[i];
        lemma_letters(
            face.mana_cost@,
            optional_view(face.oracle_text),
            face.colors@,
            list_of(face.color_indicator),
            color,
        );
    }
}

proof fn lemma_letters_start(word: Seq<char>) -> (front: Seq<char>)
    ensures
        word == front + letters_start(word),
        no_letters(front),
        letters_start(word).len() > 0 ==> unicode_alphabetic(letters_start(word)[0]),
    decreases word.len(),
{
    if word.len() > 0 && !unicode_alphabetic(word[0]) {
        let inner = lemma_letters_start(word.drop_first());
        let front = seq![word[0]] + inner;
        assert(word =~= seq![word[0]] + word.drop_first());
        assert(word =~= front + letters_start(word));
        assert forall|i: int| 0 <= i < front.len() implies !unicode_alphabetic(
            #[trigger] front[i],
        ) by {
            if i > 0 {
                assert(front[i] == inner[i - 1]);
            }
        }
        front
    } else {
        assert(word =~= Seq::<char>::empty() + word);
        Seq::empty()
    }
}

proof fn lemma_letters_end(word: Seq<char>) -> (back: Seq<char>)
    ensures
        word == letters_end(word) + back,
        no_letters(back),
    decreases word.len(),
{
    if word.len() > 0 && !unicode_alphabetic(word.last()) {
        let inner = lemma_letters_end(word.drop_last());
        let back = inner.push(word.last());
        assert(word =~= word.drop_last().push(word.last()));
        assert(word =~= letters_end(word) + back);
        assert forall|i: int| 0 <= i < back.len() implies !unicode_alphabetic(
            #[trigger] back[i],
        ) by {
            if i < inner.len() {
                assert(back[i] == inner[i]);
            }
        }
        back
    } else {
        assert(word =~= word + Seq::<char>::empty());
        Seq::empty()
    }
}

proof fn lemma_letters_start_is(front: Seq<char>, word: Seq<char>)
    requires
        no_letters(front),
        word.len() > 0,
        unicode_alphabetic(word[0]),
    ensures
        letters_start(front + word) == word,
    decreases front.len(),
{
    let whole = front + word;
    if front.len() == 0 {
        assert(whole =~= word);
    } else {
        let rest = front.drop_first();
        assert forall|i: int| 0 <= i < rest.len() implies !unicode_alphabetic(
            #[trigger] rest[i],
        ) by {
            assert(rest[i] == front[i + 1]);
        }
        assert(whole[0] == front[0]);
        assert(whole.drop_first() =~= rest + word);
        lemma_letters_start_is(rest, word);
    }
}

proof fn lemma_letters_end_is(word: Seq<char>, back: Seq<char>)
    requires
        no_letters(back),
        word.len() > 0,
        unicode_alphabetic(word.last()),
    ensures
        letters_end(word + back) == word,
    decreases back.len(),
{
    let whole = word + back;
    if back.len() == 0 {
        assert(whole =~= word);
    } else {
        let rest = back.drop_last();
        assert forall|i: int| 0 <= i < rest.len() implies !unicode_alphabetic(
            #[trigger] rest[i],
        ) by {
            assert(rest[i] == back[i]);
        }
        assert(whole.last() == back[back.len() - 1]);
        assert(whole.drop_last() =~= word + rest);
        lemma_letters_end_is(word, rest);
    }
}

/// A type line has a type where the type stands as a word of its own, whatever
/// stands around its letters.
pub proof fn law_types_are_words(type_line: Seq<char>, word: Seq<char>)
    requires
        word.len() > 0,
        unicode_alphabetic(word[0]),
        unicode_alphabetic(word.last()),
    ensures
        type_line_has(type_line, word) == is_typed(type_line, word),
{
    let all = words(type_line, Gap::WhiteSpace);
    if type_line_has(type_line, word) {
        let i = choose|i: int|
            0 <= i < all.len() && letters_end(letters_start(#[trigger] all[i])) == word;
        let whole = all[i];
        let front = lemma_letters_start(whole);
        let body = letters_start(whole);
        let back = lemma_letters_end(body);
        assert(whole =~= front + word + back);
        law_words_stand_between_gaps(type_line, whole, Gap::WhiteSpace);
        assert(all.contains(whole));
        let (before, after) = choose|before: Seq<char>, after: Seq<char>|
            type_line == #[trigger] (before + whole + after) && stands_between(
                before,
                whole,
                after,
                Gap::WhiteSpace,
            );
        assert(type_line == before + (front + word + back) + after);
    }
    if is_typed(type_line, word) {
        let (before, front, back, after) = choose|
            before: Seq<char>,
            front: Seq<char>,
            back: Seq<char>,
            after: Seq<char>,
        |
            type_line == #[trigger] (before + (front + word + back) + after) && stands_between(
                before,
                front + word + back,
                after,
                Gap::WhiteSpace,
            ) && no_letters(front) && no_letters(back);
        let whole = front + word + back;
        law_words_stand_between_gaps(type_line, whole, Gap::WhiteSpace);
        assert(type_line == before + whole + after);
        assert(all.contains(whole));
        let i = choose|i: int| 0 <= i < all.len() && all[i] == whole;
        assert(whole =~= front + (word + back));
        assert((word + back)[0] == word[0]);
        lemma_letters_start_is(front, word + back);
        lemma_letters_end_is(word, back);
        assert(letters_end(letters_start(all[i])) == word);
    }
}

proof fn lemma_of_type(card: ScryfallCard, word: Seq<char>)
    requires
        word.len() > 0,
        unicode_alphabetic(word[0]),
        unicode_alphabetic(word.last()),
    ensures
        card_has_type(card, word) == is_of_type(card, word),
{
    law_types_are_words(card.type_line@, word);
    assert forall|i: int| 0 <= i < card.card_faces@.len() implies type_line_has(
        (#[trigger] card.card_faces@[i]).type_line@,
        word,
    ) == is_typed(card.card_faces@[i].type_line@, word) by {
        law_types_are_words(card.card_faces@[i].type_line@, word);
    }
}

/// The texts of the five colors.
proof fn lemma_color_texts()
    ensures
        "W"@ == seq!['W'],
        "U"@ == seq!['U'],
        "B"@ == seq!['B'],
        "R"@ == seq!['R'],
        "G"@ == seq!['G'],
{
    reveal_strlit("W");
    reveal_strlit("U");
    reveal_strlit("B");
    reveal_strlit("R");
    reveal_strlit("G");
    assert("W"@ =~= seq!['W']);
    assert("U"@ =~= seq!['U']);
    assert("B"@ =~= seq!['B']);
    assert("R"@ =~= seq!['R']);
    assert("G"@ =~= seq!['G']);
}

proof fn lemma_land(color: char)
    requires
        rank(color) is Some,
    ensures
        basic_land_type(seq![color]) == Some(land_of(color)),
{
    lemma_color_texts();
    assert(seq!['W'][0] != seq!['U'][0]);
    let text = seq![color];
    assert(text[0] == color);
    assert(color != 'W' ==> text != seq!['W']) by {
        assert(seq!['W'][0] == 'W');
    }
    assert(color != 'U' ==> text != seq!['U']) by {
        assert(seq!['U'][0] == 'U');
    }
    assert(color != 'B' ==> text != seq!['B']) by {
        assert(seq!['B'][0] == 'B');
    }
    assert(color != 'R' ==> text != seq!['R']) by {
        assert(seq!['R'][0] == 'R');
    }
}

/// The identity holds the colors that belong to it, each once, in their order.
proof fn lemma_identity_holds(card: ScryfallCard)
    ensures
        forall|color: char|
            #![trigger color_identity_of(card).contains(color)]
            color_identity_of(card).contains(color) <==> rank(color) is Some && in_identity(
                card,
                seq![color],
                color as u8,
            ),
        forall|i: int, j: int|
            0 <= i < j < color_identity_of(card).len() ==> rank(
                #[trigger] color_identity_of(card)[i],
            )->0 < rank(#[trigger] color_identity_of(card)[j])->0,
{
    lemma_color_texts();
    let w = identity_part(card, "W"@, 87);
    let u = identity_part(card, "U"@, 85);
    let b = identity_part(card, "B"@, 66);
    let r = identity_part(card, "R"@, 82);
    let g = identity_part(card, "G"@, 71);
    let out = w + u + b + r + g;
    assert(w.len() <= 1 && u.len() <= 1 && b.len() <= 1 && r.len() <= 1 && g.len() <= 1);
    let at_u = w.len() as int;
    let at_b = at_u + u.len();
    let at_r = at_b + b.len();
    let at_g = at_r + r.len();
    assert(w.len() > 0 ==> out[0] == 'W');
    assert(u.len() > 0 ==> out[at_u] == 'U');
    assert(b.len() > 0 ==> out[at_b] == 'B');
    assert(r.len() > 0 ==> out[at_r] == 'R');
    assert(g.len() > 0 ==> out[at_g] == 'G');
    assert('W' as u8 == 87 && 'U' as u8 == 85 && 'B' as u8 == 66 && 'R' as u8 == 82 && 'G' as u8
        == 71);
    assert forall|color: char|
        #![trigger out.contains(color)]
        out.contains(color) <==> rank(color) is Some && in_identity(
            card,
            seq![color],
            color as u8,
        ) by {
        if out.contains(color) {
            let i = choose|i: int| 0 <= i < out.len() && out[i] == color;
        }
    }
}

/// A color belongs to the identity where the card's data lists it, unless a
/// basic land type of the card is all that it comes from: it stays where the
/// card or a face has the color, and where the card has no land type for it.
pub proof fn law_identities_hold_what_is_listed(card: ScryfallCard, color: char)
    requires
        rank(color) is Some ==> unicode_alphabetic(land_of(color)[0]) && unicode_alphabetic(
            land_of(color).last(),
        ),
    ensures
        color_identity_of(card).contains(color) <==> rank(color) is Some && lists(
            card.color_identity@,
            seq![color],
        ) && (has_color(card, color) || !is_of_type(card, land_of(color))),
{
    lemma_identity_holds(card);
    if rank(color) is Some {
        lemma_has_color(card, color);
        lemma_land(color);
        reveal_strlit("Plains");
        reveal_strlit("Island");
        reveal_strlit("Swamp");
        reveal_strlit("Mountain");
        reveal_strlit("Forest");
        lemma_of_type(card, land_of(color));
    }
    assert(color_identity_of(card).contains(color) == color_identity_of(card).contains(color));
}

/// A color that the card's data lists and that the card or a face has is never
/// lost, whatever the card's types.
pub proof fn law_own_colors_stay(card: ScryfallCard, color: char)
    requires
        rank(color) is Some,
        lists(card.color_identity@, seq![color]),
        has_color(card, color),
    ensures
        color_identity_of(card).contains(color),
{
    lemma_identity_holds(card);
    lemma_has_color(card, color);
    assert(color_identity_of(card).contains(color) == color_identity_of(card).contains(color));
}

/// A color that the card's data lists stays where the card has no basic land
/// type for it.
pub proof fn law_colors_without_a_land_stay(card: ScryfallCard, color: char)
    requires
        rank(color) is Some,
        lists(card.color_identity@, seq![color]),
        !card_has_type(card, land_of(color)),
    ensures
        color_identity_of(card).contains(color),
{
    lemma_identity_holds(card);
    lemma_land(color);
    assert(color_identity_of(card).contains(color) == color_identity_of(card).contains(color));
}

/// A color that a basic land type of the card is all that it comes from is
/// left out, and so is one that the card's data does not list.
pub proof fn law_colors_of_lands_are_left_out(card: ScryfallCard, color: char)
    requires
        rank(color) is Some,
        !lists(card.color_identity@, seq![color]) || (card_has_type(card, land_of(color))
            && !has_color(card, color)),
    ensures
        !color_identity_of(card).contains(color),
{
    lemma_identity_holds(card);
    lemma_has_color(card, color);
    lemma_land(color);
    assert(color_identity_of(card).contains(color) == color_identity_of(card).contains(color));
}

/// The colors of an identity come in the order white, blue, black, red, green,
/// and none comes twice.
pub proof fn law_identities_are_in_order(card: ScryfallCard, i: int, j: int)
    requires
        0 <= i < j < color_identity_of(card).len(),
    ensures
        rank(color_identity_of(card)[i]) is Some,
        rank(color_identity_of(card)[j]) is Some,
        rank(color_identity_of(card)[i])->0 < rank(color_identity_of(card)[j])->0,
{
    lemma_identity_holds(card);
    assert(color_identity_of(card).contains(color_identity_of(card)[i]));
    assert(color_identity_of(card).contains(color_identity_of(card)[j]));
}

} // verus!
