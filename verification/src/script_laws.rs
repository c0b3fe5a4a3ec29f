//! How the fields of a script are read, and how costs, types and rules texts
//! are compared.

use vstd::prelude::*;

use crate::anonymity::is_trimmed;
use crate::letters::{
    ascii_lower, ascii_lowercase, unicode_alphanumeric, unicode_lowercase, unicode_upper,
};
use crate::script::{
    alternate_rows, field_of, field_values, first_value, has_mode, identity_name, meld_back,
};
use crate::scryfall::ScryfallCard;
use crate::segment_laws::{is_blank, law_white_space_is_trimmed};
use crate::signatures::{
    card_signature, cost_symbols, face_signature, lowercase_words, mana_cost_of, oracle_text_of,
    script_signature, type_line_of,
};
use crate::tables::lacks;
use crate::text::{
    find, is_white_space, join, join_tail, lemma_find, lemma_find_char, lemma_find_char_is, lines,
    occurs_at, replace, trim,
};
use crate::words::{is_gap, words, words_after, Gap};

verus! {

/// A row `Key:Value` has this key and this value, whatever white space stands
/// around them. The key ends at the first colon.
pub proof fn law_fields_are_read(
    pads: (Seq<char>, Seq<char>, Seq<char>, Seq<char>),
    key: Seq<char>,
    value: Seq<char>,
)
    requires
        is_blank(pads.0),
        is_blank(pads.1),
        is_blank(pads.2),
        is_blank(pads.3),
        lacks(key, ':'),
        is_trimmed(key),
        is_trimmed(value),
    ensures
        field_of(pads.0 + key + pads.1 + seq![':'] + (pads.2 + value + pads.3)) == Some(
            (key, value),
        ),
{
    let left = pads.0 + key + pads.1;
    let right = pads.2 + value + pads.3;
    let row = left + seq![':'] + right;
    let at = left.len() as int;
    assert(row[at] == ':');
    assert forall|i: int| 0 <= i < at implies row[i] != ':' by {
        assert(row[i] == left[i]);
        if i < pads.0.len() {
            assert(left[i] == pads.0[i]);
        } else if i < pads.0.len() + key.len() {
            assert(left[i] == key[i - pads.0.len()]);
        } else {
            assert(left[i] == pads.1[i - pads.0.len() - key.len()]);
        }
    }
    lemma_find_char_is(row, ':', at);
    assert(row.take(at) =~= left);
    assert(row.skip(at + 1) =~= right);
    law_white_space_is_trimmed(pads.0, key, pads.1);
    law_white_space_is_trimmed(pads.2, value, pads.3);
}

/// A row without a colon is no field.
pub proof fn law_other_rows_are_no_fields(row: Seq<char>)
    requires
        lacks(row, ':'),
    ensures
        field_of(row) is None,
{
    lemma_find_char(row, ':');
}

proof fn lemma_values_push(rows: Seq<Seq<char>>, row: Seq<char>, key: Seq<char>)
    ensures
        field_values(rows.push(row), key) == match field_of(row) {
            Some((found, value)) => if found == key {
                field_values(rows, key).push(value)
            } else {
                field_values(rows, key)
            },
            None => field_values(rows, key),
        },
{
    assert(rows.push(row).drop_last() =~= rows);
}

proof fn lemma_values_concat(left: Seq<Seq<char>>, right: Seq<Seq<char>>, key: Seq<char>)
    ensures
        field_values(left + right, key) == field_values(left, key) + field_values(right, key),
    decreases right.len(),
{
    if right.len() == 0 {
        assert(left + right =~= left);
        assert(field_values(left + right, key) =~= field_values(left, key) + field_values(
            right,
            key,
        ));
    } else {
        lemma_values_concat(left, right.drop_last(), key);
        assert((left + right).drop_last() =~= left + right.drop_last());
        assert((left + right).last() == right.last());
        assert(field_values(left + right, key) =~= field_values(left, key) + field_values(
            right,
            key,
        ));
    }
}

/// The values of a key are collected from all rows, in their order.
pub proof fn law_values_come_in_order(
    left: Seq<Seq<char>>,
    row: Seq<char>,
    right: Seq<Seq<char>>,
    key: Seq<char>,
)
    ensures
        field_values(left.push(row) + right, key) == field_values(left, key) + (match field_of(
            row,
        ) {
            Some((found, value)) => if found == key {
                seq![value]
            } else {
                Seq::empty()
            },
            None => Seq::empty(),
        }) + field_values(right, key),
        field_values(Seq::empty(), key) == Seq::<Seq<char>>::empty(),
{
    lemma_values_push(left, row, key);
    lemma_values_concat(left.push(row), right, key);
    let middle = match field_of(row) {
        Some((found, value)) => if found == key {
            seq![value]
        } else {
            Seq::empty()
        },
        None => Seq::empty(),
    };
    assert(field_values(left.push(row), key) =~= field_values(left, key) + middle);
}

/// The first value of a key counts.
pub proof fn law_first_values_count(script: Seq<char>, key: Seq<char>)
    ensures
        field_values(lines(script), key).len() == 0 ==> first_value(script, key) is None,
        field_values(lines(script), key).len() > 0 ==> first_value(script, key) == Some(
            field_values(lines(script), key)[0],
        ),
{
}

proof fn lemma_two(left: Seq<char>, right: Seq<char>)
    ensures
        join(seq![left, right], " // "@) == left + " // "@ + right,
        join(seq![left], " // "@) == left,
{
    let both = seq![left, right];
    assert(both.drop_first() =~= seq![right]);
    assert(seq![right].drop_first() =~= Seq::empty());
    assert(join_tail(seq![right].drop_first(), " // "@) =~= Seq::empty());
    assert(join_tail(seq![right], " // "@) =~= " // "@ + right);
    assert(join(both, " // "@) =~= left + " // "@ + right);
    assert(seq![left].drop_first() =~= Seq::empty());
    assert(join_tail(seq![left].drop_first(), " // "@) =~= Seq::empty());
    assert(join(seq![left], " // "@) =~= left);
}

/// A script is looked up by its first name; a split card by both names with
/// slashes between them; and a script without a name by the names of the faces
/// that it copies.
pub proof fn law_scripts_are_looked_up_by_their_names(
    script: Seq<char>,
    left: Seq<char>,
    right: Seq<char>,
)
    ensures
        ({
            let names = field_values(lines(script), "Name"@);
            let copied = field_values(lines(script), "CopyFaceFrom"@);
            let split = exists|i: int|
                0 <= i < lines(script).len() && #[trigger] field_of(lines(script)[i]) == Some(
                    ("AlternateMode"@, "Split"@),
                );
            &&& names.len() == 1 ==> identity_name(script) == Some(names[0])
            &&& names.len() > 0 && !split ==> identity_name(script) == Some(names[0])
            &&& names == seq![left, right] && split ==> identity_name(script) == Some(
                left + " // "@ + right,
            )
            &&& names.len() == 0 && copied == seq![left, right] ==> identity_name(script) == Some(
                left + " // "@ + right,
            )
            &&& names.len() == 0 && copied == seq![left] ==> identity_name(script) == Some(left)
            &&& names.len() == 0 && copied.len() == 0 ==> identity_name(script) is None
        }),
{
    lemma_two(left, right);
    assert(has_mode(lines(script), "Split"@) == exists|i: int|
        0 <= i < lines(script).len() && #[trigger] field_of(lines(script)[i]) == Some(
            ("AlternateMode"@, "Split"@),
        ));
}

proof fn lemma_alternate(before: Seq<Seq<char>>, marker: Seq<char>, after: Seq<Seq<char>>)
    requires
        forall|i: int| 0 <= i < before.len() ==> trim(#[trigger] before[i]) != "ALTERNATE"@,
        trim(marker) == "ALTERNATE"@,
    ensures
        alternate_rows(before.push(marker) + after) == after,
    decreases before.len(),
{
    let rows = before.push(marker) + after;
    if before.len() == 0 {
        assert(rows[0] == marker);
        assert(rows.drop_first() =~= after);
    } else {
        let rest = before.drop_first();
        assert(rows[0] == before[0]);
        assert forall|i: int| 0 <= i < rest.len() implies trim(#[trigger] rest[i])
            != "ALTERNATE"@ by {
            assert(rest[i] == before[i + 1]);
        }
        assert(rows.drop_first() =~= rest.push(marker) + after);
        lemma_alternate(rest, marker, after);
    }
}

/// The back of a meld card is what stands behind the row `ALTERNATE`, under the
/// first name there; other cards have no back of their own.
pub proof fn law_meld_cards_have_backs(
    script: Seq<char>,
    before: Seq<Seq<char>>,
    marker: Seq<char>,
    after: Seq<Seq<char>>,
)
    ensures
        ({
            let meld = exists|i: int|
                0 <= i < lines(script).len() && #[trigger] field_of(lines(script)[i]) == Some(
                    ("AlternateMode"@, "Meld"@),
                );
            &&& !meld ==> meld_back(script) is None
            &&& meld && lines(script) == before.push(marker) + after && trim(marker)
                == "ALTERNATE"@ && (forall|i: int|
                0 <= i < before.len() ==> trim(#[trigger] before[i]) != "ALTERNATE"@) ==> {
                let back = join(after, "\n"@);
                meld_back(script) == match first_value(back, "Name"@) {
                    Some(name) => Some((trim(name), back)),
                    None => None,
                }
            }
        }),
{
    assert(has_mode(lines(script), "Meld"@) == exists|i: int|
        0 <= i < lines(script).len() && #[trigger] field_of(lines(script)[i]) == Some(
            ("AlternateMode"@, "Meld"@),
        ));
    if lines(script) == before.push(marker) + after && trim(marker) == "ALTERNATE"@ && (forall|
        i: int,
    |
        0 <= i < before.len() ==> trim(#[trigger] before[i]) != "ALTERNATE"@) {
        lemma_alternate(before, marker, after);
    }
}

proof fn lemma_words_concat(left: Seq<char>, c: char, right: Seq<char>, current: Seq<char>, gap: Gap)
    requires
        is_gap(gap, c),
    ensures
        words_after(left + seq![c] + right, current, gap) == words_after(left, current, gap)
            + words(right, gap),
    decreases left.len(),
{
    let text = left + seq![c] + right;
    let none = Seq::<char>::empty();
    if left.len() == 0 {
        assert(text[0] == c);
        assert(text.drop_first() =~= right);
        assert(current.len() == 0 ==> current =~= none);
        assert(words_after(text, current, gap) =~= words_after(left, current, gap) + words(
            right,
            gap,
        ));
    } else {
        let rest = left.drop_first();
        assert(text[0] == left[0]);
        assert(text.drop_first() =~= rest + seq![c] + right);
        lemma_words_concat(rest, c, right, current.push(left[0]), gap);
        lemma_words_concat(rest, c, right, current, gap);
        lemma_words_concat(rest, c, right, none, gap);
        assert(words_after(text, current, gap) =~= words_after(left, current, gap) + words(
            right,
            gap,
        ));
    }
}

/// Rules texts are compared word by word: white space of any kind and length
/// reads as one space, and so does a line feed that is written as an escape.
pub proof fn law_white_space_in_rules_texts_is_one(left: Seq<char>, gap: char, right: Seq<char>)
    requires
        is_white_space(gap),
        lacks(left, '\\'),
        lacks(right, '\\'),
    ensures
        oracle_text_of(left + seq![gap] + right) == join(
            words(left, Gap::WhiteSpace) + words(right, Gap::WhiteSpace),
            " "@,
        ),
        oracle_text_of(left + "\\n"@ + right) == join(
            words(left, Gap::WhiteSpace) + words(right, Gap::WhiteSpace),
            " "@,
        ),
{
    reveal_strlit("\\n");
    reveal_strlit("\n");
    let plain = left + seq![gap] + right;
    lemma_find(plain, "\\n"@);
    assert forall|j: int| !occurs_at(plain, "\\n"@, j) by {
        if occurs_at(plain, "\\n"@, j) {
            assert(plain.subrange(j, j + 2)[0] == plain[j]);
            if j < left.len() {
                assert(plain[j] == left[j]);
            } else if j > left.len() {
                assert(plain[j] == right[j - left.len() - 1]);
            }
        }
    }
    lemma_words_concat(left, gap, right, Seq::empty(), Gap::WhiteSpace);
    let text = left + "\\n"@ + right;
    let at = left.len() as int;
    lemma_find(text, "\\n"@);
    assert(text.subrange(at, at + 2) =~= "\\n"@);
    assert(occurs_at(text, "\\n"@, at));
    assert forall|j: int| 0 <= j < at implies !occurs_at(text, "\\n"@, j) by {
        if occurs_at(text, "\\n"@, j) {
            assert(text.subrange(j, j + 2)[0] == text[j]);
            assert(text[j] == left[j]);
        }
    }
    lemma_find(right, "\\n"@);
    assert forall|j: int| !occurs_at(right, "\\n"@, j) by {
        if occurs_at(right, "\\n"@, j) {
            assert(right.subrange(j, j + 2)[0] == right[j]);
        }
    }
    assert(find(text, "\\n"@) == Some(at));
    assert(text.take(at) =~= left);
    assert(text.skip(at + 2) =~= right);
    let read = left + seq!['\n'] + right;
    assert("\n"@ =~= seq!['\n']);
    assert(replace(right, "\\n"@, "\n"@) == right);
    assert(replace(text, "\\n"@, "\n"@) == text.take(at) + "\n"@ + replace(
        text.skip(at + 2),
        "\\n"@,
        "\n"@,
    ));
    assert(replace(text, "\\n"@, "\n"@) =~= read);
    lemma_words_concat(left, '\n', right, Seq::empty(), Gap::WhiteSpace);
}

proof fn lemma_cost_concat(left: Seq<char>, right: Seq<char>)
    ensures
        cost_symbols(left + right) == cost_symbols(left) + cost_symbols(right),
    decreases right.len(),
{
    if right.len() == 0 {
        assert(left + right =~= left);
        assert(cost_symbols(left + right) =~= cost_symbols(left) + cost_symbols(right));
    } else {
        lemma_cost_concat(left, right.drop_last());
        assert((left + right).drop_last() =~= left + right.drop_last());
        assert((left + right).last() == right.last());
        assert(cost_symbols(left + right) =~= cost_symbols(left) + cost_symbols(right));
    }
}

/// Whether the value says that there is no cost, in letters of any case.
pub open spec fn says_no_cost(value: Seq<char>) -> bool {
    &&& value.len() == 7
    &&& value[0] == 'n' || value[0] == 'N'
    &&& value[1] == 'o' || value[1] == 'O'
    &&& value[2] == ' '
    &&& value[3] == 'c' || value[3] == 'C'
    &&& value[4] == 'o' || value[4] == 'O'
    &&& value[5] == 's' || value[5] == 'S'
    &&& value[6] == 't' || value[6] == 'T'
}

/// What one character of a cost counts for: its uppercase form, or nothing for
/// braces, spaces and other marks.
pub open spec fn symbol_of(c: char) -> Seq<char> {
    if unicode_alphanumeric(c) || c == '/' {
        unicode_upper(c)
    } else {
        Seq::empty()
    }
}

proof fn lemma_says_no_cost(value: Seq<char>)
    ensures
        (ascii_lowercase(value) == "no cost"@) == says_no_cost(value),
{
    reveal_strlit("no cost");
    let lower = ascii_lowercase(value);
    if lower == "no cost"@ {
        assert(lower.len() == 7);
        assert(lower[0] == ascii_lower(value[0]));
        assert(lower[1] == ascii_lower(value[1]));
        assert(lower[2] == ascii_lower(value[2]));
        assert(lower[3] == ascii_lower(value[3]));
        assert(lower[4] == ascii_lower(value[4]));
        assert(lower[5] == ascii_lower(value[5]));
        assert(lower[6] == ascii_lower(value[6]));
    }
    if says_no_cost(value) {
        assert(lower =~= "no cost"@);
    }
}

/// A cost is compared by its symbols in uppercase, whatever stands between
/// them; where there is no cost nothing is left.
pub proof fn law_costs_are_compared_by_their_symbols(left: Seq<char>, c: char, right: Seq<char>)
    ensures
        says_no_cost(left) ==> mana_cost_of(left) == Seq::<char>::empty(),
        !says_no_cost(left + seq![c] + right) && !says_no_cost(left) && !says_no_cost(right)
            ==> mana_cost_of(left + seq![c] + right) == mana_cost_of(left) + symbol_of(c)
            + mana_cost_of(right),
        mana_cost_of(Seq::empty()) == Seq::<char>::empty(),
{
    let whole = left + seq![c] + right;
    lemma_says_no_cost(left);
    lemma_says_no_cost(right);
    lemma_says_no_cost(whole);
    lemma_says_no_cost(Seq::empty());
    lemma_cost_concat(left + seq![c], right);
    lemma_cost_concat(left, seq![c]);
    assert(seq![c].drop_last() =~= Seq::empty());
    assert(cost_symbols(seq![c].drop_last()) =~= Seq::empty());
    assert(cost_symbols(seq![c]) =~= symbol_of(c));
}

/// Types are compared by their words in lowercase, whatever stands between
/// them.
pub proof fn law_types_are_compared_by_their_words(value: Seq<char>)
    ensures
        type_line_of(value) == join(
            Seq::new(
                words(value, Gap::NotAlphanumeric).len(),
                |i: int| unicode_lowercase(words(value, Gap::NotAlphanumeric)[i]),
            ),
            " "@,
        ),
{
    assert(type_line_of(value) == join(
        lowercase_words(words(value, Gap::NotAlphanumeric)),
        " "@,
    ));
    assert(lowercase_words(words(value, Gap::NotAlphanumeric)) =~= Seq::new(
        words(value, Gap::NotAlphanumeric).len(),
        |i: int| unicode_lowercase(words(value, Gap::NotAlphanumeric)[i]),
    ));
}

/// A script and a card have one signature exactly where they have as many faces
/// and the costs and types of each face agree. A card without faces is one
/// face, and a script needs as many costs as types.
pub proof fn law_signatures_compare_faces(script: Seq<char>, card: ScryfallCard)
    ensures
        ({
            let costs = field_values(lines(script), "ManaCost"@);
            let types = field_values(lines(script), "Types"@);
            let faces = card.card_faces@;
            &&& script_signature(script) is Some <==> costs.len() > 0 && costs.len() == types.len()
            &&& script_signature(script) is Some && faces.len() == 0 ==> (script_signature(script)
                == Some(card_signature(card)) <==> costs.len() == 1 && mana_cost_of(costs[0])
                == mana_cost_of(card.mana_cost@) && type_line_of(types[0]) == type_line_of(
                card.type_line@,
            ))
            &&& script_signature(script) is Some && faces.len() > 0 ==> (script_signature(script)
                == Some(card_signature(card)) <==> costs.len() == faces.len() && forall|i: int|
                0 <= i < faces.len() ==> mana_cost_of(costs[i]) == mana_cost_of(
                    (#[trigger] faces[i]).mana_cost@,
                ) && type_line_of(types[i]) == type_line_of(faces[i].type_line@))
        }),
{
    let costs = field_values(lines(script), "ManaCost"@);
    let types = field_values(lines(script), "Types"@);
    let faces = card.card_faces@;
    if script_signature(script) is Some {
        let ours = script_signature(script)->0;
        let theirs = card_signature(card);
        if faces.len() == 0 {
            assert(theirs[0] == face_signature(card.mana_cost@, card.type_line@));
            if ours == theirs {
                assert(ours.len() == 1);
                assert(ours[0] == theirs[0]);
            }
            if costs.len() == 1 && mana_cost_of(costs[0]) == mana_cost_of(card.mana_cost@)
                && type_line_of(types[0]) == type_line_of(card.type_line@) {
                assert(ours =~= theirs);
            }
        } else {
            if ours == theirs {
                assert forall|i: int| 0 <= i < faces.len() implies mana_cost_of(costs[i])
                    == mana_cost_of((#[trigger] faces[i]).mana_cost@) && type_line_of(types[i])
                    == type_line_of(faces[i].type_line@) by {
                    assert(ours[i] == theirs[i]);
                }
            }
            if costs.len() == faces.len() && forall|i: int|
                0 <= i < faces.len() ==> mana_cost_of(costs[i]) == mana_cost_of(
                    (#[trigger] faces[i]).mana_cost@,
                ) && type_line_of(types[i]) == type_line_of(faces[i].type_line@) {
                assert forall|i: int| 0 <= i < ours.len() implies ours[i] == theirs[i] by {
                    let face = faces[i];
                }
                assert(ours =~= theirs);
            }
        }
    }
}

} // verus!
