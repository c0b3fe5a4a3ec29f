//! What becomes of the parameters of a line.

use vstd::prelude::*;

use crate::anonymity::{is_trimmed, lemma_split_lacks, lemma_trim, lemma_trim_spaced};
use crate::digest::runtime_object_id;
use crate::ids::TokenScriptId;
use crate::numerals::{decimal, is_digit, lemma_decimal};
use crate::parameters::{
    api_of, card_key, card_list, card_numerals, card_parameters, card_segment, display_segment,
    is_object_key, kept_segments, parameter_of, token_numerals, token_parameters, token_segment,
    top_level_reference, without_display,
};
use crate::references::id_for_name;
use crate::runtime::{numbered_names, object_parameters, object_segment};
use crate::segment_laws::{
    is_blank, law_parameters_are_read, law_white_space_is_trimmed, lemma_joined_segments,
};
use crate::tables::{lacks, lemma_split_join};
use crate::text::{
    ends_with, find_char, join, join_tail, lemma_find_char, lemma_find_char_is, lemma_rfind_char,
    rfind_char, split, starts_with, trim,
};

verus! {

/// The numerals of the numbers.
pub open spec fn numerals(numbers: Seq<u32>) -> Seq<Seq<char>> {
    Seq::new(numbers.len(), |i: int| decimal(numbers[i] as nat))
}

/// The parameters that take a list of card titles: the effect, the key, what
/// stands in front of the list, and the key that takes the numbers.
pub open spec fn takes_card_list(
    effect: Seq<char>,
    key: Seq<char>,
    lead: Seq<char>,
    label: Seq<char>,
) -> bool {
    ||| effect == "NameCard"@ && key == "ChooseFromList"@ && lead == ""@ && label
        == "ChooseFromCatalogIds"@
    ||| key == "Spellbook"@ && lead == ""@ && label == "SpellbookCatalogIds"@
    ||| effect == "MakeCard"@ && key == "Names"@ && lead == ""@ && label == "CatalogIds"@
    ||| effect == "MakeCard"@ && key == "Choices"@ && lead == ""@ && label == "CatalogIds"@
    ||| effect == "Play"@ && key == "AnySupportedCard"@ && lead == "Names:"@ && label
        == "AnySupportedCatalogIds"@
}

/// The parameters that take one card title: the effect, the key, and the key
/// that takes the number.
pub open spec fn takes_card(effect: Seq<char>, key: Seq<char>, label: Seq<char>) -> bool {
    ||| effect == "MakeCard"@ && key == "Name"@ && label == "CatalogId"@
    ||| effect == "Meld"@ && key == "Name"@ && label == "CatalogId"@
    ||| effect == "Meld"@ && key == "Primary"@ && label == "PrimaryCatalogId"@
    ||| effect == "Meld"@ && key == "Secondary"@ && label == "SecondaryCatalogId"@
    ||| effect == "CopyPermanent"@ && key == "DefinedName"@ && label == "DefinedCatalogId"@
}

/// The parameters that name an object of the script.
pub open spec fn takes_object(effect: Seq<char>, key: Seq<char>) -> bool {
    ||| key == "NewName"@
    ||| key == "SetName"@
    ||| effect == "Effect"@ && key == "Name"@
    ||| effect == "ReplaceEffect"@ && key == "Name"@
    ||| effect == "ReplaceSplitDamage"@ && key == "Name"@
    ||| effect == "Animate"@ && key == "Name"@
}

/// The keys of the parameters that are for people alone.
pub open spec fn is_for_people(key: Seq<char>) -> bool {
    ||| exists|front: Seq<char>| key == #[trigger] (front + "Description"@)
    ||| exists|front: Seq<char>| key == #[trigger] (front + "Prompt"@)
    ||| exists|front: Seq<char>| key == #[trigger] (front + "Desc"@)
    ||| exists|front: Seq<char>| key == #[trigger] (front + "Message"@)
    ||| exists|front: Seq<char>| key == #[trigger] (front + "Title"@)
    ||| key == "Image"@
    ||| key == "SpellbookName"@
}

proof fn lemma_numeral_list(numbers: Seq<nat>)
    requires
        numbers.len() > 0,
    ensures
        ({
            let text = join(Seq::new(numbers.len(), |i: int| decimal(numbers[i])), ","@);
            &&& text.len() > 0
            &&& is_digit(text.last())
            &&& forall|i: int| 0 <= i < text.len() ==> is_digit(#[trigger] text[i]) || text[i] == ','
        }),
    decreases numbers.len(),
{
    reveal_strlit(",");
    let list = Seq::new(numbers.len(), |i: int| decimal(numbers[i]));
    let text = join(list, ","@);
    let later = numbers.drop_first();
    let rest = Seq::new(later.len(), |i: int| decimal(later[i]));
    assert(list.drop_first() =~= rest);
    lemma_decimal(numbers[0]);
    let first = decimal(numbers[0]);
    if later.len() == 0 {
        assert(join_tail(rest, ","@) =~= Seq::empty());
        assert(text =~= first);
        assert(is_digit(first[first.len() - 1]));
    } else {
        lemma_numeral_list(later);
        let tail = join(rest, ","@);
        assert(join_tail(rest, ","@) =~= ","@ + tail);
        assert(text =~= first + ","@ + tail);
        assert(text.last() == tail.last());
        assert forall|i: int| 0 <= i < text.len() implies is_digit(#[trigger] text[i]) || text[i]
            == ',' by {
            if i < first.len() {
                assert(is_digit(first[i]));
            } else if i > first.len() {
                assert(text[i] == tail[i - first.len() - 1]);
            }
        }
    }
}

/// A key, `$` and a list of numerals is one trimmed segment.
proof fn lemma_labelled(label: Seq<char>, numbers: Seq<nat>)
    requires
        label.len() > 0,
        is_trimmed(label),
        lacks(label, '|'),
        numbers.len() > 0,
    ensures
        ({
            let list = join(Seq::new(numbers.len(), |i: int| decimal(numbers[i])), ","@);
            let out = label + "$ "@ + list;
            is_trimmed(out) && lacks(out, '|')
        }),
{
    reveal_strlit("$ ");
    let list = join(Seq::new(numbers.len(), |i: int| decimal(numbers[i])), ","@);
    let out = label + "$ "@ + list;
    lemma_numeral_list(numbers);
    assert(out.last() == list.last());
    assert(out[0] == label[0]);
    assert forall|i: int| 0 <= i < out.len() implies #[trigger] out[i] != '|' by {
        if i < label.len() {
            assert(out[i] == label[i]);
        } else if i >= label.len() + 2 {
            assert(out[i] == list[i - label.len() - 2]);
        }
    }
}

proof fn lemma_one_numeral(n: nat)
    ensures
        join(Seq::new(seq![n].len(), |i: int| decimal(seq![n][i])), ","@) == decimal(n),
{
    let list = Seq::new(seq![n].len(), |i: int| decimal(seq![n][i]));
    assert(list.drop_first() =~= Seq::empty());
    assert(join_tail(list.drop_first(), ","@) =~= Seq::empty());
    assert(join(list, ","@) =~= decimal(n));
}

proof fn lemma_labels()
    ensures
        forall|label: Seq<char>|
            label == "CatalogId"@ || label == "PrimaryCatalogId"@ || label == "SecondaryCatalogId"@
                || label == "DefinedCatalogId"@ || label == "ChooseFromCatalogIds"@ || label
                == "SpellbookCatalogIds"@ || label == "CatalogIds"@ || label
                == "AnySupportedCatalogIds"@ || label == "TokenScriptIds"@ ==> #[trigger] label.len()
                > 0 && is_trimmed(label) && lacks(label, '|'),
{
    reveal_strlit("CatalogId");
    reveal_strlit("PrimaryCatalogId");
    reveal_strlit("SecondaryCatalogId");
    reveal_strlit("DefinedCatalogId");
    reveal_strlit("ChooseFromCatalogIds");
    reveal_strlit("SpellbookCatalogIds");
    reveal_strlit("CatalogIds");
    reveal_strlit("AnySupportedCatalogIds");
    reveal_strlit("TokenScriptIds");
}

/// What becomes of a segment is one trimmed segment.
proof fn lemma_card_segment(
    effect: Seq<char>,
    segment: Seq<char>,
    references: Seq<(Seq<char>, u32)>,
)
    requires
        lacks(segment, '|'),
    ensures
        is_trimmed(card_segment(effect, segment, references)),
        lacks(card_segment(effect, segment, references), '|'),
{
    lemma_trim(segment, '|');
    lemma_labels();
    if let Some((key, value)) = parameter_of(segment) {
        match card_list(effect, key, value) {
            Some((label, list)) => {
                if let Some(texts) = card_numerals(list, references) {
                    let names = split(list, ',');
                    let numbers = Seq::new(
                        names.len(),
                        |i: int| id_for_name(names[i], references)->0 as nat,
                    );
                    lemma_split_lacks(list, ',');
                    assert(texts =~= Seq::new(numbers.len(), |i: int| decimal(numbers[i])));
                    assert(label.len() > 0);
                    lemma_labelled(label, numbers);
                }
            },
            None => {
                if let Some(label) = card_key(effect, key) {
                    if let Some(id) = id_for_name(value, references) {
                        assert(label.len() > 0);
                        lemma_labelled(label, seq![id as nat]);
                        lemma_one_numeral(id as nat);
                    }
                }
            },
        }
    }
}

/// The segments of a line behind the rewriting of card titles.
proof fn lemma_card_segments(line: Seq<char>, references: Seq<(Seq<char>, u32)>)
    requires
        top_level_reference(line, references) is None,
    ensures
        ({
            let segments = split(line, '|');
            let out = split(card_parameters(line, references), '|');
            &&& out.len() == segments.len()
            &&& forall|i: int|
                0 <= i < segments.len() ==> trim(#[trigger] out[i]) == if i == 0 {
                    trim(segments[0])
                } else {
                    card_segment(api_of(segments[0]), segments[i], references)
                }
        }),
{
    let segments = split(line, '|');
    let effect = api_of(segments[0]);
    let parts = Seq::new(
        segments.len(),
        |i: int|
            if i == 0 {
                trim(segments[0])
            } else {
                card_segment(effect, segments[i], references)
            },
    );
    lemma_split_lacks(line, '|');
    assert forall|i: int| 0 <= i < parts.len() implies lacks(#[trigger] parts[i], '|')
        && is_trimmed(parts[i]) by {
        assert(lacks(segments[i], '|'));
        lemma_trim(segments[i], '|');
        lemma_card_segment(effect, segments[i], references);
    }
    lemma_joined_segments(parts);
}

/// A list of card titles that all have numbers becomes the list of the
/// numbers, under a key that says so.
pub proof fn law_card_lists_become_numbers(
    line: Seq<char>,
    references: Seq<(Seq<char>, u32)>,
    at: int,
    key: Seq<char>,
    lead: Seq<char>,
    titles: Seq<Seq<char>>,
    label: Seq<char>,
    numbers: Seq<u32>,
)
    requires
        top_level_reference(line, references) is None,
        1 <= at < split(line, '|').len(),
        takes_card_list(api_of(split(line, '|')[0]), key, lead, label),
        parameter_of(split(line, '|')[at]) == Some((key, lead + join(titles, seq![',']))),
        titles.len() > 0,
        forall|i: int| 0 <= i < titles.len() ==> lacks(#[trigger] titles[i], ','),
        numbers.len() == titles.len(),
        forall|i: int|
            0 <= i < titles.len() ==> id_for_name(#[trigger] titles[i], references) == Some(
                numbers[i],
            ),
    ensures
        split(card_parameters(line, references), '|').len() == split(line, '|').len(),
        trim(split(card_parameters(line, references), '|')[at]) == label + "$ "@ + join(
            numerals(numbers),
            ","@,
        ),
{
    let segments = split(line, '|');
    let effect = api_of(segments[0]);
    let list = join(titles, seq![',']);
    let value = lead + list;
    lemma_card_segments(line, references);
    reveal_strlit("");
    reveal_strlit("Names:");
    reveal_strlit("NameCard");
    reveal_strlit("MakeCard");
    reveal_strlit("Play");
    reveal_strlit("ChooseFromList");
    reveal_strlit("Spellbook");
    reveal_strlit("Names");
    reveal_strlit("Choices");
    reveal_strlit("AnySupportedCard");
    if lead == "Names:"@ {
        assert(value.subrange(0, 6) =~= "Names:"@);
        assert(value.skip(6) =~= list);
        assert("Spellbook"@.len() != "AnySupportedCard"@.len());
        assert("NameCard"@.len() != "Play"@.len());
        assert("MakeCard"@.len() != "Play"@.len());
    } else {
        assert(value =~= list);
        assert("Spellbook"@.len() != "ChooseFromList"@.len());
        assert("NameCard"@[0] != "MakeCard"@[0]);
        assert("Spellbook"@.len() != "Names"@.len());
        assert("Spellbook"@.len() != "Choices"@.len());
    }
    assert(card_list(effect, key, value) == Some((label, list)));
    lemma_split_join(titles, ',');
    assert(card_numerals(list, references)->0 =~= numerals(numbers));
    assert(trim(split(card_parameters(line, references), '|')[at]) == card_segment(
        effect,
        segments[at],
        references,
    ));
}

/// A card title that has a number becomes the number, under a key that says
/// so.
pub proof fn law_cards_become_numbers(
    line: Seq<char>,
    references: Seq<(Seq<char>, u32)>,
    at: int,
    key: Seq<char>,
    title: Seq<char>,
    label: Seq<char>,
    number: u32,
)
    requires
        top_level_reference(line, references) is None,
        1 <= at < split(line, '|').len(),
        takes_card(api_of(split(line, '|')[0]), key, label),
        parameter_of(split(line, '|')[at]) == Some((key, title)),
        id_for_name(title, references) == Some(number),
    ensures
        split(card_parameters(line, references), '|').len() == split(line, '|').len(),
        trim(split(card_parameters(line, references), '|')[at]) == label + "$ "@ + decimal(
            number as nat,
        ),
{
    let segments = split(line, '|');
    let effect = api_of(segments[0]);
    lemma_card_segments(line, references);
    reveal_strlit("MakeCard");
    reveal_strlit("Meld");
    reveal_strlit("CopyPermanent");
    reveal_strlit("NameCard");
    reveal_strlit("Play");
    reveal_strlit("Name");
    reveal_strlit("Primary");
    reveal_strlit("Secondary");
    reveal_strlit("DefinedName");
    reveal_strlit("ChooseFromList");
    reveal_strlit("Spellbook");
    reveal_strlit("Names");
    reveal_strlit("Choices");
    reveal_strlit("AnySupportedCard");
    assert("Meld"@[0] != "Play"@[0]);
    assert("Primary"@[0] != "Choices"@[0]);
    assert("Secondary"@[1] != "Spellbook"@[1]);
    assert("Name"@.len() == 4 && "Primary"@.len() == 7 && "Secondary"@.len() == 9
        && "DefinedName"@.len() == 11);
    assert("MakeCard"@.len() == 8 && "Meld"@.len() == 4 && "CopyPermanent"@.len() == 13);
    assert(card_list(effect, key, title) is None);
    assert(card_key(effect, key) == Some(label));
    assert(trim(split(card_parameters(line, references), '|')[at]) == card_segment(
        effect,
        segments[at],
        references,
    ));
}

/// Whether a parameter takes card titles that all have numbers.
pub open spec fn has_known_titles(
    effect: Seq<char>,
    key: Seq<char>,
    value: Seq<char>,
    references: Seq<(Seq<char>, u32)>,
) -> bool {
    ||| exists|label: Seq<char>| #[trigger]
        takes_card(effect, key, label) && id_for_name(value, references) is Some
    ||| exists|lead: Seq<char>, label: Seq<char>, titles: Seq<Seq<char>>|
        #![trigger takes_card_list(effect, key, lead, label), join(titles, seq![','])]
        takes_card_list(effect, key, lead, label) && titles.len() > 0 && value == lead + join(
            titles,
            seq![','],
        ) && forall|i: int|
            0 <= i < titles.len() ==> lacks(#[trigger] titles[i], ',') && id_for_name(
                titles[i],
                references,
            ) is Some
}

pub proof fn lemma_join_split(text: Seq<char>, separator: char)
    ensures
        join(split(text, separator), seq![separator]) == text,
    decreases text.len(),
{
    lemma_find_char(text, separator);
    let parts = split(text, separator);
    match find_char(text, separator) {
        Some(at) => {
            let later = text.skip(at + 1);
            let rest = split(later, separator);
            lemma_join_split(later, separator);
            lemma_split_lacks(later, separator);
            assert(parts.drop_first() =~= rest);
            assert(join_tail(rest, seq![separator]) =~= seq![separator] + join(
                rest,
                seq![separator],
            ));
            assert(join(parts, seq![separator]) =~= text);
        },
        None => {
            assert(parts.drop_first() =~= Seq::empty());
            assert(join_tail(parts.drop_first(), seq![separator]) =~= Seq::empty());
            assert(join(parts, seq![separator]) =~= text);
        },
    }
}

/// Every other segment stays as it reads, but for the white space around it: the
/// first one, those that are no parameter, the parameters that take no card
/// titles, and those with a title that has no number.
pub proof fn law_other_card_segments_stay(
    line: Seq<char>,
    references: Seq<(Seq<char>, u32)>,
    at: int,
)
    requires
        top_level_reference(line, references) is None,
        0 <= at < split(line, '|').len(),
        at == 0 || (parameter_of(split(line, '|')[at]) matches Some((key, value))
            ==> !has_known_titles(api_of(split(line, '|')[0]), key, value, references)),
    ensures
        split(card_parameters(line, references), '|').len() == split(line, '|').len(),
        trim(split(card_parameters(line, references), '|')[at]) == trim(split(line, '|')[at]),
{
    let segments = split(line, '|');
    let effect = api_of(segments[0]);
    lemma_card_segments(line, references);
    if at > 0 {
        assert(trim(split(card_parameters(line, references), '|')[at]) == card_segment(
            effect,
            segments[at],
            references,
        ));
        if let Some((key, value)) = parameter_of(segments[at]) {
            match card_list(effect, key, value) {
                Some((label, list)) => {
                    if card_numerals(list, references) is Some {
                        reveal_strlit("");
                        reveal_strlit("Names:");
                        let titles = split(list, ',');
                        lemma_split_lacks(list, ',');
                        lemma_join_split(list, ',');
                        let lead = if label == "AnySupportedCatalogIds"@ {
                            "Names:"@
                        } else {
                            ""@
                        };
                        reveal_strlit("AnySupportedCatalogIds");
                        reveal_strlit("CatalogIds");
                        reveal_strlit("SpellbookCatalogIds");
                        reveal_strlit("ChooseFromCatalogIds");
                        assert("AnySupportedCatalogIds"@.len() == 22);
                        assert("CatalogIds"@.len() == 10);
                        assert("SpellbookCatalogIds"@.len() == 19);
                        assert("ChooseFromCatalogIds"@.len() == 20);
                        if lead == ""@ {
                            assert(value =~= lead + list);
                        } else {
                            assert(value.subrange(0, 6) == "Names:"@);
                            assert(value =~= lead + list);
                        }
                        assert(takes_card_list(effect, key, lead, label));
                        assert(value == lead + join(titles, seq![',']));
                        assert(has_known_titles(effect, key, value, references));
                    }
                },
                None => {
                    if let Some(label) = card_key(effect, key) {
                        assert(takes_card(effect, key, label));
                    }
                },
            }
        }
    }
}

/// A key, `$` and a numeral list reads as that parameter.
proof fn lemma_numbered_parameter(label: Seq<char>, list: Seq<char>)
    requires
        label.len() > 0,
        is_trimmed(label),
        lacks(label, '$'),
        is_trimmed(list),
    ensures
        parameter_of(label + "$ "@ + list) == Some((label, list)),
{
    reveal_strlit("$ ");
    let none = Seq::<char>::empty();
    assert(label + "$ "@ + list =~= none + label + none + seq!['$'] + seq![' '] + list + none);
    law_parameters_are_read((none, none, seq![' '], none), label, list);
}

/// No key that takes numbers is one that takes titles.
proof fn lemma_labels_take_no_titles(effect: Seq<char>, label: Seq<char>)
    requires
        label == "CatalogId"@ || label == "PrimaryCatalogId"@ || label == "SecondaryCatalogId"@
            || label == "DefinedCatalogId"@ || label == "ChooseFromCatalogIds"@ || label
            == "SpellbookCatalogIds"@ || label == "CatalogIds"@ || label
            == "AnySupportedCatalogIds"@,
    ensures
        forall|other: Seq<char>| !#[trigger] takes_card(effect, label, other),
        forall|lead: Seq<char>, other: Seq<char>| !#[trigger] takes_card_list(
            effect,
            label,
            lead,
            other,
        ),
        lacks(label, '$'),
{
    reveal_strlit("CatalogId");
    reveal_strlit("PrimaryCatalogId");
    reveal_strlit("SecondaryCatalogId");
    reveal_strlit("DefinedCatalogId");
    reveal_strlit("ChooseFromCatalogIds");
    reveal_strlit("SpellbookCatalogIds");
    reveal_strlit("CatalogIds");
    reveal_strlit("AnySupportedCatalogIds");
    reveal_strlit("Name");
    reveal_strlit("Primary");
    reveal_strlit("Secondary");
    reveal_strlit("DefinedName");
    reveal_strlit("ChooseFromList");
    reveal_strlit("Spellbook");
    reveal_strlit("Names");
    reveal_strlit("Choices");
    reveal_strlit("AnySupportedCard");
    assert(label != "Name"@ && label != "Names"@ && label != "Choices"@ && label != "Primary"@
        && label != "DefinedName"@ && label != "ChooseFromList"@) by {
        assert(label.len() >= 9);
        assert(label.len() != 11 && label.len() != 14);
    }
    if label == "CatalogId"@ {
        assert(label[0] != "Secondary"@[0]);
        assert(label[0] != "Spellbook"@[0]);
    }
    if label.len() == 16 {
        assert(label[0] != "AnySupportedCard"@[0]);
    }
}

/// No parameter of the effect comes out with a title that has a number.
pub proof fn law_no_known_title_stays(
    line: Seq<char>,
    references: Seq<(Seq<char>, u32)>,
    at: int,
)
    requires
        top_level_reference(line, references) is None,
        1 <= at < split(card_parameters(line, references), '|').len(),
    ensures
        parameter_of(split(card_parameters(line, references), '|')[at]) matches Some((key, value))
            ==> !has_known_titles(api_of(split(line, '|')[0]), key, value, references),
{
    let segments = split(line, '|');
    let effect = api_of(segments[0]);
    let out = split(card_parameters(line, references), '|')[at];
    lemma_card_segments(line, references);
    lemma_trim(out, '|');
    lemma_trim_spaced(trim(out));
    assert(parameter_of(out) == parameter_of(trim(out)));
    lemma_trim(segments[at], '|');
    lemma_trim_spaced(trim(segments[at]));
    assert(parameter_of(segments[at]) == parameter_of(trim(segments[at])));
    lemma_labels();
    if let Some((key, value)) = parameter_of(segments[at]) {
        if exists|label: Seq<char>| #[trigger]
            takes_card(effect, key, label) && id_for_name(value, references) is Some {
            let label = choose|label: Seq<char>| #[trigger]
                takes_card(effect, key, label) && id_for_name(value, references) is Some;
            let number = id_for_name(value, references)->0;
            law_cards_become_numbers(line, references, at, key, value, label, number);
            lemma_labels_take_no_titles(effect, label);
            lemma_numeral_list(seq![number as nat]);
            lemma_one_numeral(number as nat);
            lemma_decimal(number as nat);
            let text = decimal(number as nat);
            assert(is_digit(text[0]));
            assert(label.len() > 0);
            lemma_numbered_parameter(label, text);
        } else if has_known_titles(effect, key, value, references) {
            let (lead, label, titles) = choose|
                lead: Seq<char>,
                label: Seq<char>,
                titles: Seq<Seq<char>>,
            |
                #![trigger takes_card_list(effect, key, lead, label), join(titles, seq![','])]
                takes_card_list(effect, key, lead, label) && titles.len() > 0 && value == lead
                    + join(titles, seq![',']) && forall|i: int|
                    0 <= i < titles.len() ==> lacks(#[trigger] titles[i], ',') && id_for_name(
                        titles[i],
                        references,
                    ) is Some;
            let numbers = Seq::new(titles.len(), |i: int| id_for_name(titles[i], references)->0);
            law_card_lists_become_numbers(
                line,
                references,
                at,
                key,
                lead,
                titles,
                label,
                numbers,
            );
            lemma_labels_take_no_titles(effect, label);
            let plain = Seq::new(numbers.len(), |i: int| numbers[i] as nat);
            lemma_numeral_list(plain);
            assert(numerals(numbers) =~= Seq::new(plain.len(), |i: int| decimal(plain[i])));
            assert(label.len() > 0);
            let text = join(numerals(numbers), ","@);
            assert(is_digit(text[0]) || text[0] == ',');
            lemma_numbered_parameter(label, text);
        } else {
            law_other_card_segments_stay(line, references, at);
        }
    } else {
        law_other_card_segments_stay(line, references, at);
    }
}

/// A partner's title becomes the partner's number, with or without a note
/// behind the last colon.
pub proof fn law_partners_become_numbers(
    title: Seq<char>,
    note: Seq<char>,
    references: Seq<(Seq<char>, u32)>,
    number: u32,
)
    requires
        id_for_name(title, references) == Some(number),
        lacks(note, ':'),
    ensures
        card_parameters("K:Partner with:"@ + title + seq![':'] + note, references)
            == "K:PartnerWithId:"@ + decimal(number as nat),
        lacks(title, ':') ==> card_parameters("K:Partner with:"@ + title, references)
            == "K:PartnerWithId:"@ + decimal(number as nat),
{
    reveal_strlit("K:Partner with:");
    let value = title + seq![':'] + note;
    let line = "K:Partner with:"@ + title + seq![':'] + note;
    assert(line.subrange(0, 15) =~= "K:Partner with:"@);
    assert(line.skip(15) =~= value);
    let at = title.len() as int;
    lemma_rfind_char(value, ':');
    assert(value[at] == ':');
    assert forall|j: int| at < j < value.len() implies value[j] != ':' by {
        assert(value[j] == note[j - at - 1]);
    }
    assert(rfind_char(value, ':') == Some(at));
    assert(value.take(at) =~= title);
    let plain = "K:Partner with:"@ + title;
    assert(plain.subrange(0, 15) =~= "K:Partner with:"@);
    assert(plain.skip(15) =~= title);
    lemma_rfind_char(title, ':');
}

proof fn lemma_field_title(
    before: Seq<char>,
    key: Seq<char>,
    after: Seq<char>,
    title: Seq<char>,
)
    requires
        key == "CopyFaceFrom"@ || key == "MeldPair"@,
        is_blank(before),
        is_blank(after),
    ensures
        ({
            let line = before + key + after + seq![':'] + title;
            &&& !starts_with(line, "K:Partner with:"@)
            &&& find_char(line, ':') == Some((before.len() + key.len() + after.len()) as int)
            &&& trim(before + key + after) == key
        }),
{
    reveal_strlit("CopyFaceFrom");
    reveal_strlit("MeldPair");
    reveal_strlit("K:Partner with:");
    let line = before + key + after + seq![':'] + title;
    let at = (before.len() + key.len() + after.len()) as int;
    assert(line[at] == ':');
    assert forall|i: int| 0 <= i < at implies line[i] != ':' by {
        if i < before.len() {
            assert(line[i] == before[i]);
        } else if i < before.len() + key.len() {
            assert(line[i] == key[i - before.len()]);
        } else {
            assert(line[i] == after[i - before.len() - key.len()]);
        }
    }
    lemma_find_char_is(line, ':', at);
    law_white_space_is_trimmed(before, key, after);
    if starts_with(line, "K:Partner with:"@) {
        assert(line[1] == line.subrange(0, 15)[1]);
        assert(at <= 1);
        assert(false);
    }
}

/// The card whose face is copied, and the other half of a pair, become their
/// numbers.
pub proof fn law_faces_and_pairs_become_numbers(
    before: Seq<char>,
    after: Seq<char>,
    title: Seq<char>,
    references: Seq<(Seq<char>, u32)>,
    number: u32,
)
    requires
        is_blank(before),
        is_blank(after),
        id_for_name(title, references) == Some(number),
    ensures
        card_parameters(before + "CopyFaceFrom"@ + after + seq![':'] + title, references)
            == "CopyFaceFromId:"@ + decimal(number as nat),
        card_parameters(before + "MeldPair"@ + after + seq![':'] + title, references)
            == "MeldPairId:"@ + decimal(number as nat),
{
    reveal_strlit("CopyFaceFrom");
    reveal_strlit("MeldPair");
    reveal_strlit("CopyFaceFromId");
    reveal_strlit("MeldPairId");
    reveal_strlit("CopyFaceFromId:");
    reveal_strlit("MeldPairId:");
    reveal_strlit(":");
    assert("CopyFaceFrom"@.len() != "MeldPair"@.len());
    assert("CopyFaceFromId:"@ =~= "CopyFaceFromId"@ + ":"@);
    assert("MeldPairId:"@ =~= "MeldPairId"@ + ":"@);
    lemma_field_title(before, "CopyFaceFrom"@, after, title);
    lemma_field_title(before, "MeldPair"@, after, title);
    let face = before + "CopyFaceFrom"@ + after + seq![':'] + title;
    let pair = before + "MeldPair"@ + after + seq![':'] + title;
    assert(face.take((before.len() + 12 + after.len()) as int) =~= before + "CopyFaceFrom"@ + after);
    assert(face.skip((before.len() + 12 + after.len() + 1) as int) =~= title);
    assert(pair.take((before.len() + 8 + after.len()) as int) =~= before + "MeldPair"@ + after);
    assert(pair.skip((before.len() + 8 + after.len() + 1) as int) =~= title);
}

/// Whether a line is a field with this key.
pub open spec fn is_field(line: Seq<char>, key: Seq<char>) -> bool {
    split(line, ':').len() > 1 && trim(split(line, ':')[0]) == key
}

/// Other fields name no card as a whole.
pub proof fn law_other_fields_name_no_card(line: Seq<char>, references: Seq<(Seq<char>, u32)>)
    requires
        !starts_with(line, "K:Partner with:"@),
        !is_field(line, "CopyFaceFrom"@),
        !is_field(line, "MeldPair"@),
    ensures
        top_level_reference(line, references) is None,
{
    lemma_find_char(line, ':');
    if let Some(at) = find_char(line, ':') {
        lemma_split_lacks(line.skip(at + 1), ':');
        assert(split(line, ':')[0] == line.take(at));
    }
}

proof fn lemma_token_segment(segment: Seq<char>, tokens: Map<Seq<char>, TokenScriptId>)
    requires
        lacks(segment, '|'),
    ensures
        is_trimmed(token_segment(segment, tokens)),
        lacks(token_segment(segment, tokens), '|'),
{
    lemma_trim(segment, '|');
    lemma_labels();
    if let Some((key, value)) = parameter_of(segment) {
        if key == "TokenScript"@ {
            if let Some(texts) = token_numerals(value, tokens) {
                let names = split(value, ',');
                let numbers = Seq::new(names.len(), |i: int| tokens[trim(names[i])].0 as nat);
                lemma_split_lacks(value, ',');
                assert(texts =~= Seq::new(numbers.len(), |i: int| decimal(numbers[i])));
                assert("TokenScriptIds"@.len() > 0);
                lemma_labelled("TokenScriptIds"@, numbers);
                reveal_strlit("TokenScriptIds");
                reveal_strlit("TokenScriptIds$ ");
                reveal_strlit("$ ");
                assert("TokenScriptIds$ "@ =~= "TokenScriptIds"@ + "$ "@);
            }
        }
    }
}

proof fn lemma_token_segments(line: Seq<char>, tokens: Map<Seq<char>, TokenScriptId>)
    ensures
        ({
            let segments = split(line, '|');
            let out = split(token_parameters(line, tokens), '|');
            &&& out.len() == segments.len()
            &&& forall|i: int|
                0 <= i < segments.len() ==> trim(#[trigger] out[i]) == token_segment(
                    segments[i],
                    tokens,
                )
        }),
{
    let segments = split(line, '|');
    let parts = Seq::new(segments.len(), |i: int| token_segment(segments[i], tokens));
    lemma_split_lacks(line, '|');
    assert forall|i: int| 0 <= i < parts.len() implies lacks(#[trigger] parts[i], '|')
        && is_trimmed(parts[i]) by {
        assert(lacks(segments[i], '|'));
        lemma_token_segment(segments[i], tokens);
    }
    lemma_joined_segments(parts);
}

/// The keys of token scripts become the numbers of the scripts, if all of them
/// are known.
pub proof fn law_token_scripts_become_numbers(
    line: Seq<char>,
    tokens: Map<Seq<char>, TokenScriptId>,
    at: int,
    keys: Seq<Seq<char>>,
)
    requires
        0 <= at < split(line, '|').len(),
        parameter_of(split(line, '|')[at]) == Some(("TokenScript"@, join(keys, seq![',']))),
        keys.len() > 0,
        forall|i: int|
            0 <= i < keys.len() ==> lacks(#[trigger] keys[i], ',') && tokens.dom().contains(
                trim(keys[i]),
            ),
    ensures
        split(token_parameters(line, tokens), '|').len() == split(line, '|').len(),
        trim(split(token_parameters(line, tokens), '|')[at]) == "TokenScriptIds$ "@ + join(
            Seq::new(keys.len(), |i: int| decimal(tokens[trim(keys[i])].0 as nat)),
            ","@,
        ),
{
    lemma_token_segments(line, tokens);
    lemma_split_join(keys, ',');
    let value = join(keys, seq![',']);
    assert(token_numerals(value, tokens)->0 =~= Seq::new(
        keys.len(),
        |i: int| decimal(tokens[trim(keys[i])].0 as nat),
    ));
    assert(trim(split(token_parameters(line, tokens), '|')[at]) == token_segment(
        split(line, '|')[at],
        tokens,
    ));
}

/// Every other segment stays as it reads, but for the white space around it.
pub proof fn law_other_token_segments_stay(
    line: Seq<char>,
    tokens: Map<Seq<char>, TokenScriptId>,
    at: int,
)
    requires
        0 <= at < split(line, '|').len(),
        parameter_of(split(line, '|')[at]) matches Some((key, value)) ==> key != "TokenScript"@
            || exists|i: int|
            0 <= i < split(value, ',').len() && !tokens.dom().contains(
                trim(#[trigger] split(value, ',')[i]),
            ),
    ensures
        split(token_parameters(line, tokens), '|').len() == split(line, '|').len(),
        trim(split(token_parameters(line, tokens), '|')[at]) == trim(split(line, '|')[at]),
{
    lemma_token_segments(line, tokens);
    assert(trim(split(token_parameters(line, tokens), '|')[at]) == token_segment(
        split(line, '|')[at],
        tokens,
    ));
}

proof fn lemma_object_segment(effect: Seq<char>, segment: Seq<char>)
    requires
        lacks(segment, '|'),
    ensures
        is_trimmed(object_segment(effect, segment)),
        lacks(object_segment(effect, segment), '|'),
{
    lemma_trim(segment, '|');
    if let Some((key, value)) = parameter_of(segment) {
        if is_object_key(effect, key) {
            reveal_strlit("NewName");
            reveal_strlit("SetName");
            reveal_strlit("Name");
            assert(key.len() > 0 && is_trimmed(key) && lacks(key, '|'));
            lemma_labelled(key, seq![runtime_object_id(value)]);
            lemma_one_numeral(runtime_object_id(value));
        }
    }
}

proof fn lemma_object_segments(line: Seq<char>, names: Seq<Seq<char>>)
    ensures
        ({
            let segments = split(numbered_names(line, names), '|');
            let out = split(object_parameters(line, names), '|');
            &&& out.len() == segments.len()
            &&& forall|i: int|
                0 <= i < segments.len() ==> trim(#[trigger] out[i]) == if i == 0 {
                    trim(segments[0])
                } else {
                    object_segment(api_of(segments[0]), segments[i])
                }
        }),
{
    let segments = split(numbered_names(line, names), '|');
    let effect = api_of(segments[0]);
    let parts = Seq::new(
        segments.len(),
        |i: int|
            if i == 0 {
                trim(segments[0])
            } else {
                object_segment(effect, segments[i])
            },
    );
    lemma_split_lacks(numbered_names(line, names), '|');
    assert forall|i: int| 0 <= i < parts.len() implies lacks(#[trigger] parts[i], '|')
        && is_trimmed(parts[i]) by {
        assert(lacks(segments[i], '|'));
        lemma_trim(segments[i], '|');
        lemma_object_segment(effect, segments[i]);
    }
    lemma_joined_segments(parts);
}

/// The name of an object becomes its number under the same key, and every other
/// segment stays as it reads, but for the white space around it.
pub proof fn law_object_names_become_numbers(line: Seq<char>, at: int)
    requires
        0 <= at < split(line, '|').len(),
    ensures
        ({
            let segments = split(line, '|');
            let out = split(object_parameters(line, Seq::empty()), '|');
            &&& out.len() == segments.len()
            &&& trim(out[at]) == match parameter_of(segments[at]) {
                Some((key, value)) => if at > 0 && takes_object(api_of(segments[0]), key) {
                    key + "$ "@ + decimal(runtime_object_id(value))
                } else {
                    trim(segments[at])
                },
                None => trim(segments[at]),
            }
        }),
{
    let names = Seq::<Seq<char>>::empty();
    lemma_object_segments(line, names);
    assert(numbered_names(line, names) == line);
    let out = split(object_parameters(line, names), '|')[at];
    assert(trim(out) == trim(out));
}

proof fn lemma_people_key(key: Seq<char>)
    ensures
        is_for_people(key) == {
            ||| ends_with(key, "Description"@)
            ||| ends_with(key, "Prompt"@)
            ||| ends_with(key, "Desc"@)
            ||| ends_with(key, "Message"@)
            ||| ends_with(key, "Title"@)
            ||| key == "Image"@
            ||| key == "SpellbookName"@
        },
{
    lemma_ending(key, "Description"@);
    lemma_ending(key, "Prompt"@);
    lemma_ending(key, "Desc"@);
    lemma_ending(key, "Message"@);
    lemma_ending(key, "Title"@);
}

proof fn lemma_ending(text: Seq<char>, ending: Seq<char>)
    ensures
        ends_with(text, ending) <==> exists|front: Seq<char>|
            text == #[trigger] (front + ending),
{
    if ends_with(text, ending) {
        let at = text.len() - ending.len();
        assert(text =~= text.take(at) + ending);
    }
    if exists|front: Seq<char>| text == #[trigger] (front + ending) {
        let front = choose|front: Seq<char>| text == #[trigger] (front + ending);
        let at = front.len() as int;
        assert(text.subrange(at, at + ending.len()) =~= ending);
    }
}

/// Whether a segment is a parameter for people alone.
pub open spec fn shows_text(segment: Seq<char>) -> bool {
    parameter_of(segment) matches Some((key, _)) && is_for_people(key)
}

proof fn lemma_shows(segment: Seq<char>)
    ensures
        display_segment(segment) == shows_text(segment),
{
    if let Some((key, _)) = parameter_of(segment) {
        lemma_people_key(key);
    }
}

proof fn lemma_kept_without(segments: Seq<Seq<char>>, at: int)
    requires
        0 <= at < segments.len(),
        display_segment(segments[at]),
    ensures
        kept_segments(segments) == kept_segments(segments.remove(at)),
    decreases segments.len(),
{
    let less = segments.remove(at);
    if at == segments.len() - 1 {
        assert(less =~= segments.drop_last());
    } else {
        lemma_kept_without(segments.drop_last(), at);
        assert(less.drop_last() =~= segments.drop_last().remove(at));
        assert(less.last() == segments.last());
    }
}

proof fn lemma_all_kept(segments: Seq<Seq<char>>)
    requires
        forall|i: int| 0 <= i < segments.len() ==> !display_segment(#[trigger] segments[i]),
    ensures
        kept_segments(segments) == Seq::new(segments.len(), |i: int| trim(segments[i])),
    decreases segments.len(),
{
    if segments.len() > 0 {
        let front = segments.drop_last();
        assert forall|i: int| 0 <= i < front.len() implies !display_segment(#[trigger] front[i]) by {
            assert(front[i] == segments[i]);
        }
        lemma_all_kept(front);
        assert(!display_segment(segments[segments.len() - 1]));
    }
    assert(kept_segments(segments) =~= Seq::new(segments.len(), |i: int| trim(segments[i])));
}

/// A parameter for people alone leaves no trace: the line without it comes out
/// the same.
pub proof fn law_parameters_for_people_go(segments: Seq<Seq<char>>, at: int)
    requires
        segments.len() > 1,
        forall|i: int| 0 <= i < segments.len() ==> lacks(#[trigger] segments[i], '|'),
        0 <= at < segments.len(),
        shows_text(segments[at]),
    ensures
        without_display(join(segments, seq!['|'])) == without_display(
            join(segments.remove(at), seq!['|']),
        ),
{
    let less = segments.remove(at);
    assert forall|i: int| 0 <= i < less.len() implies lacks(#[trigger] less[i], '|') by {
        if i < at {
            assert(less[i] == segments[i]);
        } else {
            assert(less[i] == segments[i + 1]);
        }
    }
    lemma_split_join(segments, '|');
    lemma_split_join(less, '|');
    lemma_shows(segments[at]);
    lemma_kept_without(segments, at);
}

/// A line that is a single parameter for people comes out empty, and a line
/// without such parameters keeps all its segments.
pub proof fn law_other_parameters_stay(segments: Seq<Seq<char>>)
    requires
        segments.len() > 0,
        forall|i: int| 0 <= i < segments.len() ==> lacks(#[trigger] segments[i], '|'),
    ensures
        segments.len() == 1 && shows_text(segments[0]) ==> without_display(
            join(segments, seq!['|']),
        ) == Seq::<char>::empty(),
        (forall|i: int| 0 <= i < segments.len() ==> !shows_text(#[trigger] segments[i]))
            ==> without_display(join(segments, seq!['|'])) == join(
            Seq::new(segments.len(), |i: int| trim(segments[i])),
            " | "@,
        ),
{
    lemma_split_join(segments, '|');
    lemma_shows(segments[0]);
    if segments.len() == 1 && shows_text(segments[0]) {
        assert(segments.drop_last() =~= Seq::empty());
        assert(kept_segments(segments.drop_last()) =~= Seq::empty());
        assert(kept_segments(segments) =~= Seq::empty());
    }
    if forall|i: int| 0 <= i < segments.len() ==> !shows_text(#[trigger] segments[i]) {
        assert forall|i: int| 0 <= i < segments.len() implies !display_segment(
            #[trigger] segments[i],
        ) by {
            lemma_shows(segments[i]);
        }
        lemma_all_kept(segments);
    }
}

} // verus!
