//! Rewritten lines stay on one line, so that the lines of an anonymous script
//! are what its rows became.

use vstd::prelude::*;

use crate::anonymity::{
    anonymous_rows, is_trimmed, law_no_removed_field_remains, lemma_trim, lemma_trim_spaced,
};
use crate::contextual::{
    contextual_references, count_as, draft_notes, from_draft_notes, original_host,
};
use crate::digest::{runtime_object_id, text_digest};
use crate::headers::{
    color_line, lemma_id_line, lemma_script_rows, lemma_unlines_concat, origin_line, script_rows,
};
use crate::ids::TokenScriptId;
use crate::keywords::{
    flavorless, keyword_vocabulary, plain_vocabulary, without_flavor, without_reminders,
};
use crate::letters::ascii_uppercase;
use crate::maps::row_map;
use crate::numerals::{decimal, hex, hex_byte, is_digit, lemma_decimal};
use crate::origin::{id_line, lemma_lines_fit};
use crate::parameters::{
    api_of, card_key, card_list, card_numerals, card_parameters, card_segment, kept_segments,
    parameter_of, token_numerals, token_parameters, token_segment, top_level_reference,
    without_display,
};
use crate::qualifiers::{
    card_title, code_end, lemma_code_end, lemma_named_step, longest_token_title, named_from,
    named_qualifiers, named_step, qualifier_lead, set_from, set_group_of, set_qualifiers,
    title_qualifier,
};
use crate::references::id_for_name;
use crate::runtime::{numbered_names, object_names, object_parameters, object_segment};
use crate::sanitize::{
    anonymous_line, anonymous_script, anonymous_token_script, removed_field, removed_key,
};
use crate::tables::{fits_line, lacks, lemma_lines_unlines};
use crate::text::{
    find, find_char, find_from, join, join_tail, lemma_find, lemma_find_char, lemma_find_char_is,
    lemma_find_from, lemma_rfind_char, lines, replace, replace_char, rfind_char, split, starts_with,
    trim, trim_start, unlines,
};

verus! {

/// Whether a text has no line feed.
spec fn is_one_line(text: Seq<char>) -> bool {
    lacks(text, '\n')
}

proof fn lemma_concat(left: Seq<char>, right: Seq<char>)
    requires
        is_one_line(left),
        is_one_line(right),
    ensures
        is_one_line(left + right),
{
    let both = left + right;
    assert forall|i: int| 0 <= i < both.len() implies #[trigger] both[i] != '\n' by {
        if i < left.len() {
            assert(both[i] == left[i]);
        } else {
            assert(both[i] == right[i - left.len()]);
        }
    }
}

proof fn lemma_subrange(text: Seq<char>, from: int, to: int)
    requires
        is_one_line(text),
        0 <= from <= to <= text.len(),
    ensures
        is_one_line(text.subrange(from, to)),
{
    let part = text.subrange(from, to);
    assert forall|i: int| 0 <= i < part.len() implies #[trigger] part[i] != '\n' by {
        assert(part[i] == text[from + i]);
    }
}

proof fn lemma_cuts(text: Seq<char>, at: int)
    requires
        is_one_line(text),
        0 <= at <= text.len(),
    ensures
        is_one_line(text.take(at)),
        is_one_line(text.skip(at)),
{
    lemma_subrange(text, 0, at);
    lemma_subrange(text, at, text.len() as int);
    assert(text.take(at) =~= text.subrange(0, at));
    assert(text.skip(at) =~= text.subrange(at, text.len() as int));
}

proof fn lemma_number(n: nat)
    ensures
        is_one_line(decimal(n)),
{
    lemma_decimal(n);
    assert forall|i: int| 0 <= i < decimal(n).len() implies #[trigger] decimal(n)[i] != '\n' by {
        assert(is_digit(decimal(n)[i]));
    }
}

proof fn lemma_pieces(text: Seq<char>, separator: char)
    requires
        is_one_line(text),
    ensures
        split(text, separator).len() > 0,
        forall|i: int|
            0 <= i < split(text, separator).len() ==> is_one_line(
                #[trigger] split(text, separator)[i],
            ),
    decreases text.len(),
{
    lemma_find_char(text, separator);
    match find_char(text, separator) {
        Some(at) => {
            lemma_cuts(text, at);
            lemma_cuts(text, at + 1);
            let later = split(text.skip(at + 1), separator);
            lemma_pieces(text.skip(at + 1), separator);
            let all = split(text, separator);
            assert forall|i: int| 0 <= i < all.len() implies is_one_line(#[trigger] all[i]) by {
                if i > 0 {
                    assert(all[i] == later[i - 1]);
                }
            }
        },
        None => {},
    }
}

proof fn lemma_joined_tail(parts: Seq<Seq<char>>, separator: Seq<char>)
    requires
        is_one_line(separator),
        forall|i: int| 0 <= i < parts.len() ==> is_one_line(#[trigger] parts[i]),
    ensures
        is_one_line(join_tail(parts, separator)),
    decreases parts.len(),
{
    if parts.len() > 0 {
        let later = parts.drop_first();
        assert forall|i: int| 0 <= i < later.len() implies is_one_line(#[trigger] later[i]) by {
            assert(later[i] == parts[i + 1]);
        }
        lemma_joined_tail(later, separator);
        lemma_concat(separator, parts[0]);
        lemma_concat(separator + parts[0], join_tail(later, separator));
    }
}

proof fn lemma_joined(parts: Seq<Seq<char>>, separator: Seq<char>)
    requires
        is_one_line(separator),
        forall|i: int| 0 <= i < parts.len() ==> is_one_line(#[trigger] parts[i]),
    ensures
        is_one_line(join(parts, separator)),
{
    if parts.len() > 0 {
        let later = parts.drop_first();
        assert forall|i: int| 0 <= i < later.len() implies is_one_line(#[trigger] later[i]) by {
            assert(later[i] == parts[i + 1]);
        }
        lemma_joined_tail(later, separator);
        lemma_concat(parts[0], join_tail(later, separator));
    }
}

proof fn lemma_replaced(text: Seq<char>, pattern: Seq<char>, replacement: Seq<char>)
    requires
        is_one_line(text),
        is_one_line(replacement),
    ensures
        is_one_line(replace(text, pattern, replacement)),
    decreases text.len(),
{
    lemma_find(text, pattern);
    if let Some(at) = find(text, pattern) {
        if pattern.len() > 0 {
            let rest = text.skip(at + pattern.len());
            lemma_cuts(text, at);
            lemma_cuts(text, at + pattern.len());
            lemma_replaced(rest, pattern, replacement);
            lemma_concat(text.take(at), replacement);
            lemma_concat(text.take(at) + replacement, replace(rest, pattern, replacement));
        }
    }
}

proof fn lemma_parameter(segment: Seq<char>)
    requires
        is_one_line(segment),
    ensures
        is_one_line(trim(segment)),
        parameter_of(segment) matches Some((key, value)) ==> is_one_line(key),
{
    let body = trim(segment);
    lemma_trim(segment, '\n');
    lemma_find_char(body, '$');
    if let Some(at) = find_char(body, '$') {
        lemma_cuts(body, at);
        lemma_trim(body.take(at), '\n');
    }
}

proof fn lemma_named(
    line: Seq<char>,
    references: Seq<(Seq<char>, u32)>,
    rows: Seq<(Seq<char>, TokenScriptId)>,
    cursor: int,
)
    requires
        is_one_line(line),
        0 <= cursor <= line.len(),
    ensures
        is_one_line(named_from(line, references, rows, cursor)),
    decreases line.len() - cursor,
{
    match named_step(line, references, rows, cursor) {
        None => lemma_cuts(line, cursor),
        Some(step) => {
            lemma_named_step(line, references, rows, cursor);
            lemma_named(line, references, rows, step.next);
            lemma_subrange(line, cursor, step.kept_to);
            reveal_strlit("!");
            reveal_strlit("creatures ");
            lemma_find_from(line, "named"@, cursor);
            let at = find_from(line, "named"@, cursor)->0;
            assert(is_one_line(step.inserted)) by {
                if step.inserted.len() > 0 {
                    let (start, lead) = qualifier_lead(line, at)->0;
                    let title_text = trim_start(line.skip(at + 5));
                    let (count, qualifier) = title_qualifier(title_text, references, rows)->0;
                    assert(step.inserted == lead + qualifier);
                    lemma_qualifier(title_text, references, rows);
                    lemma_concat(lead, qualifier);
                }
            }
            let kept = line.subrange(cursor, step.kept_to);
            lemma_concat(kept, step.inserted);
            lemma_concat(kept + step.inserted, named_from(line, references, rows, step.next));
        },
    }
}

proof fn lemma_qualifier(
    text: Seq<char>,
    references: Seq<(Seq<char>, u32)>,
    rows: Seq<(Seq<char>, TokenScriptId)>,
)
    ensures
        title_qualifier(text, references, rows) matches Some((count, qualifier)) ==> is_one_line(
            qualifier,
        ),
{
    reveal_strlit("catalogId");
    reveal_strlit("tokenId");
    match card_title(text, references) {
        Some((count, id)) => {
            lemma_number(id as nat);
            assert(is_one_line("catalogId"@));
            lemma_concat("catalogId"@, decimal(id as nat));
        },
        None => match longest_token_title(text, rows) {
            Some((count, id)) => {
                lemma_number(id as nat);
                assert(is_one_line("tokenId"@));
                lemma_concat("tokenId"@, decimal(id as nat));
            },
            None => {},
        },
    }
}

proof fn lemma_labels(api: Seq<char>, key: Seq<char>, value: Seq<char>)
    ensures
        card_key(api, key) matches Some(label) ==> is_one_line(label),
        card_list(api, key, value) matches Some((label, list)) ==> is_one_line(label),
        is_one_line("$ "@),
        is_one_line(","@),
        is_one_line(" | "@),
        is_one_line("TokenScriptIds$ "@),
{
    reveal_strlit("CatalogId");
    reveal_strlit("PrimaryCatalogId");
    reveal_strlit("SecondaryCatalogId");
    reveal_strlit("DefinedCatalogId");
    reveal_strlit("ChooseFromCatalogIds");
    reveal_strlit("SpellbookCatalogIds");
    reveal_strlit("CatalogIds");
    reveal_strlit("AnySupportedCatalogIds");
    reveal_strlit("$ ");
    reveal_strlit(",");
    reveal_strlit(" | ");
    reveal_strlit("TokenScriptIds$ ");
}

proof fn lemma_card_segment(
    api: Seq<char>,
    segment: Seq<char>,
    references: Seq<(Seq<char>, u32)>,
)
    requires
        is_one_line(segment),
    ensures
        is_one_line(card_segment(api, segment, references)),
{
    lemma_parameter(segment);
    if let Some((key, value)) = parameter_of(segment) {
        lemma_labels(api, key, value);
        match card_list(api, key, value) {
            Some((label, list)) => {
                if let Some(numerals) = card_numerals(list, references) {
                    assert forall|i: int| 0 <= i < numerals.len() implies is_one_line(
                        #[trigger] numerals[i],
                    ) by {
                        let name = split(list, ',')[i];
                        lemma_number(id_for_name(name, references)->0 as nat);
                    }
                    lemma_joined(numerals, ","@);
                    lemma_concat(label, "$ "@);
                    lemma_concat(label + "$ "@, join(numerals, ","@));
                }
            },
            None => {
                if let Some(label) = card_key(api, key) {
                    if let Some(id) = id_for_name(value, references) {
                        lemma_number(id as nat);
                        lemma_concat(label, "$ "@);
                        lemma_concat(label + "$ "@, decimal(id as nat));
                    }
                }
            },
        }
    }
}

proof fn lemma_carded(line: Seq<char>, references: Seq<(Seq<char>, u32)>)
    requires
        is_one_line(line),
    ensures
        is_one_line(card_parameters(line, references)),
{
    match top_level_reference(line, references) {
        Some(_) => lemma_top_level(line, references),
        None => {
            let segments = split(line, '|');
            let api = api_of(segments[0]);
            let parts = Seq::new(
                segments.len(),
                |i: int|
                    if i == 0 {
                        trim(segments[0])
                    } else {
                        card_segment(api, segments[i], references)
                    },
            );
            lemma_pieces(line, '|');
            lemma_labels(api, api, api);
            assert forall|i: int| 0 <= i < parts.len() implies is_one_line(#[trigger] parts[i]) by {
                assert(is_one_line(segments[i]));
                lemma_parameter(segments[i]);
                lemma_card_segment(api, segments[i], references);
            }
            lemma_joined(parts, " | "@);
        },
    }
}

proof fn lemma_top_level(line: Seq<char>, references: Seq<(Seq<char>, u32)>)
    ensures
        top_level_reference(line, references) matches Some(rewritten) ==> is_one_line(rewritten),
{
    reveal_strlit("K:PartnerWithId:");
    reveal_strlit("CopyFaceFromId");
    reveal_strlit("MeldPairId");
    reveal_strlit(":");
    assert forall|id: u32| is_one_line(#[trigger] decimal(id as nat)) by {
        lemma_number(id as nat);
    }
    assert forall|id: u32| is_one_line("K:PartnerWithId:"@ + #[trigger] decimal(id as nat)) by {
        lemma_concat("K:PartnerWithId:"@, decimal(id as nat));
    }
    assert forall|id: u32|
        is_one_line("CopyFaceFromId"@ + ":"@ + #[trigger] decimal(id as nat)) by {
        lemma_concat("CopyFaceFromId"@ + ":"@, decimal(id as nat));
    }
    assert forall|id: u32| is_one_line("MeldPairId"@ + ":"@ + #[trigger] decimal(id as nat)) by {
        lemma_concat("MeldPairId"@ + ":"@, decimal(id as nat));
    }
}

proof fn lemma_tokened(line: Seq<char>, tokens: Map<Seq<char>, TokenScriptId>)
    requires
        is_one_line(line),
    ensures
        is_one_line(token_parameters(line, tokens)),
{
    let segments = split(line, '|');
    let parts = Seq::new(segments.len(), |i: int| token_segment(segments[i], tokens));
    lemma_pieces(line, '|');
    lemma_labels(line, line, line);
    assert forall|i: int| 0 <= i < parts.len() implies is_one_line(#[trigger] parts[i]) by {
        let segment = segments[i];
        assert(is_one_line(segments[i]));
        lemma_parameter(segment);
        if let Some((key, value)) = parameter_of(segment) {
            if let Some(numerals) = token_numerals(value, tokens) {
                assert forall|k: int| 0 <= k < numerals.len() implies is_one_line(
                    #[trigger] numerals[k],
                ) by {
                    lemma_number(tokens[trim(split(value, ',')[k])].0 as nat);
                }
                lemma_joined(numerals, ","@);
                lemma_concat("TokenScriptIds$ "@, join(numerals, ","@));
            }
        }
    }
    lemma_joined(parts, " | "@);
}

proof fn lemma_numbered(line: Seq<char>, names: Seq<Seq<char>>)
    requires
        is_one_line(line),
    ensures
        is_one_line(numbered_names(line, names)),
    decreases names.len(),
{
    if names.len() > 0 {
        let earlier = numbered_names(line, names.drop_last());
        let name = names.last();
        let id = runtime_object_id(name);
        let number = "named"@ + decimal(id);
        reveal_strlit("named");
        lemma_numbered(line, names.drop_last());
        lemma_number(id);
        assert(is_one_line("named"@));
        lemma_concat("named"@, decimal(id));
        lemma_replaced(earlier, "named"@ + name, number);
        lemma_replaced(
            replace(earlier, "named"@ + name, number),
            "named"@ + replace_char(name, ',', ';'),
            number,
        );
    }
}

proof fn lemma_objects(line: Seq<char>, names: Seq<Seq<char>>)
    requires
        is_one_line(line),
    ensures
        is_one_line(object_parameters(line, names)),
{
    let numbered = numbered_names(line, names);
    let segments = split(numbered, '|');
    let api = api_of(segments[0]);
    let parts = Seq::new(
        segments.len(),
        |i: int|
            if i == 0 {
                trim(segments[0])
            } else {
                object_segment(api, segments[i])
            },
    );
    lemma_numbered(line, names);
    lemma_pieces(numbered, '|');
    lemma_labels(line, line, line);
    assert forall|i: int| 0 <= i < parts.len() implies is_one_line(#[trigger] parts[i]) by {
        assert(is_one_line(segments[i]));
        lemma_parameter(segments[i]);
        if let Some((key, value)) = parameter_of(segments[i]) {
            lemma_number(runtime_object_id(value));
            lemma_concat(key, "$ "@);
            lemma_concat(key + "$ "@, decimal(runtime_object_id(value)));
        }
    }
    lemma_joined(parts, " | "@);
}

proof fn lemma_draft_notes(
    text: Seq<char>,
    marker: Seq<char>,
    references: Seq<(Seq<char>, u32)>,
)
    requires
        is_one_line(text),
    ensures
        is_one_line(draft_notes(text, marker, references)),
{
    lemma_find(text, marker);
    reveal_strlit("catalogId");
    assert(is_one_line("catalogId"@));
    if let Some(start) = find(text, marker) {
        let value_at = start + marker.len();
        lemma_cuts(text, value_at);
        if let Some(id) = id_for_name(text.skip(value_at), references) {
            lemma_number(id as nat);
            lemma_concat(text.take(value_at), "catalogId"@);
            lemma_concat(text.take(value_at) + "catalogId"@, decimal(id as nat));
        }
    }
}

proof fn lemma_original_host(text: Seq<char>, references: Seq<(Seq<char>, u32)>)
    requires
        is_one_line(text),
    ensures
        is_one_line(original_host(text, references)),
{
    lemma_find_char(text, '>');
    reveal_strlit("catalogId");
    assert(is_one_line("catalogId"@));
    if let Some(end) = find_char(text, '>') {
        lemma_rfind_char(text.take(end), '/');
        if let Some(slash) = rfind_char(text.take(end), '/') {
            if let Some(id) = id_for_name(text.subrange(slash + 1, end), references) {
                lemma_cuts(text, slash + 1);
                lemma_cuts(text, end);
                lemma_number(id as nat);
                let front = text.take(slash + 1) + "catalogId"@;
                lemma_concat(text.take(slash + 1), "catalogId"@);
                lemma_concat(front, decimal(id as nat));
                lemma_concat(front + decimal(id as nat), text.skip(end));
            }
        }
    }
}

proof fn lemma_count_as(text: Seq<char>, references: Seq<(Seq<char>, u32)>)
    requires
        is_one_line(text),
    ensures
        is_one_line(count_as(text, references)),
{
    lemma_find(text, "count as "@);
    reveal_strlit("countAsCatalogId");
    assert(is_one_line("countAsCatalogId"@));
    if let Some(start) = find(text, "count as "@) {
        let value = text.skip(start + "count as "@.len());
        lemma_cuts(text, start);
        lemma_cuts(text, start + "count as "@.len());
        lemma_find_char(value, '.');
        if let Some(end) = find_char(value, '.') {
            if let Some(id) = id_for_name(value.take(end), references) {
                lemma_cuts(value, end + 1);
                lemma_number(id as nat);
                let front = text.take(start) + "countAsCatalogId"@;
                lemma_concat(text.take(start), "countAsCatalogId"@);
                lemma_concat(front, decimal(id as nat));
                lemma_concat(front + decimal(id as nat), value.skip(end + 1));
            }
        }
    }
}

proof fn lemma_from_draft_notes(
    text: Seq<char>,
    references: Seq<(Seq<char>, u32)>,
    owner: Option<u32>,
)
    requires
        is_one_line(text),
    ensures
        is_one_line(from_draft_notes(text, references, owner)),
{
    lemma_find(text, "FromDraftNotes$ "@);
    reveal_strlit("FromDraftNotesId$ ");
    assert(is_one_line("FromDraftNotesId$ "@));
    if let Some(start) = find(text, "FromDraftNotes$ "@) {
        let value = text.skip(start + "FromDraftNotes$ "@.len());
        lemma_cuts(text, start);
        lemma_concat(text.take(start), "FromDraftNotesId$ "@);
        let id = match id_for_name(value, references) {
            Some(id) => Some(id),
            None => owner,
        };
        if let Some(id) = id {
            lemma_number(id as nat);
            lemma_concat(text.take(start) + "FromDraftNotesId$ "@, decimal(id as nat));
        }
    }
}

proof fn lemma_contextual(
    line: Seq<char>,
    references: Seq<(Seq<char>, u32)>,
    owner: Option<u32>,
)
    requires
        is_one_line(line),
    ensures
        is_one_line(contextual_references(line, references, owner)),
{
    let plain = replace(line, "/Swamp card>"@, ">"@);
    let hosted = original_host(plain, references);
    let counted = count_as(hosted, references);
    let noted = draft_notes(counted, "DraftNotesCount."@, references);
    let highest = draft_notes(noted, "DraftNotesHighest."@, references);
    reveal_strlit(">");
    lemma_replaced(line, "/Swamp card>"@, ">"@);
    lemma_original_host(plain, references);
    lemma_count_as(hosted, references);
    lemma_draft_notes(counted, "DraftNotesCount."@, references);
    lemma_draft_notes(noted, "DraftNotesHighest."@, references);
    lemma_from_draft_notes(highest, references, owner);
}

proof fn lemma_words_fit()
    ensures
        is_one_line("FirstStrike"@),
        is_one_line("DoubleStrike"@),
        is_one_line("LevelUp"@),
        is_one_line("BattleCry"@),
        is_one_line("StartYourEngines"@),
        is_one_line("WebSlinging"@),
        is_one_line("SharedGraveyardCasting"@),
        is_one_line("Protection:Red"@),
        is_one_line("Protection:Blue"@),
        is_one_line("Protection:Black"@),
        is_one_line("Protection:White"@),
        is_one_line("Protection:Green"@),
        is_one_line("Protection:Everything"@),
        is_one_line("Protection:EachColor"@),
        is_one_line("DrawFromBottom"@),
{
    reveal_strlit("FirstStrike");
    reveal_strlit("DoubleStrike");
    reveal_strlit("LevelUp");
    reveal_strlit("BattleCry");
    reveal_strlit("StartYourEngines");
    reveal_strlit("WebSlinging");
    reveal_strlit("SharedGraveyardCasting");
    reveal_strlit("Protection:Red");
    reveal_strlit("Protection:Blue");
    reveal_strlit("Protection:Black");
    reveal_strlit("Protection:White");
    reveal_strlit("Protection:Green");
    reveal_strlit("Protection:Everything");
    reveal_strlit("Protection:EachColor");
    reveal_strlit("DrawFromBottom");
}

proof fn lemma_plain(line: Seq<char>)
    requires
        is_one_line(line),
    ensures
        is_one_line(plain_vocabulary(line)),
{
    lemma_words_fit();
    lemma_replaced(line, "First Strike"@, "FirstStrike"@);
    let t1 = replace(line, "First Strike"@, "FirstStrike"@);
    lemma_replaced(t1, "Double Strike"@, "DoubleStrike"@);
    let t2 = replace(t1, "Double Strike"@, "DoubleStrike"@);
    lemma_replaced(t2, "Level up"@, "LevelUp"@);
    let t3 = replace(t2, "Level up"@, "LevelUp"@);
    lemma_replaced(t3, "Battle cry"@, "BattleCry"@);
    let t4 = replace(t3, "Battle cry"@, "BattleCry"@);
    lemma_replaced(t4, "Battle Cry"@, "BattleCry"@);
    let t5 = replace(t4, "Battle Cry"@, "BattleCry"@);
    lemma_replaced(t5, "Start your engines!"@, "StartYourEngines"@);
    let t6 = replace(t5, "Start your engines!"@, "StartYourEngines"@);
    lemma_replaced(t6, "Start your engines"@, "StartYourEngines"@);
    let t7 = replace(t6, "Start your engines"@, "StartYourEngines"@);
    lemma_replaced(t7, "Web-slinging"@, "WebSlinging"@);
    let t8 = replace(t7, "Web-slinging"@, "WebSlinging"@);
    lemma_replaced(t8, "Shaman's Trance"@, "SharedGraveyardCasting"@);
    let t9 = replace(t8, "Shaman's Trance"@, "SharedGraveyardCasting"@);
    lemma_replaced(t9, "Protection from red"@, "Protection:Red"@);
    let t10 = replace(t9, "Protection from red"@, "Protection:Red"@);
    lemma_replaced(t10, "Protection from blue"@, "Protection:Blue"@);
    let t11 = replace(t10, "Protection from blue"@, "Protection:Blue"@);
    lemma_replaced(t11, "Protection from black"@, "Protection:Black"@);
    let t12 = replace(t11, "Protection from black"@, "Protection:Black"@);
    lemma_replaced(t12, "Protection from white"@, "Protection:White"@);
    let t13 = replace(t12, "Protection from white"@, "Protection:White"@);
    lemma_replaced(t13, "Protection from green"@, "Protection:Green"@);
    let t14 = replace(t13, "Protection from green"@, "Protection:Green"@);
    lemma_replaced(t14, "Protection from everything"@, "Protection:Everything"@);
    let t15 = replace(t14, "Protection from everything"@, "Protection:Everything"@);
    lemma_replaced(t15, "Protection from each color"@, "Protection:EachColor"@);
    let t16 = replace(t15, "Protection from each color"@, "Protection:EachColor"@);
    lemma_replaced(
        t16,
        "You draw cards from the bottom of your library instead of the top of your library."@,
        "DrawFromBottom"@,
    );
}

proof fn lemma_unflavored(fields: Seq<Seq<char>>)
    requires
        forall|i: int| 0 <= i < fields.len() ==> is_one_line(#[trigger] fields[i]),
    ensures
        forall|i: int|
            0 <= i < without_flavor(fields).len() ==> is_one_line(
                #[trigger] without_flavor(fields)[i],
            ),
    decreases fields.len(),
{
    if fields.len() > 0 {
        let front = fields.drop_last();
        assert forall|i: int| 0 <= i < front.len() implies is_one_line(#[trigger] front[i]) by {
            assert(front[i] == fields[i]);
        }
        lemma_unflavored(front);
        assert(is_one_line(fields[fields.len() - 1]));
        let kept = without_flavor(fields);
        let earlier = without_flavor(front);
        assert forall|i: int| 0 <= i < kept.len() implies is_one_line(#[trigger] kept[i]) by {
            if i < earlier.len() {
                assert(kept[i] == earlier[i]);
            }
        }
    }
}

proof fn lemma_some_fields(fields: Seq<Seq<char>>, from: int, to: int)
    requires
        forall|i: int| 0 <= i < fields.len() ==> is_one_line(#[trigger] fields[i]),
        0 <= from <= to <= fields.len(),
    ensures
        is_one_line(join(fields.subrange(from, to), ":"@)),
{
    let some = fields.subrange(from, to);
    reveal_strlit(":");
    assert forall|i: int| 0 <= i < some.len() implies is_one_line(#[trigger] some[i]) by {
        assert(some[i] == fields[from + i]);
    }
    lemma_joined(some, ":"@);
}

proof fn lemma_reminders(text: Seq<char>)
    requires
        is_one_line(text),
    ensures
        is_one_line(without_reminders(text)),
{
    let fields = split(text, ':');
    lemma_pieces(text, ':');
    reveal_strlit(":::");
    assert(is_one_line(":::"@));
    if fields.len() > 5 {
        lemma_some_fields(fields, 0, 5);
        lemma_some_fields(fields, 0, 3);
        lemma_some_fields(fields, 5, fields.len() as int);
        assert(fields.take(5) =~= fields.subrange(0, 5));
        assert(fields.take(3) =~= fields.subrange(0, 3));
        assert(fields.skip(5) =~= fields.subrange(5, fields.len() as int));
        let front = join(fields.take(3), ":"@);
        lemma_concat(front, ":::"@);
        lemma_concat(front + ":::"@, join(fields.skip(5), ":"@));
    }
    if fields.len() > 3 {
        lemma_some_fields(fields, 0, 4);
        assert(fields.take(4) =~= fields.subrange(0, 4));
    }
    if fields.len() > 6 {
        lemma_some_fields(fields, 0, 6);
        assert(fields.take(6) =~= fields.subrange(0, 6));
    }
    reveal_strlit(":no Condition:");
    reveal_strlit(":no condition:");
    lemma_find(text, ":no Condition:"@);
    lemma_find(text, ":no condition:"@);
    if let Some(at) = find(text, ":no Condition:"@) {
        lemma_cuts(text, at + 13);
    }
    if let Some(at) = find(text, ":no condition:"@) {
        lemma_cuts(text, at + 13);
    }
}

proof fn lemma_worded(line: Seq<char>)
    requires
        is_one_line(line),
    ensures
        is_one_line(keyword_vocabulary(line)),
{
    let fields = split(line, ':');
    lemma_pieces(line, ':');
    lemma_unflavored(fields);
    reveal_strlit(":");
    lemma_joined(without_flavor(fields), ":"@);
    let bare = flavorless(line);
    lemma_plain(bare);
    lemma_reminders(plain_vocabulary(bare));
    reveal_strlit("K:DistinctColoredManaForX");
    assert(is_one_line("K:DistinctColoredManaForX"@));
}

proof fn lemma_hexed(bytes: Seq<u8>)
    ensures
        is_one_line(hex(bytes)),
    decreases bytes.len(),
{
    if bytes.len() > 0 {
        lemma_hexed(bytes.drop_last());
        let pair = hex_byte(bytes.last());
        assert(is_one_line(pair));
        lemma_concat(hex(bytes.drop_last()), pair);
    }
}

proof fn lemma_grouped(line: Seq<char>, cursor: int)
    requires
        is_one_line(line),
        0 <= cursor <= line.len(),
    ensures
        is_one_line(set_from(line, cursor)),
    decreases line.len() - cursor,
{
    reveal_strlit("set");
    reveal_strlit("setG");
    assert(is_one_line("set"@));
    assert(is_one_line("setG"@));
    lemma_find_from(line, "set"@, cursor);
    match find_from(line, "set"@, cursor) {
        None => lemma_cuts(line, cursor),
        Some(at) => {
            let code_at = at + 3;
            lemma_code_end(line, code_at);
            let end = code_end(line, code_at);
            let code = line.subrange(code_at, end);
            let kept = line.subrange(cursor, at);
            lemma_subrange(line, cursor, at);
            lemma_grouped(line, code_at);
            lemma_concat(kept, "set"@);
            lemma_concat(kept + "set"@, set_from(line, code_at));
            if end > code_at {
                let digits = text_digest(ascii_uppercase(code)).take(8);
                lemma_hexed(digits);
                lemma_concat("setG"@, hex(digits));
                lemma_grouped(line, end);
                lemma_concat(kept, set_group_of(code));
                lemma_concat(kept + set_group_of(code), set_from(line, end));
            }
        },
    }
}

proof fn lemma_kept_fit(segments: Seq<Seq<char>>)
    requires
        forall|i: int| 0 <= i < segments.len() ==> is_one_line(#[trigger] segments[i]),
    ensures
        forall|i: int|
            0 <= i < kept_segments(segments).len() ==> is_one_line(
                #[trigger] kept_segments(segments)[i],
            ) && is_trimmed(kept_segments(segments)[i]),
    decreases segments.len(),
{
    if segments.len() > 0 {
        let front = segments.drop_last();
        assert forall|i: int| 0 <= i < front.len() implies is_one_line(#[trigger] front[i]) by {
            assert(front[i] == segments[i]);
        }
        lemma_kept_fit(front);
        assert(is_one_line(segments[segments.len() - 1]));
        lemma_trim(segments.last(), '\n');
        let kept = kept_segments(segments);
        let earlier = kept_segments(front);
        assert forall|i: int| 0 <= i < kept.len() implies is_one_line(#[trigger] kept[i])
            && is_trimmed(kept[i]) by {
            if i < earlier.len() {
                assert(kept[i] == earlier[i]);
            }
        }
    }
}

proof fn lemma_tail_end(parts: Seq<Seq<char>>)
    requires
        parts.len() > 0,
        forall|i: int| 0 <= i < parts.len() ==> is_trimmed(#[trigger] parts[i]),
    ensures
        join_tail(parts, " | "@).len() > 0,
        join_tail(parts, " | "@).last() != '\r',
    decreases parts.len(),
{
    reveal_strlit(" | ");
    let later = parts.drop_first();
    let out = join_tail(parts, " | "@);
    assert(is_trimmed(parts[0]));
    if later.len() > 0 {
        assert forall|i: int| 0 <= i < later.len() implies is_trimmed(#[trigger] later[i]) by {
            assert(later[i] == parts[i + 1]);
        }
        lemma_tail_end(later);
        assert(out.last() == join_tail(later, " | "@).last());
    } else {
        assert(join_tail(later, " | "@) =~= Seq::empty());
        assert(out =~= " | "@ + parts[0]);
        if parts[0].len() > 0 {
            assert(out.last() == parts[0].last());
        } else {
            assert(out.last() == ' ');
        }
    }
}

/// A rewritten line stands on one line.
proof fn lemma_line_fits(
    line: Seq<char>,
    references: Seq<(Seq<char>, u32)>,
    tokens: Seq<(Seq<char>, TokenScriptId)>,
    names: Seq<Seq<char>>,
    owner: Option<u32>,
)
    requires
        lacks(line, '\n'),
    ensures
        fits_line(anonymous_line(line, references, tokens, names, owner)),
{
    let qualified = named_qualifiers(line, references, tokens);
    let carded = card_parameters(qualified, references);
    let tokened = token_parameters(carded, row_map(tokens));
    let numbered = object_parameters(tokened, names);
    let placed = contextual_references(numbered, references, owner);
    let worded = keyword_vocabulary(placed);
    let grouped = set_qualifiers(worded);
    lemma_named(line, references, tokens, 0);
    lemma_carded(qualified, references);
    lemma_tokened(carded, row_map(tokens));
    lemma_objects(tokened, names);
    lemma_contextual(numbered, references, owner);
    lemma_worded(placed);
    lemma_grouped(worded, 0);
    let segments = split(grouped, '|');
    let kept = kept_segments(segments);
    lemma_pieces(grouped, '|');
    lemma_kept_fit(segments);
    lemma_labels(line, line, line);
    lemma_joined(kept, " | "@);
    let out = without_display(grouped);
    if kept.len() > 0 {
        let later = kept.drop_first();
        assert(is_trimmed(kept[0]));
        if later.len() > 0 {
            assert forall|i: int| 0 <= i < later.len() implies is_trimmed(#[trigger] later[i]) by {
                assert(later[i] == kept[i + 1]);
            }
            lemma_tail_end(later);
            assert(out.last() == join_tail(later, " | "@).last());
        } else {
            assert(join_tail(later, " | "@) =~= Seq::empty());
            assert(out =~= kept[0]);
        }
    }
}

/// What becomes of rows without line feeds stands on lines of its own.
pub proof fn lemma_rows_fit(
    rows: Seq<Seq<char>>,
    references: Seq<(Seq<char>, u32)>,
    tokens: Seq<(Seq<char>, TokenScriptId)>,
    names: Seq<Seq<char>>,
    owner: Option<u32>,
)
    requires
        forall|i: int| 0 <= i < rows.len() ==> lacks(#[trigger] rows[i], '\n'),
    ensures
        forall|i: int|
            0 <= i < anonymous_rows(rows, references, tokens, names, owner).len() ==> fits_line(
                #[trigger] anonymous_rows(rows, references, tokens, names, owner)[i],
            ),
    decreases rows.len(),
{
    if rows.len() > 0 {
        let front = rows.drop_last();
        assert forall|i: int| 0 <= i < front.len() implies lacks(#[trigger] front[i], '\n') by {
            assert(front[i] == rows[i]);
        }
        lemma_rows_fit(front, references, tokens, names, owner);
        assert(lacks(rows[rows.len() - 1], '\n'));
        lemma_line_fits(rows.last(), references, tokens, names, owner);
        let all = anonymous_rows(rows, references, tokens, names, owner);
        let earlier = anonymous_rows(front, references, tokens, names, owner);
        assert forall|i: int| 0 <= i < all.len() implies fits_line(#[trigger] all[i]) by {
            if i < earlier.len() {
                assert(all[i] == earlier[i]);
            }
        }
    }
}

/// A field of the head is no removed field.
proof fn lemma_head_field(line: Seq<char>, key: Seq<char>)
    requires
        key == "Id"@ || key == "ColorIdentity"@ || key == "OriginSet"@ || key == "TokenId"@,
        starts_with(line, key.push(':')),
    ensures
        !removed_field(line),
{
    reveal_strlit("Id");
    reveal_strlit("ColorIdentity");
    reveal_strlit("OriginSet");
    reveal_strlit("TokenId");
    reveal_strlit("K:DeckLimit:");
    let at = key.len() as int;
    let front = line.subrange(0, at + 1);
    assert(line[at] == front[at]);
    assert forall|i: int| 0 <= i < at implies line[i] != ':' by {
        assert(line[i] == front[i]);
        assert(front[i] == key[i]);
    }
    lemma_find_char_is(line, ':', at);
    assert(split(line, ':')[0] =~= line.take(at));
    assert(line.take(at) =~= key);
    assert(is_trimmed(key));
    lemma_trim_spaced(key);
    reveal_strlit("Name");
    reveal_strlit("Oracle");
    reveal_strlit("Text");
    reveal_strlit("DeckHints");
    reveal_strlit("ODeckHints");
    reveal_strlit("DeckHas");
    reveal_strlit("DeckNeeds");
    reveal_strlit("Draft");
    reveal_strlit("AI");
    reveal_strlit("Variant");
    assert(!removed_key(key)) by {
        assert(key[1] != "Name"@[1]);
        assert(key[0] != "Draft"@[0]);
        assert(key[1] != "Oracle"@[1] || key[2] != "Oracle"@[2]);
        assert(key[1] != "Text"@[1]);
        assert(key[1] != "ODeckHints"@[1]);
    }
    if starts_with(line, "K:DeckLimit:"@) {
        assert(line[0] == line.subrange(0, 12)[0]);
        assert(line[0] == front[0]);
    }
}

/// No line of an anonymous card script is a field with a title or display text,
/// or one that guides deck building alone: its lines are the head and what
/// became of the script's rows.
pub proof fn law_scripts_hold_no_removed_field(
    script: Seq<char>,
    id: u32,
    color_identity: Seq<char>,
    set: Seq<char>,
    references: Seq<(Seq<char>, u32)>,
    tokens: Seq<(Seq<char>, TokenScriptId)>,
)
    requires
        fits_line(color_line(color_identity)),
        fits_line(origin_line(set)),
    ensures
        lines(anonymous_script(script, id, color_identity, set, references, tokens)) == script_rows(
            script,
            id,
            color_identity,
            set,
            references,
            tokens,
        ),
        forall|i: int|
            0 <= i < script_rows(script, id, color_identity, set, references, tokens).len()
                ==> !removed_field(
                #[trigger] script_rows(script, id, color_identity, set, references, tokens)[i],
            ),
{
    let names = object_names(script);
    let body = anonymous_rows(lines(script), references, tokens, names, Some(id));
    let rows = script_rows(script, id, color_identity, set, references, tokens);
    lemma_script_rows(script, id, color_identity, set, references, tokens);
    lemma_lines_fit(script);
    lemma_rows_fit(lines(script), references, tokens, names, Some(id));
    law_no_removed_field_remains(lines(script), references, tokens, names, Some(id));
    lemma_id_line(id);
    reveal_strlit("Id");
    reveal_strlit("Id:");
    reveal_strlit("ColorIdentity");
    reveal_strlit("ColorIdentity:");
    reveal_strlit("OriginSet");
    reveal_strlit("OriginSet:");
    assert(id_line(id).subrange(0, 3) =~= "Id"@.push(':'));
    assert(color_line(color_identity).subrange(0, 14) =~= "ColorIdentity"@.push(':'));
    assert(origin_line(set).subrange(0, 10) =~= "OriginSet"@.push(':'));
    lemma_head_field(id_line(id), "Id"@);
    lemma_head_field(color_line(color_identity), "ColorIdentity"@);
    lemma_head_field(origin_line(set), "OriginSet"@);
    assert forall|i: int| 0 <= i < rows.len() implies fits_line(#[trigger] rows[i])
        && !removed_field(rows[i]) by {
        if i >= 3 {
            assert(rows[i] == body[i - 3]);
        }
    }
    lemma_lines_unlines(rows);
}

/// The lines of an anonymous token script.
pub open spec fn token_script_rows(
    script: Seq<char>,
    id: u32,
    references: Seq<(Seq<char>, u32)>,
    tokens: Seq<(Seq<char>, TokenScriptId)>,
) -> Seq<Seq<char>> {
    seq!["TokenId:"@ + decimal(id as nat), "ColorIdentity:"@] + anonymous_rows(
        lines(script),
        references,
        tokens,
        object_names(script),
        None,
    )
}

/// No line of an anonymous token script is a field with a title or display
/// text, or one that guides deck building alone.
pub proof fn law_token_scripts_hold_no_removed_field(
    script: Seq<char>,
    id: u32,
    references: Seq<(Seq<char>, u32)>,
    tokens: Seq<(Seq<char>, TokenScriptId)>,
)
    ensures
        lines(anonymous_token_script(script, id, references, tokens)) == token_script_rows(
            script,
            id,
            references,
            tokens,
        ),
        forall|i: int|
            0 <= i < token_script_rows(script, id, references, tokens).len() ==> !removed_field(
                #[trigger] token_script_rows(script, id, references, tokens)[i],
            ),
{
    let names = object_names(script);
    let first = "TokenId:"@ + decimal(id as nat);
    let second = "ColorIdentity:"@;
    let head = seq![first, second];
    let body = anonymous_rows(lines(script), references, tokens, names, None);
    let rows = token_script_rows(script, id, references, tokens);
    lemma_lines_fit(script);
    lemma_rows_fit(lines(script), references, tokens, names, None);
    law_no_removed_field_remains(lines(script), references, tokens, names, None);
    lemma_unlines_concat(head, body);
    reveal_strlit("TokenId:");
    reveal_strlit("TokenId");
    reveal_strlit("ColorIdentity:");
    reveal_strlit("ColorIdentity");
    reveal_strlit("ColorIdentity:\n");
    reveal_strlit("\n");
    let one = head.drop_last();
    assert(one.drop_last() =~= Seq::empty());
    assert(unlines(one.drop_last()) =~= Seq::empty());
    assert(one.last() == first);
    assert(unlines(one) =~= first + seq!['\n']);
    assert(unlines(head) =~= first + "\n"@ + "ColorIdentity:\n"@);
    assert(anonymous_token_script(script, id, references, tokens) =~= unlines(rows));
    lemma_decimal(id as nat);
    lemma_number(id as nat);
    assert(is_one_line("TokenId:"@));
    lemma_concat("TokenId:"@, decimal(id as nat));
    assert(is_digit(decimal(id as nat)[decimal(id as nat).len() - 1]));
    assert(first.last() == decimal(id as nat).last());
    assert(first.subrange(0, 8) =~= "TokenId"@.push(':'));
    assert(second.subrange(0, 14) =~= "ColorIdentity"@.push(':'));
    lemma_head_field(first, "TokenId"@);
    lemma_head_field(second, "ColorIdentity"@);
    assert forall|i: int| 0 <= i < rows.len() implies fits_line(#[trigger] rows[i])
        && !removed_field(rows[i]) by {
        if i >= 2 {
            assert(rows[i] == body[i - 2]);
        }
    }
    lemma_lines_unlines(rows);
}

} // verus!
