//! Where fields with titles and display text come from while the other lines of
//! a script are rewritten.

use vstd::prelude::*;

use crate::contextual::{
    contextual_references, count_as, draft_notes, from_draft_notes, original_host,
};
use crate::digest::runtime_object_id;
use crate::ids::TokenScriptId;
use crate::keywords::{
    flavorless, keyword_vocabulary, plain_vocabulary, without_flavor, without_reminders,
};
use crate::maps::row_map;
use crate::numerals::{decimal, lemma_decimal};
use crate::parameters::{
    api_of, card_parameters, card_segment, display_segment, kept_segments, token_parameters,
    token_segment, top_level_reference,
};
use crate::qualifiers::{
    code_end, lemma_code_end, lemma_named_step, named_from, named_qualifiers, named_step,
    qualifier_lead, set_from, set_qualifiers, title_qualifier,
};
use crate::runtime::{numbered_names, object_parameters, object_segment};
use crate::sanitize::{anonymous_line, kept_line, numbered_line, removed_field, removed_key};
use crate::script::field_of;
use crate::text::{
    find, find_char, find_from, is_white_space, join, join_tail, lemma_find, lemma_find_char,
    lemma_find_char_is, lemma_find_from, lemma_rfind_char, replace, replace_char, rfind_char, split,
    starts_with, trim, trim_end, trim_start,
};

verus! {

/// Whether `c` is a letter of one of the removed keys.
spec fn is_key_letter(c: char) -> bool {
    c == 'N' || c == 'a' || c == 'm' || c == 'e' || c == 'O' || c == 'r' || c == 'c' || c == 'l' || c
        == 'T' || c == 'x' || c == 't' || c == 'D' || c == 'k' || c == 'H' || c == 'i' || c == 'n'
        || c == 's' || c == 'd' || c == 'f' || c == 'A' || c == 'I' || c == 'V'
}

/// Whether `c` stands in no removed key and around none.
spec fn is_foreign(c: char) -> bool {
    !is_white_space(c) && c != ':' && !is_key_letter(c)
}

/// Whether a text is a field with the key.
spec fn has_key(text: Seq<char>, key: Seq<char>) -> bool {
    match find_char(text, ':') {
        Some(at) => trim(text.take(at)) == key,
        None => false,
    }
}

proof fn lemma_key_letters(key: Seq<char>)
    requires
        removed_key(key),
    ensures
        forall|i: int| 0 <= i < key.len() ==> is_key_letter(#[trigger] key[i]),
{
    reveal_strlit("Name");
    reveal_strlit("Oracle");
    reveal_strlit("Text");
    reveal_strlit("DeckHints");
    reveal_strlit("ODeckHints");
    reveal_strlit("DeckHas");
    reveal_strlit("DeckNeeds");
    reveal_strlit("Draft");
    reveal_strlit("AI");
    reveal_strlit("Variant");
}

proof fn lemma_trim_start_parts(text: Seq<char>)
    ensures
        trim_start(text).len() <= text.len(),
        trim_start(text) == text.skip(text.len() - trim_start(text).len()),
        forall|i: int|
            0 <= i < text.len() - trim_start(text).len() ==> is_white_space(#[trigger] text[i]),
    decreases text.len(),
{
    if text.len() > 0 && is_white_space(text[0]) {
        let rest = text.drop_first();
        lemma_trim_start_parts(rest);
        assert(trim_start(text) =~= text.skip(text.len() - trim_start(text).len()));
        assert forall|i: int| 0 <= i < text.len() - trim_start(text).len() implies is_white_space(
            #[trigger] text[i],
        ) by {
            if i > 0 {
                assert(text[i] == rest[i - 1]);
            }
        }
    } else {
        assert(text =~= text.skip(0));
    }
}

proof fn lemma_trim_end_parts(text: Seq<char>)
    ensures
        trim_end(text).len() <= text.len(),
        trim_end(text) == text.take(trim_end(text).len() as int),
        forall|i: int|
            trim_end(text).len() <= i < text.len() ==> is_white_space(#[trigger] text[i]),
    decreases text.len(),
{
    if text.len() > 0 && is_white_space(text.last()) {
        let front = text.drop_last();
        lemma_trim_end_parts(front);
        assert(trim_end(text) =~= text.take(trim_end(text).len() as int));
        assert forall|i: int| trim_end(text).len() <= i < text.len() implies is_white_space(
            #[trigger] text[i],
        ) by {
            if i < front.len() {
                assert(text[i] == front[i]);
            }
        }
    } else {
        assert(text =~= text.take(text.len() as int));
    }
}

/// A text is the trimmed text with white space around it.
proof fn lemma_trim_parts(text: Seq<char>) -> (lead: int)
    ensures
        0 <= lead,
        lead + trim(text).len() <= text.len(),
        trim(text) == text.subrange(lead, lead + trim(text).len()),
        forall|i: int| 0 <= i < lead ==> is_white_space(#[trigger] text[i]),
        forall|i: int|
            lead + trim(text).len() <= i < text.len() ==> is_white_space(#[trigger] text[i]),
{
    let body = trim_start(text);
    lemma_trim_start_parts(text);
    lemma_trim_end_parts(body);
    let lead = text.len() - body.len();
    assert(trim(text) =~= text.subrange(lead, lead + trim(text).len()));
    assert forall|i: int| lead + trim(text).len() <= i < text.len() implies is_white_space(
        #[trigger] text[i],
    ) by {
        assert(text[i] == body[i - lead]);
    }
    lead
}

/// In front of the colon of a removed field stand white space and key letters.
proof fn lemma_key_is_plain(text: Seq<char>, key: Seq<char>)
    requires
        removed_key(key),
        has_key(text, key),
    ensures
        forall|i: int|
            0 <= i < find_char(text, ':')->0 ==> !is_foreign(#[trigger] text[i]) && text[i] != ':',
        0 <= find_char(text, ':')->0 < text.len(),
        text[find_char(text, ':')->0] == ':',
{
    lemma_find_char(text, ':');
    let at = find_char(text, ':')->0;
    let front = text.take(at);
    let lead = lemma_trim_parts(front);
    lemma_key_letters(key);
    assert forall|i: int| 0 <= i < at implies !is_foreign(#[trigger] text[i]) by {
        assert(text[i] == front[i]);
        if lead <= i < lead + key.len() {
            assert(front[i] == key[i - lead]);
        }
    }
}

/// A field that agrees with a text up to a change that brings in a foreign
/// character has its key from that text.
proof fn lemma_key_before_change(
    text: Seq<char>,
    changed: Seq<char>,
    shared: int,
    foreign: int,
    key: Seq<char>,
)
    requires
        removed_key(key),
        has_key(changed, key),
        0 <= shared <= text.len(),
        shared <= changed.len(),
        text.take(shared) == changed.take(shared),
        0 <= foreign < changed.len(),
        is_foreign(changed[foreign]),
        forall|i: int| shared <= i < foreign ==> #[trigger] changed[i] != ':',
    ensures
        has_key(text, key),
{
    lemma_key_is_plain(changed, key);
    let at = find_char(changed, ':')->0;
    assert(at < foreign);
    assert(at < shared);
    assert(text[at] == text.take(shared)[at]);
    assert(changed[at] == changed.take(shared)[at]);
    assert forall|i: int| 0 <= i < at implies text[i] != ':' by {
        assert(text[i] == text.take(shared)[i]);
        assert(changed[i] == changed.take(shared)[i]);
    }
    lemma_find_char_is(text, ':', at);
    assert(text.take(at) =~= text.take(shared).take(at));
    assert(changed.take(at) =~= changed.take(shared).take(at));
}

proof fn lemma_replace_key(
    text: Seq<char>,
    pattern: Seq<char>,
    replacement: Seq<char>,
    foreign: int,
    key: Seq<char>,
)
    requires
        removed_key(key),
        pattern.len() > 0,
        0 <= foreign < replacement.len(),
        is_foreign(replacement[foreign]),
        forall|i: int| 0 <= i < foreign ==> #[trigger] replacement[i] != ':',
        has_key(replace(text, pattern, replacement), key),
    ensures
        has_key(text, key),
{
    lemma_find(text, pattern);
    if let Some(at) = find(text, pattern) {
        let changed = replace(text, pattern, replacement);
        assert(changed.take(at) =~= text.take(at));
        assert(changed[at + foreign] == replacement[foreign]);
        assert forall|i: int| at <= i < at + foreign implies #[trigger] changed[i] != ':' by {
            assert(changed[i] == replacement[i - at]);
        }
        lemma_key_before_change(text, changed, at, at + foreign, key);
    }
}

proof fn lemma_trim_start_ahead(lead: Seq<char>, text: Seq<char>)
    requires
        forall|i: int| 0 <= i < lead.len() ==> is_white_space(#[trigger] lead[i]),
    ensures
        trim_start(lead + text) == trim_start(text),
    decreases lead.len(),
{
    if lead.len() == 0 {
        assert(lead + text =~= text);
    } else {
        let rest = lead.drop_first();
        assert forall|i: int| 0 <= i < rest.len() implies is_white_space(#[trigger] rest[i]) by {
            assert(rest[i] == lead[i + 1]);
        }
        lemma_trim_start_ahead(rest, text);
        assert((lead + text)[0] == lead[0]);
        assert((lead + text).drop_first() =~= rest + text);
    }
}

/// White space around a field does not change its key.
proof fn lemma_untrimmed_key(text: Seq<char>, key: Seq<char>)
    requires
        has_key(trim(text), key),
    ensures
        has_key(text, key),
{
    let inner = trim(text);
    let lead = lemma_trim_parts(text);
    lemma_find_char(inner, ':');
    let at = find_char(inner, ':')->0;
    assert(text[lead + at] == inner[at]);
    assert forall|i: int| 0 <= i < lead + at implies text[i] != ':' by {
        if i >= lead {
            assert(text[i] == inner[i - lead]);
        } else {
            assert(is_white_space(text[i]));
        }
    }
    lemma_find_char_is(text, ':', lead + at);
    lemma_trim_start_ahead(text.take(lead), inner.take(at));
    assert(text.take(lead + at) =~= text.take(lead) + inner.take(at));
}

/// Joined segments have the key of the first one.
proof fn lemma_joined_key(parts: Seq<Seq<char>>, key: Seq<char>)
    requires
        removed_key(key),
        parts.len() > 0,
        has_key(join(parts, " | "@), key),
    ensures
        has_key(parts[0], key),
{
    let joined = join(parts, " | "@);
    reveal_strlit(" | ");
    if parts.len() == 1 {
        assert(parts.drop_first() =~= Seq::empty());
        assert(join_tail(parts.drop_first(), " | "@) =~= Seq::empty());
        assert(joined =~= parts[0]);
    } else {
        let count = parts[0].len() as int;
        assert(joined.take(count) =~= parts[0]);
        assert(parts[0].take(count) =~= parts[0]);
        assert(joined[count] == ' ');
        assert(joined[count + 1] == '|');
        lemma_key_before_change(parts[0], joined, count, count + 1, key);
    }
}

/// A line whose segments are rewritten has its key from its first segment.
proof fn lemma_segments_key(line: Seq<char>, parts: Seq<Seq<char>>, key: Seq<char>)
    requires
        removed_key(key),
        parts.len() > 0,
        parts[0] == trim(split(line, '|')[0]),
        has_key(join(parts, " | "@), key),
    ensures
        has_key(line, key),
{
    let first = split(line, '|')[0];
    lemma_joined_key(parts, key);
    lemma_untrimmed_key(first, key);
    lemma_find_char(line, '|');
    lemma_find_char(first, ':');
    let at = find_char(first, ':')->0;
    match find_char(line, '|') {
        Some(end) => {
            assert(first =~= line.take(end));
            assert forall|i: int| 0 <= i < at implies line[i] != ':' by {
                assert(line[i] == first[i]);
            }
            assert(line[at] == first[at]);
            lemma_find_char_is(line, ':', at);
            assert(line.take(at) =~= first.take(at));
        },
        None => {
            assert(first =~= line);
        },
    }
}

proof fn lemma_named_key(
    line: Seq<char>,
    references: Seq<(Seq<char>, u32)>,
    rows: Seq<(Seq<char>, TokenScriptId)>,
    cursor: int,
    key: Seq<char>,
)
    requires
        removed_key(key),
        0 <= cursor <= line.len(),
        has_key(line.take(cursor) + named_from(line, references, rows, cursor), key),
    ensures
        has_key(line, key),
    decreases line.len() - cursor,
{
    let changed = line.take(cursor) + named_from(line, references, rows, cursor);
    match named_step(line, references, rows, cursor) {
        None => {
            assert(changed =~= line);
        },
        Some(step) => {
            lemma_named_step(line, references, rows, cursor);
            let later = named_from(line, references, rows, step.next);
            reveal_strlit("named");
            reveal_strlit("catalogId");
            reveal_strlit("tokenId");
            reveal_strlit("!");
            reveal_strlit("creatures ");
            lemma_find_from(line, "named"@, cursor);
            let at = find_from(line, "named"@, cursor)->0;
            if step.kept_to == step.next && step.inserted == Seq::<char>::empty() {
                assert(changed =~= line.take(step.next) + later);
                lemma_named_key(line, references, rows, step.next, key);
            } else {
                let (start, lead) = qualifier_lead(line, at)->0;
                let title_text = trim_start(line.skip(at + 5));
                let (_, qualifier) = title_qualifier(title_text, references, rows)->0;
                assert(step.inserted == lead + qualifier);
                assert(changed =~= line.take(step.kept_to) + step.inserted + later);
                assert(changed.take(step.kept_to) =~= line.take(step.kept_to));
                let in_word: int = if qualifier[0] == 'c' {
                    6
                } else {
                    1
                };
                let foreign = step.kept_to + lead.len() + in_word;
                assert(is_foreign(qualifier[in_word]));
                assert(changed[foreign] == qualifier[in_word]);
                assert forall|i: int| step.kept_to <= i < foreign implies #[trigger] changed[i]
                    != ':' by {
                    if i < step.kept_to + lead.len() {
                        assert(changed[i] == lead[i - step.kept_to]);
                    } else {
                        assert(changed[i] == qualifier[i - step.kept_to - lead.len()]);
                    }
                }
                lemma_key_before_change(line, changed, step.kept_to, foreign, key);
            }
        },
    }
}

proof fn lemma_set_key(line: Seq<char>, cursor: int, key: Seq<char>)
    requires
        removed_key(key),
        0 <= cursor <= line.len(),
        has_key(line.take(cursor) + set_from(line, cursor), key),
    ensures
        has_key(line, key),
    decreases line.len() - cursor,
{
    let changed = line.take(cursor) + set_from(line, cursor);
    reveal_strlit("set");
    lemma_find_from(line, "set"@, cursor);
    match find_from(line, "set"@, cursor) {
        None => {
            assert(changed =~= line);
        },
        Some(at) => {
            let code_at = at + 3;
            lemma_code_end(line, code_at);
            let end = code_end(line, code_at);
            if at > 0 && (line[at - 1] == '.' || line[at - 1] == '+') && end > code_at {
                assert(changed.take(at) =~= line.take(at));
                assert(changed[at - 1] == changed.take(at)[at - 1]);
                lemma_key_before_change(line, changed, at, at - 1, key);
            } else {
                assert(line.subrange(at, code_at) == "set"@);
                assert(changed =~= line.take(code_at) + set_from(line, code_at));
                lemma_set_key(line, code_at, key);
            }
        },
    }
}

proof fn lemma_card_parameters_key(
    line: Seq<char>,
    references: Seq<(Seq<char>, u32)>,
    key: Seq<char>,
)
    requires
        removed_key(key),
        has_key(card_parameters(line, references), key),
    ensures
        has_key(line, key),
{
    let changed = card_parameters(line, references);
    match top_level_reference(line, references) {
        Some(rewritten) => {
            reveal_strlit("K:PartnerWithId:");
            reveal_strlit("CopyFaceFromId");
            reveal_strlit("MeldPairId");
            let foreign: int = if rewritten[0] == 'C' || rewritten[0] == 'K' || rewritten[0] == 'M' {
                0
            } else {
                1
            };
            assert(changed.take(0) =~= line.take(0));
            lemma_key_before_change(line, changed, 0, foreign, key);
        },
        None => {
            let segments = split(line, '|');
            let api = api_of(segments[0]);
            let parts = Seq::new(
                segments.len(),
                |i: int|
                    if i == 0 {
                        trim(segments[0])
                    } else {
                        card_segment(api, segments[i], references)
                    },
            );
            lemma_segments_key(line, parts, key);
        },
    }
}

proof fn lemma_token_parameters_key(
    line: Seq<char>,
    tokens: Map<Seq<char>, TokenScriptId>,
    key: Seq<char>,
)
    requires
        removed_key(key),
        has_key(token_parameters(line, tokens), key),
    ensures
        has_key(line, key),
{
    let changed = token_parameters(line, tokens);
    let segments = split(line, '|');
    let parts = Seq::new(segments.len(), |i: int| token_segment(segments[i], tokens));
    if parts[0] == trim(segments[0]) {
        lemma_segments_key(line, parts, key);
    } else {
        reveal_strlit("TokenScriptIds$ ");
        assert(parts[0].len() > 1);
        assert(parts[0][1] == 'o');
        assert(changed[1] == 'o');
        assert(changed[0] == parts[0][0]);
        assert(changed.take(0) =~= line.take(0));
        lemma_key_before_change(line, changed, 0, 1, key);
    }
}

proof fn lemma_numbered_names_key(line: Seq<char>, names: Seq<Seq<char>>, key: Seq<char>)
    requires
        removed_key(key),
        has_key(numbered_names(line, names), key),
    ensures
        has_key(line, key),
    decreases names.len(),
{
    if names.len() > 0 {
        let earlier = numbered_names(line, names.drop_last());
        let name = names.last();
        let id = runtime_object_id(name);
        let number = "named"@ + decimal(id);
        reveal_strlit("named");
        lemma_decimal(id);
        assert(number[5] == decimal(id)[0]);
        assert(is_foreign(number[5]));
        lemma_replace_key(
            replace(earlier, "named"@ + name, number),
            "named"@ + replace_char(name, ',', ';'),
            number,
            5,
            key,
        );
        lemma_replace_key(earlier, "named"@ + name, number, 5, key);
        lemma_numbered_names_key(line, names.drop_last(), key);
    }
}

proof fn lemma_object_parameters_key(line: Seq<char>, names: Seq<Seq<char>>, key: Seq<char>)
    requires
        removed_key(key),
        has_key(object_parameters(line, names), key),
    ensures
        has_key(line, key),
{
    let numbered = numbered_names(line, names);
    let segments = split(numbered, '|');
    let api = api_of(segments[0]);
    let parts = Seq::new(
        segments.len(),
        |i: int|
            if i == 0 {
                trim(segments[0])
            } else {
                object_segment(api, segments[i])
            },
    );
    lemma_segments_key(numbered, parts, key);
    lemma_numbered_names_key(line, names, key);
}

proof fn lemma_contextual_key(
    line: Seq<char>,
    references: Seq<(Seq<char>, u32)>,
    owner: Option<u32>,
    key: Seq<char>,
)
    requires
        removed_key(key),
        has_key(contextual_references(line, references, owner), key),
    ensures
        has_key(line, key),
{
    let plain = replace(line, "/Swamp card>"@, ">"@);
    let hosted = original_host(plain, references);
    let counted = count_as(hosted, references);
    let noted = draft_notes(counted, "DraftNotesCount."@, references);
    let highest = draft_notes(noted, "DraftNotesHighest."@, references);
    let placed = from_draft_notes(highest, references, owner);
    reveal_strlit("FromDraftNotes$ ");
    reveal_strlit("FromDraftNotesId$ ");
    lemma_find(highest, "FromDraftNotes$ "@);
    if placed != highest {
        let start = find(highest, "FromDraftNotes$ "@)->0;
        assert(placed.take(start) =~= highest.take(start));
        assert(placed[start] == 'F');
        lemma_key_before_change(highest, placed, start, start, key);
    }
    lemma_draft_notes_key(noted, "DraftNotesHighest."@, references, key);
    lemma_draft_notes_key(counted, "DraftNotesCount."@, references, key);
    reveal_strlit("count as ");
    reveal_strlit("countAsCatalogId");
    lemma_find(hosted, "count as "@);
    if counted != hosted {
        let start = find(hosted, "count as "@)->0;
        assert(counted.take(start) =~= hosted.take(start));
        assert(counted[start] == 'c');
        assert(counted[start + 1] == 'o');
        lemma_key_before_change(hosted, counted, start, start + 1, key);
    }
    lemma_find_char(plain, '>');
    if hosted != plain {
        let end = find_char(plain, '>')->0;
        let front = plain.take(end);
        lemma_rfind_char(front, '/');
        let slash = rfind_char(front, '/')->0;
        assert(hosted.take(slash + 1) =~= plain.take(slash + 1));
        assert(plain[slash] == front[slash]);
        assert(hosted[slash] == hosted.take(slash + 1)[slash]);
        lemma_key_before_change(plain, hosted, slash + 1, slash, key);
    }
    reveal_strlit("/Swamp card>");
    reveal_strlit(">");
    lemma_replace_key(line, "/Swamp card>"@, ">"@, 0, key);
}

proof fn lemma_draft_notes_key(
    text: Seq<char>,
    marker: Seq<char>,
    references: Seq<(Seq<char>, u32)>,
    key: Seq<char>,
)
    requires
        removed_key(key),
        has_key(draft_notes(text, marker, references), key),
    ensures
        has_key(text, key),
{
    let changed = draft_notes(text, marker, references);
    lemma_find(text, marker);
    if changed != text {
        reveal_strlit("catalogId");
        let value_at = find(text, marker)->0 + marker.len();
        assert(changed.take(value_at) =~= text.take(value_at));
        assert(changed[value_at + 6] == 'g');
        lemma_key_before_change(text, changed, value_at, value_at + 6, key);
    }
}

/// The prose that stands for a keyword is not empty, and the keyword's word
/// brings in a foreign character.
proof fn lemma_words()
    ensures
        "First Strike"@.len() > 0,
        "Double Strike"@.len() > 0,
        "Level up"@.len() > 0,
        "Battle cry"@.len() > 0,
        "Battle Cry"@.len() > 0,
        "Start your engines!"@.len() > 0,
        "Start your engines"@.len() > 0,
        "Web-slinging"@.len() > 0,
        "Shaman's Trance"@.len() > 0,
        "Protection from red"@.len() > 0,
        "Protection from blue"@.len() > 0,
        "Protection from black"@.len() > 0,
        "Protection from white"@.len() > 0,
        "Protection from green"@.len() > 0,
        "Protection from everything"@.len() > 0,
        "Protection from each color"@.len() > 0,
        "You draw cards from the bottom of your library instead of the top of your library."@.len() > 0,
        "FirstStrike"@.len() > 0,
        is_foreign("FirstStrike"@[0]),
        "DoubleStrike"@.len() > 1,
        is_foreign("DoubleStrike"@[1]),
        "DoubleStrike"@[0] != ':',
        "LevelUp"@.len() > 0,
        is_foreign("LevelUp"@[0]),
        "BattleCry"@.len() > 0,
        is_foreign("BattleCry"@[0]),
        "StartYourEngines"@.len() > 0,
        is_foreign("StartYourEngines"@[0]),
        "WebSlinging"@.len() > 0,
        is_foreign("WebSlinging"@[0]),
        "SharedGraveyardCasting"@.len() > 0,
        is_foreign("SharedGraveyardCasting"@[0]),
        "Protection:Red"@.len() > 0,
        is_foreign("Protection:Red"@[0]),
        "Protection:Blue"@.len() > 0,
        is_foreign("Protection:Blue"@[0]),
        "Protection:Black"@.len() > 0,
        is_foreign("Protection:Black"@[0]),
        "Protection:White"@.len() > 0,
        is_foreign("Protection:White"@[0]),
        "Protection:Green"@.len() > 0,
        is_foreign("Protection:Green"@[0]),
        "Protection:Everything"@.len() > 0,
        is_foreign("Protection:Everything"@[0]),
        "Protection:EachColor"@.len() > 0,
        is_foreign("Protection:EachColor"@[0]),
        "DrawFromBottom"@.len() > 3,
        is_foreign("DrawFromBottom"@[3]),
        "DrawFromBottom"@[0] != ':',
        "DrawFromBottom"@[1] != ':',
        "DrawFromBottom"@[2] != ':',
{
    reveal_strlit("First Strike");
    reveal_strlit("Double Strike");
    reveal_strlit("Level up");
    reveal_strlit("Battle cry");
    reveal_strlit("Battle Cry");
    reveal_strlit("Start your engines!");
    reveal_strlit("Start your engines");
    reveal_strlit("Web-slinging");
    reveal_strlit("Shaman's Trance");
    reveal_strlit("Protection from red");
    reveal_strlit("Protection from blue");
    reveal_strlit("Protection from black");
    reveal_strlit("Protection from white");
    reveal_strlit("Protection from green");
    reveal_strlit("Protection from everything");
    reveal_strlit("Protection from each color");
    reveal_strlit("You draw cards from the bottom of your library instead of the top of your library.");
    reveal_strlit("FirstStrike");
    reveal_strlit("DoubleStrike");
    reveal_strlit("LevelUp");
    reveal_strlit("BattleCry");
    reveal_strlit("StartYourEngines");
    reveal_strlit("WebSlinging");
    reveal_strlit("SharedGraveyardCasting");
    reveal_strlit("Protection:Red");
    reveal_strlit("Protection:Blue");
    reveal_strlit("Protection:Black");
    reveal_strlit("Protection:White");
    reveal_strlit("Protection:Green");
    reveal_strlit("Protection:Everything");
    reveal_strlit("Protection:EachColor");
    reveal_strlit("DrawFromBottom");
}

proof fn lemma_plain_vocabulary_key(line: Seq<char>, key: Seq<char>)
    requires
        removed_key(key),
        has_key(plain_vocabulary(line), key),
    ensures
        has_key(line, key),
{
    let t1 = replace(line, "First Strike"@, "FirstStrike"@);
    let t2 = replace(t1, "Double Strike"@, "DoubleStrike"@);
    let t3 = replace(t2, "Level up"@, "LevelUp"@);
    let t4 = replace(t3, "Battle cry"@, "BattleCry"@);
    let t5 = replace(t4, "Battle Cry"@, "BattleCry"@);
    let t6 = replace(t5, "Start your engines!"@, "StartYourEngines"@);
    let t7 = replace(t6, "Start your engines"@, "StartYourEngines"@);
    let t8 = replace(t7, "Web-slinging"@, "WebSlinging"@);
    let t9 = replace(t8, "Shaman's Trance"@, "SharedGraveyardCasting"@);
    let t10 = replace(t9, "Protection from red"@, "Protection:Red"@);
    let t11 = replace(t10, "Protection from blue"@, "Protection:Blue"@);
    let t12 = replace(t11, "Protection from black"@, "Protection:Black"@);
    let t13 = replace(t12, "Protection from white"@, "Protection:White"@);
    let t14 = replace(t13, "Protection from green"@, "Protection:Green"@);
    let t15 = replace(t14, "Protection from everything"@, "Protection:Everything"@);
    let t16 = replace(t15, "Protection from each color"@, "Protection:EachColor"@);
    lemma_words();
    lemma_replace_key(
        t16,
        "You draw cards from the bottom of your library instead of the top of your library."@,
        "DrawFromBottom"@,
        3,
        key,
    );
    lemma_replace_key(t15, "Protection from each color"@, "Protection:EachColor"@, 0, key);
    lemma_replace_key(t14, "Protection from everything"@, "Protection:Everything"@, 0, key);
    lemma_replace_key(t13, "Protection from green"@, "Protection:Green"@, 0, key);
    lemma_replace_key(t12, "Protection from white"@, "Protection:White"@, 0, key);
    lemma_replace_key(t11, "Protection from black"@, "Protection:Black"@, 0, key);
    lemma_replace_key(t10, "Protection from blue"@, "Protection:Blue"@, 0, key);
    lemma_replace_key(t9, "Protection from red"@, "Protection:Red"@, 0, key);
    lemma_replace_key(t8, "Shaman's Trance"@, "SharedGraveyardCasting"@, 0, key);
    lemma_replace_key(t7, "Web-slinging"@, "WebSlinging"@, 0, key);
    lemma_replace_key(t6, "Start your engines"@, "StartYourEngines"@, 0, key);
    lemma_replace_key(t5, "Start your engines!"@, "StartYourEngines"@, 0, key);
    lemma_replace_key(t4, "Battle Cry"@, "BattleCry"@, 0, key);
    lemma_replace_key(t3, "Battle cry"@, "BattleCry"@, 0, key);
    lemma_replace_key(t2, "Level up"@, "LevelUp"@, 0, key);
    lemma_replace_key(t1, "Double Strike"@, "DoubleStrike"@, 1, key);
    lemma_replace_key(line, "First Strike"@, "FirstStrike"@, 0, key);
}

/// What begins with a foreign character has no removed key.
proof fn lemma_no_key(text: Seq<char>, key: Seq<char>)
    requires
        removed_key(key),
        text.len() > 0,
        is_foreign(text[0]),
    ensures
        !has_key(text, key),
{
    if has_key(text, key) {
        lemma_key_is_plain(text, key);
    }
}

proof fn lemma_without_flavor_first(fields: Seq<Seq<char>>)
    requires
        fields.len() > 0,
        !starts_with(fields[0], "Flavor "@),
    ensures
        without_flavor(fields).len() > 0,
        without_flavor(fields)[0] == fields[0],
    decreases fields.len(),
{
    if fields.len() == 1 {
        assert(fields.drop_last() =~= Seq::empty());
        assert(without_flavor(fields.drop_last()) =~= Seq::empty());
    } else {
        lemma_without_flavor_first(fields.drop_last());
    }
}

/// A keyword line keeps the `K` that it begins with.
proof fn lemma_keyword_start(text: Seq<char>)
    requires
        starts_with(text, "K:"@),
    ensures
        flavorless(text).len() > 0,
        flavorless(text)[0] == 'K',
        without_reminders(text).len() > 0,
        without_reminders(text)[0] == 'K',
{
    reveal_strlit("K:");
    reveal_strlit("Flavor ");
    assert(text.subrange(0, 2) == "K:"@);
    assert(text[0] == text.subrange(0, 2)[0]);
    assert(text[1] == text.subrange(0, 2)[1]);
    lemma_find_char_is(text, ':', 1);
    let fields = split(text, ':');
    let first = fields[0];
    assert(first =~= text.take(1));
    if starts_with(first, "Flavor "@) {
        assert(first.subrange(0, 7).len() == 7);
    }
    lemma_without_flavor_first(fields);
    let kept = without_flavor(fields);
    assert(join(kept, ":"@)[0] == kept[0][0]);
    if fields.len() > 6 {
        assert(join(fields.take(6), ":"@)[0] == fields.take(6)[0][0]);
    }
    if fields.len() > 5 {
        assert(join(fields.take(5), ":"@)[0] == fields.take(5)[0][0]);
        assert(join(fields.take(3), ":"@)[0] == fields.take(3)[0][0]);
    }
    if fields.len() > 3 {
        assert(join(fields.take(4), ":"@)[0] == fields.take(4)[0][0]);
    }
    reveal_strlit(":no Condition:");
    reveal_strlit(":no condition:");
    lemma_find(text, ":no Condition:"@);
    lemma_find(text, ":no condition:"@);
}

proof fn lemma_reminders_key(text: Seq<char>, key: Seq<char>)
    requires
        removed_key(key),
        has_key(without_reminders(text), key),
    ensures
        has_key(text, key),
{
    reveal_strlit("K:");
    reveal_strlit("K:etbCounter:");
    reveal_strlit("K:Flashback:");
    reveal_strlit("K:Specialize:");
    reveal_strlit("K:Equip:");
    if without_reminders(text) != text {
        let prefix = if starts_with(text, "K:etbCounter:"@) {
            "K:etbCounter:"@
        } else if starts_with(text, "K:Flashback:"@) {
            "K:Flashback:"@
        } else if starts_with(text, "K:Specialize:"@) {
            "K:Specialize:"@
        } else {
            "K:Equip:"@
        };
        assert(starts_with(text, prefix));
        assert(text.subrange(0, 2) =~= text.subrange(0, prefix.len() as int).subrange(0, 2));
        assert(text.subrange(0, 2) =~= "K:"@);
        lemma_keyword_start(text);
        lemma_no_key(without_reminders(text), key);
    }
}

proof fn lemma_keyword_key(line: Seq<char>, key: Seq<char>)
    requires
        removed_key(key),
        has_key(keyword_vocabulary(line), key),
    ensures
        has_key(line, key),
{
    let bare = flavorless(line);
    let plain = plain_vocabulary(bare);
    if starts_with(plain, "K:Spend only colored mana on X."@) {
        reveal_strlit("K:DistinctColoredManaForX");
        lemma_no_key("K:DistinctColoredManaForX"@, key);
    } else {
        lemma_reminders_key(plain, key);
        lemma_plain_vocabulary_key(bare, key);
        if starts_with(line, "K:"@) {
            lemma_keyword_start(line);
            lemma_no_key(bare, key);
        }
    }
}

proof fn lemma_kept_first(segments: Seq<Seq<char>>)
    requires
        segments.len() > 0,
        !display_segment(segments[0]),
    ensures
        kept_segments(segments).len() > 0,
        kept_segments(segments)[0] == trim(segments[0]),
    decreases segments.len(),
{
    if segments.len() == 1 {
        assert(segments.drop_last() =~= Seq::empty());
        assert(kept_segments(segments.drop_last()) =~= Seq::empty());
    } else {
        lemma_kept_first(segments.drop_last());
    }
}

/// Whether a line begins with display text that hides a field with a title or
/// display text behind it.
pub open spec fn hides_removed_field(line: Seq<char>) -> bool {
    let segments = split(line, '|');
    let kept = kept_segments(segments);
    &&& display_segment(segments[0])
    &&& kept.len() > 0
    &&& field_of(kept[0]) matches Some((key, _)) && removed_key(key)
}

/// A line that is kept turns into a field with a title or display text only
/// where display text at its beginning has hidden one.
pub proof fn law_only_hidden_fields_come_out(
    line: Seq<char>,
    references: Seq<(Seq<char>, u32)>,
    tokens: Seq<(Seq<char>, TokenScriptId)>,
    names: Seq<Seq<char>>,
    owner: Option<u32>,
)
    requires
        kept_line(line),
    ensures
        (field_of(anonymous_line(line, references, tokens, names, owner)) matches Some((key, _))
            && removed_key(key)) ==> hides_removed_field(
            numbered_line(line, references, tokens, names, owner),
        ),
{
    let out = anonymous_line(line, references, tokens, names, owner);
    if let Some((key, _)) = field_of(out) {
        if removed_key(key) && !hides_removed_field(
            numbered_line(line, references, tokens, names, owner),
        ) {
            let qualified = named_qualifiers(line, references, tokens);
            let carded = card_parameters(qualified, references);
            let tokened = token_parameters(carded, row_map(tokens));
            let numbered = object_parameters(tokened, names);
            let placed = contextual_references(numbered, references, owner);
            let worded = keyword_vocabulary(placed);
            let grouped = set_qualifiers(worded);
            let kept = kept_segments(split(grouped, '|'));
            if kept.len() == 0 {
                assert(out =~= Seq::empty());
                lemma_find_char(out, ':');
            }
            lemma_joined_key(kept, key);
            lemma_find_char(kept[0], ':');
            lemma_kept_first(split(grouped, '|'));
            lemma_segments_key(grouped, kept, key);
            assert(worded.take(0) + set_from(worded, 0) =~= grouped);
            lemma_set_key(worded, 0, key);
            lemma_keyword_key(placed, key);
            lemma_contextual_key(numbered, references, owner, key);
            lemma_object_parameters_key(tokened, names, key);
            lemma_token_parameters_key(carded, row_map(tokens), key);
            lemma_card_parameters_key(qualified, references, key);
            assert(line.take(0) + named_from(line, references, tokens, 0) =~= qualified);
            lemma_named_key(line, references, tokens, 0, key);
            lemma_find_char(line, ':');
            let at = find_char(line, ':')->0;
            assert(split(line, ':')[0] =~= line.take(at));
            assert(removed_field(line));
        }
    }
}

} // verus!
