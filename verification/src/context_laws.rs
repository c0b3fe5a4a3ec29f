//! What becomes of the card titles that only their surroundings mark.

use vstd::prelude::*;

use crate::contextual::{
    contextual_references, count_as, draft_notes, from_draft_notes, original_host,
};
use crate::numerals::decimal;
use crate::references::id_for_name;
use crate::tables::lacks;
use crate::text::{
    ends_with, find, find_char, lemma_find, lemma_find_char, lemma_find_char_is, lemma_rfind_char,
    occurs_at, replace, rfind_char,
};

verus! {

/// The surroundings that mark a card title.
pub open spec fn marker(at: int) -> Seq<char> {
    if at == 0 {
        "/Swamp card>"@
    } else if at == 1 {
        "OriginalHost/"@
    } else if at == 2 {
        "count as "@
    } else if at == 3 {
        "DraftNotesCount."@
    } else if at == 4 {
        "DraftNotesHighest."@
    } else {
        "FromDraftNotes$ "@
    }
}

/// Whether the text has the marker.
pub open spec fn has_marker(text: Seq<char>, at: int) -> bool {
    exists|place: int| #[trigger] occurs_at(text, marker(at), place)
}

/// Whether the text has no marker but the one.
pub open spec fn has_only(text: Seq<char>, at: int) -> bool {
    forall|other: int| 0 <= other < 6 && other != at ==> !#[trigger] has_marker(text, other)
}

/// Whether nothing of the marker stands before the end of the text when the
/// marker follows it.
pub open spec fn is_first(before: Seq<char>, at: int) -> bool {
    forall|place: int|
        0 <= place < before.len() ==> !#[trigger] occurs_at(
            before + marker(at),
            marker(at),
            place,
        )
}

proof fn lemma_first(before: Seq<char>, at: int, after: Seq<char>)
    requires
        is_first(before, at),
    ensures
        find(before + marker(at) + after, marker(at)) == Some(before.len() as int),
{
    let line = before + marker(at) + after;
    let size = marker(at).len() as int;
    let k = before.len() as int;
    lemma_find(line, marker(at));
    assert(line.subrange(k, k + size) =~= marker(at));
    assert(occurs_at(line, marker(at), k));
    assert forall|j: int| 0 <= j < k implies !occurs_at(line, marker(at), j) by {
        assert(!occurs_at(before + marker(at), marker(at), j));
        assert(line.subrange(j, j + size) =~= (before + marker(at)).subrange(j, j + size));
    }
}

proof fn lemma_unmarked(text: Seq<char>, at: int)
    requires
        !has_marker(text, at),
    ensures
        find(text, marker(at)) is None,
{
    lemma_find(text, marker(at));
    if let Some(place) = find(text, marker(at)) {
        assert(occurs_at(text, marker(at), place));
    }
}

proof fn lemma_no_host(text: Seq<char>, references: Seq<(Seq<char>, u32)>)
    requires
        !has_marker(text, 1),
    ensures
        original_host(text, references) == text,
{
    reveal_strlit("OriginalHost");
    reveal_strlit("OriginalHost/");
    lemma_find_char(text, '>');
    if let Some(end) = find_char(text, '>') {
        lemma_rfind_char(text.take(end), '/');
        if let Some(slash) = rfind_char(text.take(end), '/') {
            if ends_with(text.take(slash), "OriginalHost"@) {
                let start = slash - 12;
                assert(text.take(slash).subrange(start, start + 12) == "OriginalHost"@);
                assert(text.subrange(start, start + 13) =~= "OriginalHost/"@) by {
                    assert forall|i: int| 0 <= i < 13 implies text.subrange(start, start + 13)[i]
                        == "OriginalHost/"@[i] by {
                        if i < 12 {
                            assert(text.take(slash).subrange(start, start + 12)[i] == text[start
                                + i]);
                        }
                    }
                }
                assert(occurs_at(text, marker(1), start));
            }
        }
    }
}

/// The stages before a marker's own leave the line.
proof fn lemma_earlier(line: Seq<char>, at: int, references: Seq<(Seq<char>, u32)>)
    requires
        0 <= at < 6,
        has_only(line, at),
    ensures
        at > 0 ==> replace(line, "/Swamp card>"@, ">"@) == line,
        at > 1 ==> original_host(line, references) == line,
        at > 2 ==> count_as(line, references) == line,
        at > 3 ==> draft_notes(line, "DraftNotesCount."@, references) == line,
        at > 4 ==> draft_notes(line, "DraftNotesHighest."@, references) == line,
{
    if at > 0 {
        assert(!has_marker(line, 0));
        lemma_unmarked(line, 0);
    }
    if at > 1 {
        assert(!has_marker(line, 1));
        lemma_no_host(line, references);
    }
    if at > 2 {
        assert(!has_marker(line, 2));
        lemma_unmarked(line, 2);
    }
    if at > 3 {
        assert(!has_marker(line, 3));
        lemma_unmarked(line, 3);
    }
    if at > 4 {
        assert(!has_marker(line, 4));
        lemma_unmarked(line, 4);
    }
}

/// The stages behind a marker's own leave what comes out.
proof fn lemma_later(
    text: Seq<char>,
    at: int,
    references: Seq<(Seq<char>, u32)>,
    owner: Option<u32>,
)
    requires
        0 <= at < 6,
        has_only(text, at),
    ensures
        at < 1 ==> original_host(text, references) == text,
        at < 2 ==> count_as(text, references) == text,
        at < 3 ==> draft_notes(text, "DraftNotesCount."@, references) == text,
        at < 4 ==> draft_notes(text, "DraftNotesHighest."@, references) == text,
        at < 5 ==> from_draft_notes(text, references, owner) == text,
{
    if at < 1 {
        assert(!has_marker(text, 1));
        lemma_no_host(text, references);
    }
    if at < 2 {
        assert(!has_marker(text, 2));
        lemma_unmarked(text, 2);
    }
    if at < 3 {
        assert(!has_marker(text, 3));
        lemma_unmarked(text, 3);
    }
    if at < 4 {
        assert(!has_marker(text, 4));
        lemma_unmarked(text, 4);
    }
    if at < 5 {
        assert(!has_marker(text, 5));
        lemma_unmarked(text, 5);
    }
}

/// The title of the host that a cost names becomes its number.
pub proof fn law_hosts_become_numbers(
    before: Seq<char>,
    title: Seq<char>,
    after: Seq<char>,
    references: Seq<(Seq<char>, u32)>,
    number: u32,
    owner: Option<u32>,
)
    requires
        lacks(before, '>'),
        lacks(title, '/'),
        lacks(title, '>'),
        id_for_name(title, references) == Some(number),
        has_only(before + "OriginalHost/"@ + title + seq!['>'] + after, 1),
        has_only(
            before + "OriginalHost/catalogId"@ + decimal(number as nat) + seq!['>'] + after,
            1,
        ),
    ensures
        contextual_references(
            before + "OriginalHost/"@ + title + seq!['>'] + after,
            references,
            owner,
        ) == before + "OriginalHost/catalogId"@ + decimal(number as nat) + seq!['>'] + after,
{
    reveal_strlit("OriginalHost");
    reveal_strlit("OriginalHost/");
    reveal_strlit("catalogId");
    reveal_strlit("OriginalHost/catalogId");
    let line = before + "OriginalHost/"@ + title + seq!['>'] + after;
    let out = before + "OriginalHost/catalogId"@ + decimal(number as nat) + seq!['>'] + after;
    let slash = before.len() as int + 12;
    let end = slash + 1 + title.len();
    assert(line[end] == '>');
    assert forall|i: int| 0 <= i < end implies line[i] != '>' by {
        if i < before.len() {
            assert(line[i] == before[i]);
        } else if i <= slash {
            assert(line[i] == "OriginalHost/"@[i - before.len()]);
        } else {
            assert(line[i] == title[i - slash - 1]);
        }
    }
    lemma_find_char_is(line, '>', end);
    let head = line.take(end);
    lemma_rfind_char(head, '/');
    assert(head[slash] == '/');
    assert forall|j: int| slash < j < head.len() implies head[j] != '/' by {
        assert(head[j] == title[j - slash - 1]);
    }
    assert(rfind_char(head, '/') == Some(slash));
    assert(line.take(slash).subrange(slash - 12, slash) =~= "OriginalHost"@);
    assert(line.subrange(slash + 1, end) =~= title);
    assert(line.take(slash + 1) + "catalogId"@ + decimal(number as nat) + line.skip(end) =~= out);
    lemma_earlier(line, 1, references);
    lemma_later(out, 1, references, owner);
}

/// `count as` and a title, up to the full stop, become one numeric word.
pub proof fn law_counted_titles_become_numbers(
    before: Seq<char>,
    title: Seq<char>,
    after: Seq<char>,
    references: Seq<(Seq<char>, u32)>,
    number: u32,
    owner: Option<u32>,
)
    requires
        is_first(before, 2),
        lacks(title, '.'),
        id_for_name(title, references) == Some(number),
        has_only(before + "count as "@ + title + seq!['.'] + after, 2),
        has_only(before + "countAsCatalogId"@ + decimal(number as nat) + after, 2),
    ensures
        contextual_references(
            before + "count as "@ + title + seq!['.'] + after,
            references,
            owner,
        ) == before + "countAsCatalogId"@ + decimal(number as nat) + after,
{
    reveal_strlit("count as ");
    let value = title + seq!['.'] + after;
    let line = before + "count as "@ + title + seq!['.'] + after;
    let out = before + "countAsCatalogId"@ + decimal(number as nat) + after;
    assert(line =~= before + marker(2) + value);
    lemma_first(before, 2, value);
    assert(line.skip(before.len() as int + 9) =~= value);
    let end = title.len() as int;
    assert(value[end] == '.');
    assert forall|i: int| 0 <= i < end implies value[i] != '.' by {
        assert(value[i] == title[i]);
    }
    lemma_find_char_is(value, '.', end);
    assert(value.take(end) =~= title);
    assert(value.skip(end + 1) =~= after);
    assert(line.take(before.len() as int) =~= before);
    lemma_earlier(line, 2, references);
    lemma_later(out, 2, references, owner);
}

/// The title of a card that notes are counted on becomes its number.
pub proof fn law_noted_titles_become_numbers(
    before: Seq<char>,
    at: int,
    title: Seq<char>,
    references: Seq<(Seq<char>, u32)>,
    number: u32,
    owner: Option<u32>,
)
    requires
        at == 3 || at == 4,
        is_first(before, at),
        id_for_name(title, references) == Some(number),
        has_only(before + marker(at) + title, at),
        has_only(before + marker(at) + "catalogId"@ + decimal(number as nat), at),
    ensures
        contextual_references(before + marker(at) + title, references, owner) == before + marker(at)
            + "catalogId"@ + decimal(number as nat),
{
    let line = before + marker(at) + title;
    let out = before + marker(at) + "catalogId"@ + decimal(number as nat);
    lemma_first(before, at, title);
    let value_at = (before.len() + marker(at).len()) as int;
    assert(line.skip(value_at) =~= title);
    assert(line.take(value_at) =~= before + marker(at));
    assert(draft_notes(line, marker(at), references) =~= out);
    lemma_earlier(line, at, references);
    lemma_later(out, at, references, owner);
}

/// The card whose notes a parameter takes becomes its number, and where no card
/// has the title, the script's own number stands in.
pub proof fn law_taken_notes_become_numbers(
    before: Seq<char>,
    title: Seq<char>,
    references: Seq<(Seq<char>, u32)>,
    owner: Option<u32>,
)
    requires
        is_first(before, 5),
        has_only(before + "FromDraftNotes$ "@ + title, 5),
    ensures
        contextual_references(before + "FromDraftNotes$ "@ + title, references, owner) == (match (
            id_for_name(title, references),
            owner,
        ) {
            (Some(id), _) => before + "FromDraftNotesId$ "@ + decimal(id as nat),
            (None, Some(id)) => before + "FromDraftNotesId$ "@ + decimal(id as nat),
            (None, None) => before + "FromDraftNotes$ "@ + title,
        }),
{
    reveal_strlit("FromDraftNotes$ ");
    let line = before + "FromDraftNotes$ "@ + title;
    lemma_first(before, 5, title);
    assert(line.skip(before.len() as int + 16) =~= title);
    assert(line.take(before.len() as int) =~= before);
    lemma_earlier(line, 5, references);
}

/// The card that a cost mentions beside its own words goes.
pub proof fn law_mentioned_cards_go(
    before: Seq<char>,
    after: Seq<char>,
    references: Seq<(Seq<char>, u32)>,
    owner: Option<u32>,
)
    requires
        is_first(before, 0),
        !has_marker(after, 0),
        has_only(before + ">"@ + after, 0),
    ensures
        contextual_references(before + "/Swamp card>"@ + after, references, owner) == before + ">"@
            + after,
{
    reveal_strlit("/Swamp card>");
    let line = before + "/Swamp card>"@ + after;
    lemma_first(before, 0, after);
    lemma_unmarked(after, 0);
    assert(line.skip(before.len() as int + 12) =~= after);
    assert(line.take(before.len() as int) =~= before);
    assert(find(line, "/Swamp card>"@) == Some(before.len() as int));
    assert(replace(after, "/Swamp card>"@, ">"@) == after);
    assert(replace(line, "/Swamp card>"@, ">"@) == line.take(before.len() as int) + ">"@ + replace(
        line.skip(before.len() as int + 12),
        "/Swamp card>"@,
        ">"@,
    ));
    lemma_later(before + ">"@ + after, 0, references, owner);
}

/// A line without any of these surroundings stays as it reads.
pub proof fn law_unmarked_lines_stay(
    line: Seq<char>,
    references: Seq<(Seq<char>, u32)>,
    owner: Option<u32>,
)
    requires
        forall|at: int| 0 <= at < 6 ==> !#[trigger] has_marker(line, at),
    ensures
        contextual_references(line, references, owner) == line,
{
    lemma_earlier(line, 5, references);
    assert(!has_marker(line, 5));
    lemma_unmarked(line, 5);
}

} // verus!
