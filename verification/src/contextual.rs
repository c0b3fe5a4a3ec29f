//! Card titles that only their surroundings mark as such.

use vstd::prelude::*;
use vstd::slice::slice_subrange;

use crate::ids::CardScriptId;
use crate::numerals::{append_decimal, decimal};
use crate::references::{id_for_name, id_view, numeric_id_for_title, reference_views};
use crate::text::{
    after, append, append_str, chars_of, ends_with, find, find_char, front, has_suffix,
    last_position_of_char, position_of, position_of_char, replace, replaced_str, rest, rfind_char,
    string_of, to_owned,
};

verus! {

/// `OriginalHost/<title>>` with the number in the place of the title.
pub open spec fn original_host(text: Seq<char>, references: Seq<(Seq<char>, u32)>) -> Seq<char> {
    match find_char(text, '>') {
        Some(end) => match rfind_char(text.take(end), '/') {
            Some(slash) => if ends_with(text.take(slash), "OriginalHost"@) {
                match id_for_name(text.subrange(slash + 1, end), references) {
                    Some(id) => text.take(slash + 1) + "catalogId"@ + decimal(id as nat)
                        + text.skip(end),
                    None => text,
                }
            } else {
                text
            },
            None => text,
        },
        None => text,
    }
}

/// `count as <title>.` as one numeric word.
pub open spec fn count_as(text: Seq<char>, references: Seq<(Seq<char>, u32)>) -> Seq<char> {
    match find(text, "count as "@) {
        Some(start) => {
            let value = text.skip(start + "count as "@.len());
            match find_char(value, '.') {
                Some(end) => match id_for_name(value.take(end), references) {
                    Some(id) => text.take(start) + "countAsCatalogId"@ + decimal(id as nat)
                        + value.skip(end + 1),
                    None => text,
                },
                None => text,
            }
        },
        None => text,
    }
}

/// The title after the marker, up to the end of the line, as a number.
pub open spec fn draft_notes(
    text: Seq<char>,
    marker: Seq<char>,
    references: Seq<(Seq<char>, u32)>,
) -> Seq<char> {
    match find(text, marker) {
        Some(start) => {
            let value_at = start + marker.len();
            match id_for_name(text.skip(value_at), references) {
                Some(id) => text.take(value_at) + "catalogId"@ + decimal(id as nat),
                None => text,
            }
        },
        None => text,
    }
}

/// The parameter that takes the notes on a card: on the card with the title,
/// or on the owner of the script where no card has it.
pub open spec fn from_draft_notes(
    text: Seq<char>,
    references: Seq<(Seq<char>, u32)>,
    owner: Option<u32>,
) -> Seq<char> {
    match find(text, "FromDraftNotes$ "@) {
        Some(start) => {
            let value = text.skip(start + "FromDraftNotes$ "@.len());
            let id = match id_for_name(value, references) {
                Some(id) => Some(id),
                None => owner,
            };
            match id {
                Some(id) => text.take(start) + "FromDraftNotesId$ "@ + decimal(id as nat),
                None => text,
            }
        },
        None => text,
    }
}

/// The line with the card titles in these places replaced by numbers.
pub open spec fn contextual_references(
    line: Seq<char>,
    references: Seq<(Seq<char>, u32)>,
    owner: Option<u32>,
) -> Seq<char> {
    let plain = replace(line, "/Swamp card>"@, ">"@);
    let hosted = original_host(plain, references);
    let counted = count_as(hosted, references);
    let noted = draft_notes(counted, "DraftNotesCount."@, references);
    let highest = draft_notes(noted, "DraftNotesHighest."@, references);
    from_draft_notes(highest, references, owner)
}

fn with_original_host(text: &[char], references: &[(String, CardScriptId)]) -> (out: Vec<char>)
    ensures
        out@ == original_host(text@, reference_views(references@)),
{
    if let Some(end) = position_of_char(text, '>') {
        let head = front(text, end);
        if let Some(slash) = last_position_of_char(head, '/') {
            assert(text@.take(end as int).take(slash as int) =~= text@.take(slash as int));
            if has_suffix(front(text, slash), "OriginalHost") {
                if let Some(id) = numeric_id_for_title(
                    slice_subrange(text, slash + 1, end),
                    references,
                ) {
                    let mut out = to_owned(front(text, slash + 1));
                    append_str(&mut out, "catalogId");
                    append_decimal(&mut out, id.0 as u64);
                    append(&mut out, rest(text, end));
                    return out;
                }
            }
        }
    }
    to_owned(text)
}

fn with_count_as(text: &[char], references: &[(String, CardScriptId)]) -> (out: Vec<char>)
    ensures
        out@ == count_as(text@, reference_views(references@)),
{
    if let Some(start) = position_of(text, "count as ") {
        proof {
            reveal_strlit("count as ");
        }
        let total: usize = text.len();
        let value = rest(text, start + 9);
        if let Some(end) = position_of_char(value, '.') {
            if let Some(id) = numeric_id_for_title(front(value, end), references) {
                let mut out = to_owned(front(text, start));
                append_str(&mut out, "countAsCatalogId");
                append_decimal(&mut out, id.0 as u64);
                append(&mut out, after(value, end));
                return out;
            }
        }
    }
    to_owned(text)
}

fn with_draft_notes(
    text: &[char],
    marker: &str,
    references: &[(String, CardScriptId)],
) -> (out: Vec<char>)
    ensures
        out@ == draft_notes(text@, marker@, reference_views(references@)),
{
    if let Some(start) = position_of(text, marker) {
        let width: usize = chars_of(marker).len();
        let total: usize = text.len();
        let value_at: usize = start + width;
        if let Some(id) = numeric_id_for_title(rest(text, value_at), references) {
            let mut out = to_owned(front(text, value_at));
            append_str(&mut out, "catalogId");
            append_decimal(&mut out, id.0 as u64);
            return out;
        }
    }
    to_owned(text)
}

fn with_from_draft_notes(
    text: &[char],
    references: &[(String, CardScriptId)],
    owner_id: Option<CardScriptId>,
) -> (out: Vec<char>)
    ensures
        out@ == from_draft_notes(text@, reference_views(references@), id_view(owner_id)),
{
    if let Some(start) = position_of(text, "FromDraftNotes$ ") {
        proof {
            reveal_strlit("FromDraftNotes$ ");
        }
        let total: usize = text.len();
        let named = numeric_id_for_title(rest(text, start + 16), references);
        let id = match named {
            Some(id) => Some(id),
            None => owner_id,
        };
        if let Some(id) = id {
            let mut out = to_owned(front(text, start));
            append_str(&mut out, "FromDraftNotesId$ ");
            append_decimal(&mut out, id.0 as u64);
            return out;
        }
    }
    to_owned(text)
}

/// Replaces the card titles that only their surroundings mark by numbers.
/// `owner_id` is the card whose script the line belongs to.
pub fn rewrite_contextual_card_references(
    line: &str,
    references: &[(String, CardScriptId)],
    owner_id: Option<CardScriptId>,
) -> (out: String)
    ensures
        out@ == contextual_references(line@, reference_views(references@), id_view(owner_id)),
{
    let chars = chars_of(line);
    proof {
        reveal_strlit("/Swamp card>");
    }
    let plain = replaced_str(chars.as_slice(), "/Swamp card>", ">");
    let hosted = with_original_host(plain.as_slice(), references);
    let counted = with_count_as(hosted.as_slice(), references);
    let noted = with_draft_notes(counted.as_slice(), "DraftNotesCount.", references);
    let highest = with_draft_notes(noted.as_slice(), "DraftNotesHighest.", references);
    let out = with_from_draft_notes(highest.as_slice(), references, owner_id);
    string_of(out.as_slice())
}

} // verus!
