//! The `|`-separated parameters of an executable line.

use vstd::prelude::*;

use crate::ids::{CardScriptId, TokenScriptId};
use crate::maps::TextMap;
use crate::numerals::{append_decimal, decimal};
use crate::references::{id_for_name, numeric_id_for_title, reference_views};
use crate::script::optional_view;
use crate::text::{
    append, append_str, chars_of, ends_with, halves, has_prefix, has_suffix, join, joined,
    last_halves, owned_views, pair_view, pieces, reads, rest, rsplit_once, split, split_once,
    starts_with, string_of, to_owned, trim, trimmed, views,
};

verus! {

/// Token script keys and the numeric IDs of the scripts.
pub type TokenIndex = TextMap<TokenScriptId>;

/// The effect that the first segment of a line names after its last `$`.
pub open spec fn api_of(head: Seq<char>) -> Seq<char> {
    match rsplit_once(head, '$') {
        Some((_, name)) => trim(name),
        None => Seq::empty(),
    }
}

/// The key and the value of a `Key$ Value` segment.
pub open spec fn parameter_of(segment: Seq<char>) -> Option<(Seq<char>, Seq<char>)> {
    match split_once(trim(segment), '$') {
        Some((key, value)) => Some((trim(key), trim(value))),
        None => None,
    }
}

/// The parameter that takes one card title, with the key that takes its number.
pub open spec fn card_key(api: Seq<char>, key: Seq<char>) -> Option<Seq<char>> {
    if (api == "MakeCard"@ || api == "Meld"@) && key == "Name"@ {
        Some("CatalogId"@)
    } else if api == "Meld"@ && key == "Primary"@ {
        Some("PrimaryCatalogId"@)
    } else if api == "Meld"@ && key == "Secondary"@ {
        Some("SecondaryCatalogId"@)
    } else if api == "CopyPermanent"@ && key == "DefinedName"@ {
        Some("DefinedCatalogId"@)
    } else {
        None
    }
}

/// The parameter that takes a list of card titles: the key that takes their
/// numbers, and the list.
pub open spec fn card_list(api: Seq<char>, key: Seq<char>, value: Seq<char>) -> Option<
    (Seq<char>, Seq<char>),
> {
    if api == "NameCard"@ && key == "ChooseFromList"@ {
        Some(("ChooseFromCatalogIds"@, value))
    } else if key == "Spellbook"@ {
        Some(("SpellbookCatalogIds"@, value))
    } else if api == "MakeCard"@ && (key == "Names"@ || key == "Choices"@) {
        Some(("CatalogIds"@, value))
    } else if api == "Play"@ && key == "AnySupportedCard"@ && starts_with(value, "Names:"@) {
        Some(("AnySupportedCatalogIds"@, value.skip(6)))
    } else {
        None
    }
}

/// The numerals for a comma-separated list of card titles, if every title has
/// a number.
pub open spec fn card_numerals(list: Seq<char>, references: Seq<(Seq<char>, u32)>) -> Option<
    Seq<Seq<char>>,
> {
    let names = split(list, ',');
    if forall|i: int| 0 <= i < names.len() ==> id_for_name(#[trigger] names[i], references) is Some {
        Some(
            Seq::new(
                names.len(),
                |i: int| decimal(id_for_name(names[i], references)->0 as nat),
            ),
        )
    } else {
        None
    }
}

/// A segment with its card titles replaced by numbers; unchanged where a title
/// has none.
pub open spec fn card_segment(
    api: Seq<char>,
    segment: Seq<char>,
    references: Seq<(Seq<char>, u32)>,
) -> Seq<char> {
    match parameter_of(segment) {
        Some((key, value)) => match card_list(api, key, value) {
            Some((label, list)) => match card_numerals(list, references) {
                Some(numerals) => label + "$ "@ + join(numerals, ","@),
                None => trim(segment),
            },
            None => match card_key(api, key) {
                Some(label) => match id_for_name(value, references) {
                    Some(id) => label + "$ "@ + decimal(id as nat),
                    None => trim(segment),
                },
                None => trim(segment),
            },
        },
        None => trim(segment),
    }
}

/// A top-level field that names one card, with the number in its place.
pub open spec fn top_level_reference(
    line: Seq<char>,
    references: Seq<(Seq<char>, u32)>,
) -> Option<Seq<char>> {
    if starts_with(line, "K:Partner with:"@) {
        let value = line.skip("K:Partner with:"@.len() as int);
        let title = match rsplit_once(value, ':') {
            Some((title, _)) => title,
            None => value,
        };
        match id_for_name(title, references) {
            Some(id) => Some("K:PartnerWithId:"@ + decimal(id as nat)),
            None => None,
        }
    } else {
        match split_once(line, ':') {
            Some((key, value)) => if trim(key) == "CopyFaceFrom"@ {
                match id_for_name(value, references) {
                    Some(id) => Some("CopyFaceFromId"@ + ":"@ + decimal(id as nat)),
                    None => None,
                }
            } else if trim(key) == "MeldPair"@ {
                match id_for_name(value, references) {
                    Some(id) => Some("MeldPairId"@ + ":"@ + decimal(id as nat)),
                    None => None,
                }
            } else {
                None
            },
            None => None,
        }
    }
}

/// The line with every card title in a card parameter replaced by its number.
pub open spec fn card_parameters(
    line: Seq<char>,
    references: Seq<(Seq<char>, u32)>,
) -> Seq<char> {
    match top_level_reference(line, references) {
        Some(rewritten) => rewritten,
        None => {
            let segments = split(line, '|');
            let api = api_of(segments[0]);
            join(
                Seq::new(
                    segments.len(),
                    |i: int|
                        if i == 0 {
                            trim(segments[0])
                        } else {
                            card_segment(api, segments[i], references)
                        },
                ),
                " | "@,
            )
        },
    }
}

/// The numerals for a comma-separated list of token keys, if every key has an
/// ID.
pub open spec fn token_numerals(list: Seq<char>, tokens: Map<Seq<char>, TokenScriptId>) -> Option<
    Seq<Seq<char>>,
> {
    let names = split(list, ',');
    if forall|i: int|
        0 <= i < names.len() ==> tokens.dom().contains(trim(#[trigger] names[i])) {
        Some(Seq::new(names.len(), |i: int| decimal(tokens[trim(names[i])].0 as nat)))
    } else {
        None
    }
}

/// A segment with its token keys replaced by numbers; unchanged where a key
/// has none.
pub open spec fn token_segment(
    segment: Seq<char>,
    tokens: Map<Seq<char>, TokenScriptId>,
) -> Seq<char> {
    match parameter_of(segment) {
        Some((key, value)) => if key == "TokenScript"@ {
            match token_numerals(value, tokens) {
                Some(numerals) => "TokenScriptIds$ "@ + join(numerals, ","@),
                None => trim(segment),
            }
        } else {
            trim(segment)
        },
        None => trim(segment),
    }
}

/// The line with its token keys replaced by numbers.
pub open spec fn token_parameters(
    line: Seq<char>,
    tokens: Map<Seq<char>, TokenScriptId>,
) -> Seq<char> {
    let segments = split(line, '|');
    join(Seq::new(segments.len(), |i: int| token_segment(segments[i], tokens)), " | "@)
}

/// Whether a parameter of the effect names a runtime object.
pub open spec fn is_object_key(api: Seq<char>, key: Seq<char>) -> bool {
    ||| key == "NewName"@
    ||| key == "SetName"@
    ||| key == "Name"@ && (api == "Effect"@ || api == "ReplaceEffect"@ || api
        == "ReplaceSplitDamage"@ || api == "Animate"@)
}

/// Whether people read the segment and the rules do not.
pub open spec fn display_segment(segment: Seq<char>) -> bool {
    match parameter_of(segment) {
        Some((key, _)) => {
            ||| ends_with(key, "Description"@)
            ||| ends_with(key, "Prompt"@)
            ||| ends_with(key, "Desc"@)
            ||| ends_with(key, "Message"@)
            ||| ends_with(key, "Title"@)
            ||| key == "Image"@
            ||| key == "SpellbookName"@
        },
        None => false,
    }
}

/// The segments that are not for display, without surrounding white space.
pub open spec fn kept_segments(segments: Seq<Seq<char>>) -> Seq<Seq<char>>
    decreases segments.len(),
{
    if segments.len() == 0 {
        Seq::empty()
    } else if display_segment(segments.last()) {
        kept_segments(segments.drop_last())
    } else {
        kept_segments(segments.drop_last()).push(trim(segments.last()))
    }
}

/// The line without its display segments.
pub open spec fn without_display(line: Seq<char>) -> Seq<char> {
    join(kept_segments(split(line, '|')), " | "@)
}

/// The effect that a line's first segment names.
pub(crate) fn api_name<'a>(head: &'a [char]) -> (out: &'a [char])
    ensures
        out@ == api_of(head@),
{
    match last_halves(head, '$') {
        Some((_, name)) => trimmed(name),
        None => rest(head, head.len()),
    }
}

/// The key and the value of a segment.
pub(crate) fn parameter<'a>(segment: &'a [char]) -> (res: Option<(&'a [char], &'a [char])>)
    ensures
        pair_view(res) == parameter_of(segment@),
{
    match halves(trimmed(segment), '$') {
        Some((key, value)) => Some((trimmed(key), trimmed(value))),
        None => None,
    }
}

/// The numeral for a number.
pub(crate) fn numeral(n: u64) -> (out: Vec<char>)
    ensures
        out@ == decimal(n as nat),
{
    let mut out: Vec<char> = Vec::new();
    append_decimal(&mut out, n);
    out
}

/// A key, `$` and a value.
fn labelled(label: &str, value: &[char]) -> (out: Vec<char>)
    ensures
        out@ == label@ + "$ "@ + value@,
{
    let mut out = chars_of(label);
    append_str(&mut out, "$ ");
    append(&mut out, value);
    out
}

/// The numerals for a list of card titles.
fn numerals_for_cards(list: &[char], references: &[(String, CardScriptId)]) -> (res: Option<
    Vec<Vec<char>>,
>)
    ensures
        match res {
            Some(numerals) => card_numerals(list@, reference_views(references@)) == Some(
                owned_views(numerals@),
            ),
            None => card_numerals(list@, reference_views(references@)) is None,
        },
{
    let ghost rows = reference_views(references@);
    let names = pieces(list, ',');
    let ghost all = split(list@, ',');
    let mut out: Vec<Vec<char>> = Vec::new();
    let mut i: usize = 0;
    while i < names.len()
        invariant
            i <= names@.len(),
            all == views(names@),
            all == split(list@, ','),
            rows == reference_views(references@),
            out@.len() == i,
            forall|j: int|
                0 <= j < i ==> id_for_name(#[trigger] all[j], rows) is Some && out@[j]@ == decimal(
                    id_for_name(all[j], rows)->0 as nat,
                ),
        decreases names@.len() - i,
    {
        assert(all[i as int] == names@[i as int]@);
        match numeric_id_for_title(names[i], references) {
            Some(id) => {
                out.push(numeral(id.0 as u64));
            },
            None => {
                return None;
            },
        }
        i += 1;
    }
    assert(card_numerals(list@, rows)->0 =~= owned_views(out@));
    Some(out)
}

/// The key and the list of a parameter that takes card titles.
fn title_list<'a>(api: &[char], key: &[char], value: &'a [char]) -> (res: Option<
    (&'static str, &'a [char]),
>)
    ensures
        match res {
            Some((label, list)) => card_list(api@, key@, value@) == Some((label@, list@)),
            None => card_list(api@, key@, value@) is None,
        },
{
    if reads(api, "NameCard") && reads(key, "ChooseFromList") {
        Some(("ChooseFromCatalogIds", value))
    } else if reads(key, "Spellbook") {
        Some(("SpellbookCatalogIds", value))
    } else if reads(api, "MakeCard") && (reads(key, "Names") || reads(key, "Choices")) {
        Some(("CatalogIds", value))
    } else if reads(api, "Play") && reads(key, "AnySupportedCard") && has_prefix(value, "Names:") {
        proof {
            reveal_strlit("Names:");
        }
        Some(("AnySupportedCatalogIds", rest(value, 6)))
    } else {
        None
    }
}

/// The key that takes the number of a parameter's card title.
fn title_key(api: &[char], key: &[char]) -> (res: Option<&'static str>)
    ensures
        match res {
            Some(label) => card_key(api@, key@) == Some(label@),
            None => card_key(api@, key@) is None,
        },
{
    if (reads(api, "MakeCard") || reads(api, "Meld")) && reads(key, "Name") {
        Some("CatalogId")
    } else if reads(api, "Meld") && reads(key, "Primary") {
        Some("PrimaryCatalogId")
    } else if reads(api, "Meld") && reads(key, "Secondary") {
        Some("SecondaryCatalogId")
    } else if reads(api, "CopyPermanent") && reads(key, "DefinedName") {
        Some("DefinedCatalogId")
    } else {
        None
    }
}

/// One segment with its card titles replaced.
fn rewritten_card_segment(
    api: &[char],
    segment: &[char],
    references: &[(String, CardScriptId)],
) -> (out: Vec<char>)
    ensures
        out@ == card_segment(api@, segment@, reference_views(references@)),
{
    match parameter(segment) {
        Some((key, value)) => match title_list(api, key, value) {
            Some((label, list)) => match numerals_for_cards(list, references) {
                Some(numerals) => {
                    let ids = joined(&numerals, ",");
                    labelled(label, ids.as_slice())
                },
                None => to_owned(trimmed(segment)),
            },
            None => match title_key(api, key) {
                Some(label) => match numeric_id_for_title(value, references) {
                    Some(id) => {
                        let digits = numeral(id.0 as u64);
                        labelled(label, digits.as_slice())
                    },
                    None => to_owned(trimmed(segment)),
                },
                None => to_owned(trimmed(segment)),
            },
        },
        None => to_owned(trimmed(segment)),
    }
}

/// A top-level field that names one card, with the card's number in the place
/// of its title.
pub fn rewrite_top_level_card_reference(
    line: &str,
    references: &[(String, CardScriptId)],
) -> (res: Option<String>)
    ensures
        optional_view(res) == top_level_reference(line@, reference_views(references@)),
{
    let chars = chars_of(line);
    let text = chars.as_slice();
    if has_prefix(text, "K:Partner with:") {
        proof {
            reveal_strlit("K:Partner with:");
        }
        let value = rest(text, 15);
        let title = match last_halves(value, ':') {
            Some((title, _)) => title,
            None => value,
        };
        return match numeric_id_for_title(title, references) {
            Some(id) => {
                let mut out = chars_of("K:PartnerWithId:");
                append_decimal(&mut out, id.0 as u64);
                Some(string_of(out.as_slice()))
            },
            None => None,
        };
    }
    match halves(text, ':') {
        Some((key, value)) => {
            let label = if reads(trimmed(key), "CopyFaceFrom") {
                "CopyFaceFromId"
            } else if reads(trimmed(key), "MeldPair") {
                "MeldPairId"
            } else {
                return None;
            };
            match numeric_id_for_title(value, references) {
                Some(id) => {
                    let mut out = chars_of(label);
                    append_str(&mut out, ":");
                    append_decimal(&mut out, id.0 as u64);
                    Some(string_of(out.as_slice()))
                },
                None => None,
            }
        },
        None => None,
    }
}

/// Every line has at least one segment.
pub proof fn lemma_split_not_empty(text: Seq<char>, separator: char)
    ensures
        split(text, separator).len() > 0,
{
}

/// Replaces the card titles in the parameters of a line by numbers.
pub fn rewrite_card_reference_parameters(
    line: &str,
    references: &[(String, CardScriptId)],
) -> (out: String)
    ensures
        out@ == card_parameters(line@, reference_views(references@)),
{
    if let Some(rewritten) = rewrite_top_level_card_reference(line, references) {
        return rewritten;
    }
    let ghost rows = reference_views(references@);
    let chars = chars_of(line);
    let segments = pieces(chars.as_slice(), '|');
    let ghost all = split(line@, '|');
    proof {
        lemma_split_not_empty(line@, '|');
        assert(all.len() == segments@.len());
        assert(all[0] == segments@[0]@);
    }
    let api = api_name(segments[0]);
    let mut out: Vec<Vec<char>> = Vec::new();
    out.push(to_owned(trimmed(segments[0])));
    let ghost wanted = Seq::new(
        all.len(),
        |i: int|
            if i == 0 {
                trim(all[0])
            } else {
                card_segment(api@, all[i], rows)
            },
    );
    let mut i: usize = 1;
    while i < segments.len()
        invariant
            1 <= i <= segments@.len(),
            all == views(segments@),
            all.len() == wanted.len(),
            rows == reference_views(references@),
            wanted == Seq::new(
                all.len(),
                |i: int|
                    if i == 0 {
                        trim(all[0])
                    } else {
                        card_segment(api@, all[i], rows)
                    },
            ),
            out@.len() == i,
            forall|j: int| 0 <= j < i ==> #[trigger] out@[j]@ == wanted[j],
        decreases segments@.len() - i,
    {
        assert(all[i as int] == segments@[i as int]@);
        out.push(rewritten_card_segment(api, segments[i], references));
        i += 1;
    }
    assert(owned_views(out@) =~= wanted);
    let text = joined(&out, " | ");
    string_of(text.as_slice())
}

/// The numerals for a list of token keys.
fn numerals_for_tokens(list: &[char], tokens: &TokenIndex) -> (res: Option<Vec<Vec<char>>>)
    ensures
        match res {
            Some(numerals) => token_numerals(list@, tokens@) == Some(owned_views(numerals@)),
            None => token_numerals(list@, tokens@) is None,
        },
{
    let names = pieces(list, ',');
    let ghost all = split(list@, ',');
    let mut out: Vec<Vec<char>> = Vec::new();
    let mut i: usize = 0;
    while i < names.len()
        invariant
            i <= names@.len(),
            all == views(names@),
            all == split(list@, ','),
            out@.len() == i,
            forall|j: int|
                0 <= j < i ==> tokens@.dom().contains(trim(#[trigger] all[j])) && out@[j]@
                    == decimal(tokens@[trim(all[j])].0 as nat),
        decreases names@.len() - i,
    {
        assert(all[i as int] == names@[i as int]@);
        let name = string_of(trimmed(names[i]));
        match tokens.get(name.as_str()) {
            Some(id) => {
                out.push(numeral(id.0 as u64));
            },
            None => {
                return None;
            },
        }
        i += 1;
    }
    assert(token_numerals(list@, tokens@)->0 =~= owned_views(out@));
    Some(out)
}

/// One segment with its token keys replaced.
fn rewritten_token_segment(segment: &[char], tokens: &TokenIndex) -> (out: Vec<char>)
    ensures
        out@ == token_segment(segment@, tokens@),
{
    match parameter(segment) {
        Some((key, value)) => {
            if reads(key, "TokenScript") {
                match numerals_for_tokens(value, tokens) {
                    Some(numerals) => {
                        let ids = joined(&numerals, ",");
                        let mut out = chars_of("TokenScriptIds$ ");
                        append(&mut out, ids.as_slice());
                        out
                    },
                    None => to_owned(trimmed(segment)),
                }
            } else {
                to_owned(trimmed(segment))
            }
        },
        None => to_owned(trimmed(segment)),
    }
}

/// Replaces the token keys in the parameters of a line by numbers.
pub fn rewrite_token_script_parameters(line: &str, tokens: &TokenIndex) -> (out: String)
    ensures
        out@ == token_parameters(line@, tokens@),
{
    let chars = chars_of(line);
    let segments = pieces(chars.as_slice(), '|');
    let ghost all = split(line@, '|');
    let mut out: Vec<Vec<char>> = Vec::new();
    let mut i: usize = 0;
    while i < segments.len()
        invariant
            i <= segments@.len(),
            all == views(segments@),
            out@.len() == i,
            forall|j: int| 0 <= j < i ==> #[trigger] out@[j]@ == token_segment(all[j], tokens@),
        decreases segments@.len() - i,
    {
        assert(all[i as int] == segments@[i as int]@);
        out.push(rewritten_token_segment(segments[i], tokens));
        i += 1;
    }
    assert(owned_views(out@) =~= Seq::new(all.len(), |i: int| token_segment(all[i], tokens@)));
    let text = joined(&out, " | ");
    string_of(text.as_slice())
}

/// Whether a parameter of the effect names a runtime object.
pub(crate) fn names_object(api: &[char], key: &[char]) -> (res: bool)
    ensures
        res == is_object_key(api@, key@),
{
    reads(key, "NewName") || reads(key, "SetName") || (reads(key, "Name") && (reads(api, "Effect") || reads(
        api,
        "ReplaceEffect",
    ) || reads(api, "ReplaceSplitDamage") || reads(api, "Animate")))
}

/// Whether a segment given as characters is for display.
fn is_for_display(segment: &[char]) -> (res: bool)
    ensures
        res == display_segment(segment@),
{
    match parameter(segment) {
        Some((key, _)) => has_suffix(key, "Description") || has_suffix(key, "Prompt") || has_suffix(
            key,
            "Desc",
        ) || has_suffix(key, "Message") || has_suffix(key, "Title") || reads(key, "Image") || reads(
            key,
            "SpellbookName",
        ),
        None => false,
    }
}

/// Whether people read the segment and the rules do not.
pub fn is_display_parameter(segment: &str) -> (res: bool)
    ensures
        res == display_segment(segment@),
{
    let chars = chars_of(segment);
    is_for_display(chars.as_slice())
}

/// Removes the display parameters from a line.
pub fn strip_display_parameters(line: &str) -> (out: String)
    ensures
        out@ == without_display(line@),
{
    let chars = chars_of(line);
    let segments = pieces(chars.as_slice(), '|');
    let ghost all = split(line@, '|');
    let mut out: Vec<Vec<char>> = Vec::new();
    let mut i: usize = 0;
    assert(owned_views(out@) =~= kept_segments(all.take(0)));
    while i < segments.len()
        invariant
            i <= segments@.len(),
            all == views(segments@),
            owned_views(out@) == kept_segments(all.take(i as int)),
        decreases segments@.len() - i,
    {
        proof {
            assert(all.take(i + 1).drop_last() == all.take(i as int));
            assert(all.take(i + 1).last() == segments@[i as int]@);
        }
        if !is_for_display(segments[i]) {
            let ghost before = owned_views(out@);
            let kept = to_owned(trimmed(segments[i]));
            out.push(kept);
            assert(owned_views(out@) =~= before.push(kept@));
        }
        i += 1;
    }
    assert(all.take(all.len() as int) == all);
    let text = joined(&out, " | ");
    string_of(text.as_slice())
}

} // verus!
