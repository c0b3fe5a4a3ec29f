//! From a script with titles and display text to an anonymous one.

use vstd::prelude::*;

use crate::contextual::{contextual_references, rewrite_contextual_card_references};
use crate::ids::{CardScriptId, TokenScriptId};
use crate::keywords::{keyword_vocabulary, normalize_keyword_vocabulary};
use crate::maps::row_map;
use crate::numerals::{append_decimal, decimal};
use crate::parameters::{
    card_parameters, lemma_split_not_empty, rewrite_card_reference_parameters,
    rewrite_token_script_parameters, strip_display_parameters, token_parameters, without_display,
    TokenIndex,
};
use crate::qualifiers::{
    anonymize_set_qualifiers, named_qualifiers, replace_named_qualifiers, set_qualifiers,
};
use crate::references::{id_view, reference_views};
use crate::runtime::{
    anonymize_runtime_object_names, object_names, object_parameters, runtime_object_names,
};
use crate::text::{
    append_str, chars_of, has_prefix, line_slices, lines, pieces, reads, split, starts_with,
    string_of, string_views, trim, trim_start, trimmed, trimmed_start, views,
};

verus! {

/// Whether a key is that of a field that holds display text, or that guides
/// deck building and drafting alone.
pub open spec fn removed_key(key: Seq<char>) -> bool {
    ||| key == "Name"@
    ||| key == "Oracle"@
    ||| key == "Text"@
    ||| key == "DeckHints"@
    ||| key == "ODeckHints"@
    ||| key == "DeckHas"@
    ||| key == "DeckNeeds"@
    ||| key == "Draft"@
    ||| key == "AI"@
    ||| key == "Variant"@
}

/// Whether a top-level field holds display text, or guides deck building and
/// drafting alone.
pub open spec fn removed_field(line: Seq<char>) -> bool {
    ||| starts_with(line, "K:DeckLimit:"@)
    ||| removed_key(trim(split(line, ':')[0]))
}

/// Whether a line of a script goes into the anonymous script: it is not blank,
/// no comment and no removed field.
pub open spec fn kept_line(line: Seq<char>) -> bool {
    &&& trim(line).len() > 0
    &&& !starts_with(trim_start(line), "#"@)
    &&& !removed_field(line)
}

/// A line with every title, name and set code replaced, in the vocabulary of
/// the rules.
pub open spec fn numbered_line(
    line: Seq<char>,
    references: Seq<(Seq<char>, u32)>,
    tokens: Seq<(Seq<char>, TokenScriptId)>,
    names: Seq<Seq<char>>,
    owner: Option<u32>,
) -> Seq<char> {
    let qualified = named_qualifiers(line, references, tokens);
    let carded = card_parameters(qualified, references);
    let tokened = token_parameters(carded, row_map(tokens));
    let numbered = object_parameters(tokened, names);
    let placed = contextual_references(numbered, references, owner);
    let worded = keyword_vocabulary(placed);
    set_qualifiers(worded)
}

/// A line with every title, name and set code replaced, in the vocabulary of
/// the rules and without display text.
pub open spec fn anonymous_line(
    line: Seq<char>,
    references: Seq<(Seq<char>, u32)>,
    tokens: Seq<(Seq<char>, TokenScriptId)>,
    names: Seq<Seq<char>>,
    owner: Option<u32>,
) -> Seq<char> {
    without_display(numbered_line(line, references, tokens, names, owner))
}

/// What becomes of a row: nothing where it is not kept, or where a removed
/// field comes out from behind display text.
pub open spec fn anonymous_row(
    line: Seq<char>,
    references: Seq<(Seq<char>, u32)>,
    tokens: Seq<(Seq<char>, TokenScriptId)>,
    names: Seq<Seq<char>>,
    owner: Option<u32>,
) -> Option<Seq<char>> {
    let out = anonymous_line(line, references, tokens, names, owner);
    if kept_line(line) && !removed_field(out) {
        Some(out)
    } else {
        None
    }
}

/// What becomes of the rows, each line closed by a line feed.
pub open spec fn anonymous_body(
    rows: Seq<Seq<char>>,
    references: Seq<(Seq<char>, u32)>,
    tokens: Seq<(Seq<char>, TokenScriptId)>,
    names: Seq<Seq<char>>,
    owner: Option<u32>,
) -> Seq<char>
    decreases rows.len(),
{
    if rows.len() == 0 {
        Seq::empty()
    } else {
        let earlier = anonymous_body(rows.drop_last(), references, tokens, names, owner);
        match anonymous_row(rows.last(), references, tokens, names, owner) {
            Some(line) => earlier + line + seq!['\n'],
            None => earlier,
        }
    }
}

/// The three lines at the head of an anonymous card script.
pub open spec fn card_header(id: nat, color_identity: Seq<char>, set_group: Seq<char>) -> Seq<
    char,
> {
    "Id:"@ + decimal(id) + "\n"@ + "ColorIdentity:"@ + color_identity + "\n"@ + "OriginSet:"@
        + set_group + "\n"@
}

/// The anonymous form of a card script.
pub open spec fn anonymous_script(
    script: Seq<char>,
    id: u32,
    color_identity: Seq<char>,
    set_group: Seq<char>,
    references: Seq<(Seq<char>, u32)>,
    tokens: Seq<(Seq<char>, TokenScriptId)>,
) -> Seq<char> {
    card_header(id as nat, color_identity, set_group) + anonymous_body(
        lines(script),
        references,
        tokens,
        object_names(script),
        Some(id),
    )
}

/// The anonymous form of a token script.
pub open spec fn anonymous_token_script(
    script: Seq<char>,
    id: u32,
    references: Seq<(Seq<char>, u32)>,
    tokens: Seq<(Seq<char>, TokenScriptId)>,
) -> Seq<char> {
    "TokenId:"@ + decimal(id as nat) + "\n"@ + "ColorIdentity:\n"@ + anonymous_body(
        lines(script),
        references,
        tokens,
        object_names(script),
        None,
    )
}

/// Whether a line given as characters is a removed field.
fn is_removed(line: &[char]) -> (res: bool)
    ensures
        res == removed_field(line@),
{
    let fields = pieces(line, ':');
    proof {
        lemma_split_not_empty(line@, ':');
        assert(split(line@, ':')[0] == fields@[0]@);
    }
    let key = trimmed(fields[0]);
    has_prefix(line, "K:DeckLimit:") || reads(key, "Name") || reads(key, "Oracle") || reads(key, "Text")
        || reads(key, "DeckHints") || reads(key, "ODeckHints") || reads(key, "DeckHas") || reads(
        key,
        "DeckNeeds",
    ) || reads(key, "Draft") || reads(key, "AI") || reads(key, "Variant")
}

/// Whether a top-level field holds display text, or guides deck building and
/// drafting alone.
pub fn is_removed_top_level_field(line: &str) -> (res: bool)
    ensures
        res == removed_field(line@),
{
    let chars = chars_of(line);
    is_removed(chars.as_slice())
}

/// Replaces every title, name and set code in an executable line, and removes
/// its display text.
pub fn sanitize_runtime_line(
    line: &str,
    numeric_name_refs: &[(String, CardScriptId)],
    token_index: &TokenIndex,
    runtime_names: &[String],
    owner_id: Option<CardScriptId>,
) -> (out: String)
    ensures
        out@ == anonymous_line(
            line@,
            reference_views(numeric_name_refs@),
            token_index.rows(),
            string_views(runtime_names@),
            id_view(owner_id),
        ),
{
    let numeric = replace_named_qualifiers(line, numeric_name_refs, token_index);
    let numeric = rewrite_card_reference_parameters(numeric.as_str(), numeric_name_refs);
    let numeric = rewrite_token_script_parameters(numeric.as_str(), token_index);
    let numeric = anonymize_runtime_object_names(numeric.as_str(), runtime_names);
    let numeric = rewrite_contextual_card_references(
        numeric.as_str(),
        numeric_name_refs,
        owner_id,
    );
    let numeric = normalize_keyword_vocabulary(numeric.as_str());
    let numeric = anonymize_set_qualifiers(numeric.as_str());
    strip_display_parameters(numeric.as_str())
}

/// Appends the anonymous lines of a script.
fn append_body(
    out: &mut Vec<char>,
    script: &str,
    numeric_name_refs: &[(String, CardScriptId)],
    token_index: &TokenIndex,
    owner_id: Option<CardScriptId>,
)
    ensures
        final(out)@ == old(out)@ + anonymous_body(
            lines(script@),
            reference_views(numeric_name_refs@),
            token_index.rows(),
            object_names(script@),
            id_view(owner_id),
        ),
{
    let runtime_names = runtime_object_names(script);
    let chars = chars_of(script);
    let rows = line_slices(chars.as_slice());
    let ghost all = lines(script@);
    let ghost references = reference_views(numeric_name_refs@);
    let ghost names = object_names(script@);
    let ghost owner = id_view(owner_id);
    let ghost start = out@;
    let mut i: usize = 0;
    while i < rows.len()
        invariant
            i <= rows@.len(),
            all == views(rows@),
            references == reference_views(numeric_name_refs@),
            names == string_views(runtime_names@),
            owner == id_view(owner_id),
            out@ == start + anonymous_body(
                all.take(i as int),
                references,
                token_index.rows(),
                names,
                owner,
            ),
        decreases rows@.len() - i,
    {
        let ghost before = out@;
        proof {
            assert(all.take(i + 1).drop_last() == all.take(i as int));
            assert(all.take(i + 1).last() == rows@[i as int]@);
        }
        let row = rows[i];
        let blank = trimmed(row).len() == 0;
        if !blank && !has_prefix(trimmed_start(row), "#") && !is_removed(row) {
            let line = string_of(row);
            let sanitized = sanitize_runtime_line(
                line.as_str(),
                numeric_name_refs,
                token_index,
                runtime_names.as_slice(),
                owner_id,
            );
            if !is_removed_top_level_field(sanitized.as_str()) {
                append_str(out, sanitized.as_str());
                out.push('\n');
                assert(out@ =~= before + sanitized@ + seq!['\n']);
            }
        }
        assert(out@ =~= start + anonymous_body(
            all.take(i + 1),
            references,
            token_index.rows(),
            names,
            owner,
        ));
        i += 1;
    }
    assert(all.take(all.len() as int) == all);
}

/// The anonymous form of a card script: the header with the card's numeric
/// identity, and the executable lines.
pub fn sanitize_script(
    script: &str,
    card_id: CardScriptId,
    color_identity: &str,
    set_group: &str,
    numeric_name_refs: &[(String, CardScriptId)],
    token_index: &TokenIndex,
) -> (out: String)
    ensures
        out@ == anonymous_script(
            script@,
            card_id.0,
            color_identity@,
            set_group@,
            reference_views(numeric_name_refs@),
            token_index.rows(),
        ),
{
    let mut out = chars_of("Id:");
    append_decimal(&mut out, card_id.0 as u64);
    append_str(&mut out, "\n");
    append_str(&mut out, "ColorIdentity:");
    append_str(&mut out, color_identity);
    append_str(&mut out, "\n");
    append_str(&mut out, "OriginSet:");
    append_str(&mut out, set_group);
    append_str(&mut out, "\n");
    append_body(&mut out, script, numeric_name_refs, token_index, Some(card_id));
    string_of(out.as_slice())
}

/// The anonymous form of a token script.
pub fn sanitize_token_script(
    script: &str,
    token_id: TokenScriptId,
    numeric_name_refs: &[(String, CardScriptId)],
    token_index: &TokenIndex,
) -> (out: String)
    ensures
        out@ == anonymous_token_script(
            script@,
            token_id.0,
            reference_views(numeric_name_refs@),
            token_index.rows(),
        ),
{
    let mut out = chars_of("TokenId:");
    append_decimal(&mut out, token_id.0 as u64);
    append_str(&mut out, "\n");
    append_str(&mut out, "ColorIdentity:\n");
    append_body(&mut out, script, numeric_name_refs, token_index, None);
    string_of(out.as_slice())
}

} // verus!
