//! Which rows of a script stay, and what they pass through.

use vstd::prelude::*;

use crate::contextual::contextual_references;
use crate::ids::TokenScriptId;
use crate::keywords::keyword_vocabulary;
use crate::maps::row_map;
use crate::numerals::decimal;
use crate::parameters::{card_parameters, token_parameters, without_display};
use crate::qualifiers::{named_qualifiers, set_qualifiers};
use crate::runtime::{object_names, object_parameters};
use crate::sanitize::{
    anonymous_body, anonymous_line, anonymous_script, anonymous_token_script, kept_line,
    removed_field,
};
use crate::segment_laws::{is_blank, law_white_space_is_trimmed};
use crate::text::{is_white_space, lines, split, starts_with, trim, trim_end, trim_start};

verus! {

/// Whether the key of a row is one that people read, or that guides deck
/// building and drafting alone.
pub open spec fn is_for_people_or_decks(row: Seq<char>) -> bool {
    let key = trim(split(row, ':')[0]);
    ||| key == "Name"@
    ||| key == "Oracle"@
    ||| key == "Text"@
    ||| key == "DeckHints"@
    ||| key == "ODeckHints"@
    ||| key == "DeckHas"@
    ||| key == "DeckNeeds"@
    ||| key == "Draft"@
    ||| key == "AI"@
    ||| key == "Variant"@
    ||| starts_with(row, "K:DeckLimit:"@)
}

/// Whether a row is a comment: its first character that is no white space is
/// a number sign.
pub open spec fn is_comment(row: Seq<char>) -> bool {
    exists|before: Seq<char>, after: Seq<char>|
        row == #[trigger] (before + seq!['#'] + after) && is_blank(before)
}

proof fn lemma_blank(text: Seq<char>)
    ensures
        (trim(text).len() == 0) == is_blank(text),
{
    lemma_trim_parts(text);
    if is_blank(text) {
        let none = Seq::<char>::empty();
        assert(text =~= text + none + none);
        law_white_space_is_trimmed(text, none, none);
    }
}

proof fn lemma_trim_start_parts(text: Seq<char>) -> (before: Seq<char>)
    ensures
        is_blank(before),
        text == before + trim_start(text),
    decreases text.len(),
{
    if text.len() > 0 && is_white_space(text[0]) {
        let inner = lemma_trim_start_parts(text.drop_first());
        let before = seq![text[0]] + inner;
        assert forall|i: int| 0 <= i < before.len() implies is_white_space(
            #[trigger] before[i],
        ) by {
            if i > 0 {
                assert(before[i] == inner[i - 1]);
            }
        }
        assert(text =~= seq![text[0]] + text.drop_first());
        assert(text =~= before + trim_start(text));
        before
    } else {
        assert(text =~= Seq::<char>::empty() + text);
        Seq::empty()
    }
}

proof fn lemma_trim_end_parts(text: Seq<char>) -> (after: Seq<char>)
    ensures
        is_blank(after),
        text == trim_end(text) + after,
    decreases text.len(),
{
    if text.len() > 0 && is_white_space(text.last()) {
        let inner = lemma_trim_end_parts(text.drop_last());
        let after = inner.push(text.last());
        assert forall|i: int| 0 <= i < after.len() implies is_white_space(#[trigger] after[i]) by {
            if i < inner.len() {
                assert(after[i] == inner[i]);
            }
        }
        assert(text =~= text.drop_last().push(text.last()));
        assert(text =~= trim_end(text) + after);
        after
    } else {
        assert(text =~= text + Seq::<char>::empty());
        Seq::empty()
    }
}

proof fn lemma_trim_parts(text: Seq<char>)
    ensures
        trim(text).len() == 0 ==> is_blank(text),
{
    let before = lemma_trim_start_parts(text);
    let after = lemma_trim_end_parts(trim_start(text));
    if trim(text).len() == 0 {
        assert forall|i: int| 0 <= i < text.len() implies is_white_space(#[trigger] text[i]) by {
            if i < before.len() {
                assert(text[i] == before[i]);
            } else {
                assert(text[i] == trim_start(text)[i - before.len()]);
                assert(trim_start(text) =~= after);
                assert(text[i] == after[i - before.len()]);
            }
        }
    }
}

proof fn lemma_comment(row: Seq<char>)
    ensures
        starts_with(trim_start(row), "#"@) == is_comment(row),
{
    reveal_strlit("#");
    if starts_with(trim_start(row), "#"@) {
        let before = lemma_trim_start_parts(row);
        let body = trim_start(row);
        assert(body.subrange(0, 1)[0] == body[0]);
        assert(body =~= seq!['#'] + body.skip(1));
        assert(row =~= before + seq!['#'] + body.skip(1));
    }
    if is_comment(row) {
        let (before, after) = choose|before: Seq<char>, after: Seq<char>|
            row == #[trigger] (before + seq!['#'] + after) && is_blank(before);
        lemma_trim_start_is(before, seq!['#'] + after);
        assert(row =~= before + (seq!['#'] + after));
        assert((seq!['#'] + after).subrange(0, 1) =~= "#"@);
    }
}

proof fn lemma_trim_start_is(before: Seq<char>, text: Seq<char>)
    requires
        is_blank(before),
        text.len() > 0,
        !is_white_space(text[0]),
    ensures
        trim_start(before + text) == text,
    decreases before.len(),
{
    if before.len() == 0 {
        assert(before + text =~= text);
    } else {
        let rest = before.drop_first();
        assert forall|i: int| 0 <= i < rest.len() implies is_white_space(#[trigger] rest[i]) by {
            assert(rest[i] == before[i + 1]);
        }
        assert((before + text)[0] == before[0]);
        assert((before + text).drop_first() =~= rest + text);
        lemma_trim_start_is(rest, text);
    }
}

/// Whether a row has no place in an anonymous script.
pub open spec fn is_left_out(row: Seq<char>) -> bool {
    is_blank(row) || is_comment(row) || is_for_people_or_decks(row)
}

proof fn lemma_left_out(row: Seq<char>)
    ensures
        kept_line(row) == !is_left_out(row),
        removed_field(row) == is_for_people_or_decks(row),
{
    lemma_blank(row);
    lemma_comment(row);
}

/// Blank rows, comments, and the fields for people and for deck building leave
/// no trace: the body comes out as without them.
pub proof fn law_rows_are_left_out(
    before: Seq<Seq<char>>,
    row: Seq<char>,
    references: Seq<(Seq<char>, u32)>,
    tokens: Seq<(Seq<char>, TokenScriptId)>,
    names: Seq<Seq<char>>,
    owner: Option<u32>,
)
    requires
        is_left_out(row),
    ensures
        anonymous_body(before.push(row), references, tokens, names, owner) == anonymous_body(
            before,
            references,
            tokens,
            names,
            owner,
        ),
{
    lemma_left_out(row);
    assert(before.push(row).drop_last() =~= before);
}

/// Every other row goes into the body as its anonymous line, unless that line
/// is a field for people or for deck building itself.
pub proof fn law_other_rows_go_in(
    before: Seq<Seq<char>>,
    row: Seq<char>,
    references: Seq<(Seq<char>, u32)>,
    tokens: Seq<(Seq<char>, TokenScriptId)>,
    names: Seq<Seq<char>>,
    owner: Option<u32>,
)
    requires
        !is_left_out(row),
    ensures
        anonymous_body(before.push(row), references, tokens, names, owner) == if is_for_people_or_decks(
            anonymous_line(row, references, tokens, names, owner),
        ) {
            anonymous_body(before, references, tokens, names, owner)
        } else {
            anonymous_body(before, references, tokens, names, owner) + anonymous_line(
                row,
                references,
                tokens,
                names,
                owner,
            ) + seq!['\n']
        },
{
    lemma_left_out(row);
    lemma_left_out(anonymous_line(row, references, tokens, names, owner));
    assert(before.push(row).drop_last() =~= before);
}

/// The stages that a line passes through, in their order.
pub open spec fn stage(
    at: int,
    line: Seq<char>,
    references: Seq<(Seq<char>, u32)>,
    tokens: Seq<(Seq<char>, TokenScriptId)>,
    names: Seq<Seq<char>>,
    owner: Option<u32>,
) -> Seq<char> {
    if at == 0 {
        named_qualifiers(line, references, tokens)
    } else if at == 1 {
        card_parameters(line, references)
    } else if at == 2 {
        token_parameters(line, row_map(tokens))
    } else if at == 3 {
        object_parameters(line, names)
    } else if at == 4 {
        contextual_references(line, references, owner)
    } else if at == 5 {
        keyword_vocabulary(line)
    } else if at == 6 {
        set_qualifiers(line)
    } else {
        without_display(line)
    }
}

/// No stage is left out: where the stages before one leave a line as it is, and
/// those behind it leave what it makes of the line, that is what comes out.
pub proof fn law_no_stage_is_left_out(
    at: int,
    line: Seq<char>,
    references: Seq<(Seq<char>, u32)>,
    tokens: Seq<(Seq<char>, TokenScriptId)>,
    names: Seq<Seq<char>>,
    owner: Option<u32>,
)
    requires
        0 <= at < 8,
        forall|earlier: int|
            0 <= earlier < at ==> #[trigger] stage(earlier, line, references, tokens, names, owner)
                == line,
        forall|later: int|
            at < later < 8 ==> #[trigger] stage(
                later,
                stage(at, line, references, tokens, names, owner),
                references,
                tokens,
                names,
                owner,
            ) == stage(at, line, references, tokens, names, owner),
    ensures
        anonymous_line(line, references, tokens, names, owner) == stage(
            at,
            line,
            references,
            tokens,
            names,
            owner,
        ),
{
    let out = stage(at, line, references, tokens, names, owner);
    let a0 = stage(0, line, references, tokens, names, owner);
    let a1 = stage(1, line, references, tokens, names, owner);
    let a2 = stage(2, line, references, tokens, names, owner);
    let a3 = stage(3, line, references, tokens, names, owner);
    let a4 = stage(4, line, references, tokens, names, owner);
    let a5 = stage(5, line, references, tokens, names, owner);
    let a6 = stage(6, line, references, tokens, names, owner);
    let b1 = stage(1, out, references, tokens, names, owner);
    let b2 = stage(2, out, references, tokens, names, owner);
    let b3 = stage(3, out, references, tokens, names, owner);
    let b4 = stage(4, out, references, tokens, names, owner);
    let b5 = stage(5, out, references, tokens, names, owner);
    let b6 = stage(6, out, references, tokens, names, owner);
    let b7 = stage(7, out, references, tokens, names, owner);
}

/// A card's script begins with the card's number, its colors and its set, each
/// on a line; then come the rows, as the script with this number has them.
pub proof fn law_card_scripts_are_headed(
    script: Seq<char>,
    id: u32,
    colors: Seq<char>,
    set: Seq<char>,
    references: Seq<(Seq<char>, u32)>,
    tokens: Seq<(Seq<char>, TokenScriptId)>,
)
    ensures
        anonymous_script(script, id, colors, set, references, tokens) == "Id:"@ + decimal(id as nat)
            + "\nColorIdentity:"@ + colors + "\nOriginSet:"@ + set + "\n"@ + anonymous_body(
            lines(script),
            references,
            tokens,
            object_names(script),
            Some(id),
        ),
{
    reveal_strlit("\n");
    reveal_strlit("ColorIdentity:");
    reveal_strlit("OriginSet:");
    reveal_strlit("\nColorIdentity:");
    reveal_strlit("\nOriginSet:");
    assert("\nColorIdentity:"@ =~= "\n"@ + "ColorIdentity:"@);
    assert("\nOriginSet:"@ =~= "\n"@ + "OriginSet:"@);
    assert(anonymous_script(script, id, colors, set, references, tokens) =~= "Id:"@ + decimal(
        id as nat,
    ) + "\nColorIdentity:"@ + colors + "\nOriginSet:"@ + set + "\n"@ + anonymous_body(
        lines(script),
        references,
        tokens,
        object_names(script),
        Some(id),
    ));
}

/// A token's script begins with the token's number and with a color line that
/// is empty; then come the rows, which belong to no card.
pub proof fn law_token_scripts_are_headed(
    script: Seq<char>,
    id: u32,
    references: Seq<(Seq<char>, u32)>,
    tokens: Seq<(Seq<char>, TokenScriptId)>,
)
    ensures
        anonymous_token_script(script, id, references, tokens) == "TokenId:"@ + decimal(id as nat)
            + "\nColorIdentity:\n"@ + anonymous_body(
            lines(script),
            references,
            tokens,
            object_names(script),
            None,
        ),
{
    reveal_strlit("\n");
    reveal_strlit("ColorIdentity:\n");
    reveal_strlit("\nColorIdentity:\n");
    assert("\nColorIdentity:\n"@ =~= "\n"@ + "ColorIdentity:\n"@);
    assert(anonymous_token_script(script, id, references, tokens) =~= "TokenId:"@ + decimal(
        id as nat,
    ) + "\nColorIdentity:\n"@ + anonymous_body(
        lines(script),
        references,
        tokens,
        object_names(script),
        None,
    ));
}

} // verus!
