//! The head of an anonymous script, and what becomes of it when its origin set
//! is rewritten.

use vstd::prelude::*;

use crate::anonymity::{anonymous_rows, law_anonymous_bodies_hold_no_display_text};
use crate::ids::TokenScriptId;
use crate::line_laws::lemma_rows_fit;
use crate::numerals::{decimal, is_digit, lemma_decimal};
use crate::origin::{lemma_lines_fit, 
    count_lines, count_prefixed, id_line, rewritten, with_origin, with_origins,
};
use crate::runtime::object_names;
use crate::sanitize::{anonymous_script, card_header};
use crate::tables::{fits_line, lemma_lines_unlines};
use crate::text::{lemma_find_char_is, lines, starts_with, unlines};

verus! {

/// The line with a card's colors.
pub open spec fn color_line(color_identity: Seq<char>) -> Seq<char> {
    "ColorIdentity:"@ + color_identity
}

/// The line with a card's origin set.
pub open spec fn origin_line(set: Seq<char>) -> Seq<char> {
    "OriginSet:"@ + set
}

/// The lines of an anonymous card script.
pub open spec fn script_rows(
    script: Seq<char>,
    id: u32,
    color_identity: Seq<char>,
    set: Seq<char>,
    references: Seq<(Seq<char>, u32)>,
    tokens: Seq<(Seq<char>, TokenScriptId)>,
) -> Seq<Seq<char>> {
    seq![id_line(id), color_line(color_identity), origin_line(set)] + anonymous_rows(
        lines(script),
        references,
        tokens,
        object_names(script),
        Some(id),
    )
}

pub proof fn lemma_unlines_concat(left: Seq<Seq<char>>, right: Seq<Seq<char>>)
    ensures
        unlines(left + right) == unlines(left) + unlines(right),
    decreases right.len(),
{
    if right.len() == 0 {
        assert(left + right =~= left);
        assert(unlines(right) =~= Seq::empty());
        assert(unlines(left) + unlines(right) =~= unlines(left));
    } else {
        lemma_unlines_concat(left, right.drop_last());
        assert((left + right).drop_last() =~= left + right.drop_last());
        assert((left + right).last() == right.last());
        assert(unlines(left + right) =~= unlines(left) + unlines(right));
    }
}

/// An anonymous card script is its lines, each closed by a line feed.
pub proof fn lemma_script_rows(
    script: Seq<char>,
    id: u32,
    color_identity: Seq<char>,
    set: Seq<char>,
    references: Seq<(Seq<char>, u32)>,
    tokens: Seq<(Seq<char>, TokenScriptId)>,
)
    ensures
        anonymous_script(script, id, color_identity, set, references, tokens) == unlines(
            script_rows(script, id, color_identity, set, references, tokens),
        ),
{
    let names = object_names(script);
    let head = seq![id_line(id), color_line(color_identity), origin_line(set)];
    let body = anonymous_rows(lines(script), references, tokens, names, Some(id));
    law_anonymous_bodies_hold_no_display_text(lines(script), references, tokens, names, Some(id));
    lemma_unlines_concat(head, body);
    reveal_strlit("\n");
    assert("\n"@ =~= seq!['\n']);
    let two = head.drop_last();
    let one = two.drop_last();
    assert(one.drop_last() =~= Seq::empty());
    assert(unlines(one.drop_last()) =~= Seq::empty());
    assert(one.last() == id_line(id));
    assert(two.last() == color_line(color_identity));
    assert(unlines(one) =~= id_line(id) + seq!['\n']);
    assert(unlines(two) =~= unlines(one) + color_line(color_identity) + seq!['\n']);
    assert(unlines(head) =~= card_header(id as nat, color_identity, set));
}

/// The first line of an anonymous card script is its ID.
pub proof fn law_scripts_begin_with_their_id(
    script: Seq<char>,
    id: u32,
    color_identity: Seq<char>,
    set: Seq<char>,
    references: Seq<(Seq<char>, u32)>,
    tokens: Seq<(Seq<char>, TokenScriptId)>,
)
    ensures
        lines(anonymous_script(script, id, color_identity, set, references, tokens)).len() > 0,
        lines(anonymous_script(script, id, color_identity, set, references, tokens))[0] == id_line(
            id,
        ),
{
    let text = anonymous_script(script, id, color_identity, set, references, tokens);
    let first = id_line(id);
    let at = first.len() as int;
    lemma_id_line(id);
    reveal_strlit("\n");
    assert(text[at] == '\n');
    assert forall|j: int| 0 <= j < at implies text[j] != '\n' by {
        assert(text[j] == first[j]);
    }
    lemma_find_char_is(text, '\n', at);
    assert(text.take(at) =~= first);
}

pub proof fn lemma_id_line(id: u32)
    ensures
        fits_line(id_line(id)),
        id_line(id).len() > 3,
        !starts_with(id_line(id), "OriginSet:"@),
{
    let line = id_line(id);
    let digits = decimal(id as nat);
    lemma_decimal(id as nat);
    reveal_strlit("Id:");
    reveal_strlit("OriginSet:");
    assert forall|j: int| 0 <= j < line.len() implies #[trigger] line[j] != '\n' by {
        if j >= 3 {
            assert(is_digit(digits[j - 3]));
        }
    }
    assert(is_digit(digits[digits.len() - 1]));
    assert(line.last() == digits[digits.len() - 1]);
    if starts_with(line, "OriginSet:"@) {
        assert(line.subrange(0, 10)[0] == 'O');
    }
}

/// Whether a line of the body keeps out of the way of the head: it is neither
/// the ID nor an origin set.
pub open spec fn is_body_line(line: Seq<char>, id: u32) -> bool {
    &&& line != id_line(id)
    &&& !starts_with(line, "OriginSet:"@)
}

proof fn lemma_counts(head: Seq<Seq<char>>, body: Seq<Seq<char>>, id: u32)
    requires
        forall|i: int| 0 <= i < body.len() ==> is_body_line(#[trigger] body[i], id),
    ensures
        count_lines(head + body, id_line(id)) == count_lines(head, id_line(id)),
        count_prefixed(head + body, "OriginSet:"@) == count_prefixed(head, "OriginSet:"@),
    decreases body.len(),
{
    if body.len() == 0 {
        assert(head + body =~= head);
    } else {
        let shorter = body.drop_last();
        assert forall|i: int| 0 <= i < shorter.len() implies is_body_line(
            #[trigger] shorter[i],
            id,
        ) by {
            assert(shorter[i] == body[i]);
        }
        lemma_counts(head, shorter, id);
        assert((head + body).drop_last() =~= head + shorter);
        assert((head + body).last() == body[body.len() - 1]);
    }
}

/// Rewriting the origin set of a generated script gives the script that would
/// have been generated with that set, as long as no line of its body looks
/// like one of the head's.
pub proof fn law_rewriting_a_generated_script_regenerates_it(
    script: Seq<char>,
    id: u32,
    color_identity: Seq<char>,
    set: Seq<char>,
    other: Seq<char>,
    references: Seq<(Seq<char>, u32)>,
    tokens: Seq<(Seq<char>, TokenScriptId)>,
)
    requires
        fits_line(color_line(color_identity)),
        fits_line(origin_line(set)),
        forall|i: int|
            0 <= i < anonymous_rows(
                lines(script),
                references,
                tokens,
                object_names(script),
                Some(id),
            ).len() ==> is_body_line(
                #[trigger] anonymous_rows(
                    lines(script),
                    references,
                    tokens,
                    object_names(script),
                    Some(id),
                )[i],
                id,
            ),
    ensures
        rewritten(
            anonymous_script(script, id, color_identity, set, references, tokens),
            id,
            other,
        ) == Ok::<Seq<char>, (nat, nat)>(
            anonymous_script(script, id, color_identity, other, references, tokens),
        ),
{
    let head = seq![id_line(id), color_line(color_identity), origin_line(set)];
    let body = anonymous_rows(lines(script), references, tokens, object_names(script), Some(id));
    let rows = script_rows(script, id, color_identity, set, references, tokens);
    let after = script_rows(script, id, color_identity, other, references, tokens);
    assert(rows == head + body);
    lemma_script_rows(script, id, color_identity, set, references, tokens);
    lemma_script_rows(script, id, color_identity, other, references, tokens);
    lemma_id_line(id);
    lemma_lines_fit(script);
    lemma_rows_fit(lines(script), references, tokens, object_names(script), Some(id));
    assert forall|i: int| 0 <= i < rows.len() implies fits_line(#[trigger] rows[i]) by {
        if i >= 3 {
            assert(rows[i] == body[i - 3]);
        }
    }
    lemma_lines_unlines(rows);
    lemma_counts(head, body, id);
    lemma_head_counts(id, color_identity, set);
    assert(with_origins(rows, other) =~= after) by {
        assert forall|i: int| 0 <= i < rows.len() implies with_origin(rows[i], other)
            == after[i] by {
            lemma_head_lines(id, color_identity, set);
            if i >= 3 {
                assert(rows[i] == body[i - 3]);
                assert(after[i] == body[i - 3]);
            }
        }
    }
}

proof fn lemma_head_lines(id: u32, color_identity: Seq<char>, set: Seq<char>)
    ensures
        !starts_with(id_line(id), "OriginSet:"@),
        !starts_with(color_line(color_identity), "OriginSet:"@),
        starts_with(origin_line(set), "OriginSet:"@),
        color_line(color_identity) != id_line(id),
        origin_line(set) != id_line(id),
{
    lemma_id_line(id);
    reveal_strlit("OriginSet:");
    reveal_strlit("ColorIdentity:");
    reveal_strlit("Id:");
    assert(origin_line(set).subrange(0, 10) =~= "OriginSet:"@);
    assert(color_line(color_identity)[0] == 'C');
    assert(origin_line(set)[0] == 'O');
    assert(id_line(id)[0] == 'I');
    if starts_with(color_line(color_identity), "OriginSet:"@) {
        assert(color_line(color_identity).subrange(0, 10)[0] == 'O');
    }
}

proof fn lemma_head_counts(id: u32, color_identity: Seq<char>, set: Seq<char>)
    ensures
        count_lines(
            seq![id_line(id), color_line(color_identity), origin_line(set)],
            id_line(id),
        ) == 1,
        count_prefixed(
            seq![id_line(id), color_line(color_identity), origin_line(set)],
            "OriginSet:"@,
        ) == 1,
{
    let head = seq![id_line(id), color_line(color_identity), origin_line(set)];
    let two = head.drop_last();
    let one = two.drop_last();
    let none = one.drop_last();
    lemma_head_lines(id, color_identity, set);
    assert(none =~= Seq::empty());
    assert(one.last() == id_line(id));
    assert(two.last() == color_line(color_identity));
    assert(head.last() == origin_line(set));
    assert(count_lines(none, id_line(id)) == 0);
    assert(count_lines(one, id_line(id)) == 1);
    assert(count_lines(two, id_line(id)) == 1);
    assert(count_prefixed(none, "OriginSet:"@) == 0);
    assert(count_prefixed(one, "OriginSet:"@) == 0);
    assert(count_prefixed(two, "OriginSet:"@) == 0);
}

} // verus!
