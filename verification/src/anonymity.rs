//! What anonymous scripts no longer hold.

use vstd::prelude::*;

use crate::contextual::contextual_references;
use crate::ids::TokenScriptId;
use crate::keywords::keyword_vocabulary;
use crate::maps::row_map;
use crate::parameters::{
    card_parameters, display_segment, kept_segments, parameter_of, token_parameters,
    without_display,
};
use crate::qualifiers::{named_qualifiers, set_qualifiers};
use crate::runtime::object_parameters;
use crate::sanitize::{
    anonymous_body, anonymous_line, anonymous_row, kept_line, removed_field,
};
use crate::tables::{lacks, lemma_split_join};
use crate::text::{
    find_char, is_white_space, join, join_tail, lemma_find_char, split, trim, trim_end, trim_start,
    unlines,
};

verus! {

/// Whether a text neither begins nor ends with white space.
pub open spec fn is_trimmed(text: Seq<char>) -> bool {
    text.len() > 0 ==> !is_white_space(text[0]) && !is_white_space(text.last())
}

proof fn lemma_trim_start(text: Seq<char>)
    ensures
        trim_start(text).len() <= text.len(),
        trim_start(text) == text.skip(text.len() - trim_start(text).len()),
        trim_start(text).len() > 0 ==> !is_white_space(trim_start(text)[0]),
    decreases text.len(),
{
    if text.len() > 0 && is_white_space(text[0]) {
        lemma_trim_start(text.drop_first());
        assert(trim_start(text) =~= text.skip(text.len() - trim_start(text).len()));
    } else {
        assert(text =~= text.skip(0));
    }
}

proof fn lemma_trim_end(text: Seq<char>)
    ensures
        trim_end(text).len() <= text.len(),
        trim_end(text) == text.take(trim_end(text).len() as int),
        trim_end(text).len() > 0 ==> !is_white_space(trim_end(text).last()),
    decreases text.len(),
{
    if text.len() > 0 && is_white_space(text.last()) {
        lemma_trim_end(text.drop_last());
        assert(trim_end(text) =~= text.take(trim_end(text).len() as int));
    } else {
        assert(text =~= text.take(text.len() as int));
    }
}

/// A trimmed text is trimmed, and what the whole text lacks it lacks too.
pub proof fn lemma_trim(text: Seq<char>, c: char)
    ensures
        is_trimmed(trim(text)),
        lacks(text, c) ==> lacks(trim(text), c),
{
    let body = trim_start(text);
    lemma_trim_start(text);
    lemma_trim_end(body);
    let out = trim(text);
    if out.len() > 0 {
        assert(out[0] == body[0]);
    }
    if lacks(text, c) {
        assert forall|i: int| 0 <= i < out.len() implies #[trigger] out[i] != c by {
            assert(out[i] == body[i]);
            assert(body[i] == text[text.len() - body.len() + i]);
        }
    }
}

/// Spaces around a trimmed text are trimmed away again.
pub proof fn lemma_trim_spaces(text: Seq<char>)
    requires
        is_trimmed(text),
    ensures
        trim(text) == text,
        trim(seq![' '] + text) == text,
        trim(text + seq![' ']) == text,
        trim(seq![' '] + text + seq![' ']) == text,
{
    lemma_trim_spaced(text);
    let one = seq![' '];
    let left = one + text;
    let right = text + one;
    let both = one + text + one;
    assert(left.drop_first() =~= text);
    assert(trim_start(left) == trim_start(text));
    assert(both.drop_first() =~= right);
    assert(trim_start(both) == trim_start(right));
    assert(right.drop_last() =~= text);
    if text.len() == 0 {
        assert(right =~= one);
        assert(right.drop_first() =~= Seq::empty());
        assert(trim_start(right) =~= Seq::empty());
        assert(trim(right) =~= text);
        assert(trim(left) =~= text);
    } else {
        assert(right[0] == text[0]);
        assert(trim_start(right) == right);
        assert(trim_end(right) == trim_end(text));
    }
}

pub proof fn lemma_trim_spaced(text: Seq<char>)
    requires
        is_trimmed(text),
    ensures
        trim_start(text) == text,
        trim_end(text) == text,
        trim(text) == text,
{
}

/// No piece between separators has the separator.
pub proof fn lemma_split_lacks(text: Seq<char>, separator: char)
    ensures
        split(text, separator).len() > 0,
        forall|i: int|
            0 <= i < split(text, separator).len() ==> lacks(
                #[trigger] split(text, separator)[i],
                separator,
            ),
    decreases text.len(),
{
    lemma_find_char(text, separator);
    let parts = split(text, separator);
    match find_char(text, separator) {
        Some(at) => {
            let later = text.skip(at + 1);
            lemma_split_lacks(later, separator);
            assert forall|i: int| 0 <= i < parts.len() implies lacks(
                #[trigger] parts[i],
                separator,
            ) by {
                if i == 0 {
                    assert(parts[0] =~= text.take(at));
                } else {
                    assert(parts[i] == split(later, separator)[i - 1]);
                }
            }
        },
        None => {
            assert(parts[0] == text);
        },
    }
}

proof fn lemma_kept(segments: Seq<Seq<char>>)
    requires
        forall|i: int| 0 <= i < segments.len() ==> lacks(#[trigger] segments[i], '|'),
    ensures
        forall|i: int|
            0 <= i < kept_segments(segments).len() ==> {
                &&& lacks(#[trigger] kept_segments(segments)[i], '|')
                &&& is_trimmed(kept_segments(segments)[i])
                &&& !display_segment(kept_segments(segments)[i])
            },
    decreases segments.len(),
{
    if segments.len() > 0 {
        let front = segments.drop_last();
        assert forall|i: int| 0 <= i < front.len() implies lacks(#[trigger] front[i], '|') by {
            assert(front[i] == segments[i]);
        }
        lemma_kept(front);
        let last = segments.last();
        assert(lacks(segments[segments.len() - 1], '|'));
        lemma_trim(last, '|');
        lemma_trim_spaces(trim(last));
        assert(display_segment(trim(last)) == display_segment(last));
        let kept = kept_segments(segments);
        let earlier = kept_segments(front);
        assert forall|i: int| 0 <= i < kept.len() implies {
            &&& lacks(#[trigger] kept[i], '|')
            &&& is_trimmed(kept[i])
            &&& !display_segment(kept[i])
        } by {
            if i < earlier.len() {
                assert(kept[i] == earlier[i]);
            } else {
                assert(kept[i] == trim(last));
            }
        }
    }
}

/// The segments with the spaces that stand around the bars.
pub open spec fn spaced(parts: Seq<Seq<char>>) -> Seq<Seq<char>> {
    Seq::new(
        parts.len(),
        |i: int|
            (if i > 0 {
                seq![' ']
            } else {
                Seq::empty()
            }) + parts[i] + (if i < parts.len() - 1 {
                seq![' ']
            } else {
                Seq::empty()
            }),
    )
}

/// Segments behind the first one, with the spaces around the bars.
spec fn spaced_tail(parts: Seq<Seq<char>>) -> Seq<Seq<char>> {
    Seq::new(
        parts.len(),
        |i: int|
            seq![' '] + parts[i] + (if i < parts.len() - 1 {
                seq![' ']
            } else {
                Seq::empty()
            }),
    )
}

/// Each part with ` | ` in front of it is each spaced part with `|` in front
/// of it, but for the space before the first bar.
proof fn lemma_spaced_tail(parts: Seq<Seq<char>>)
    requires
        parts.len() > 0,
    ensures
        join_tail(parts, " | "@) == seq![' '] + join_tail(spaced_tail(parts), seq!['|']),
    decreases parts.len(),
{
    reveal_strlit(" | ");
    let bar = " | "@;
    assert(bar =~= seq![' ', '|', ' ']);
    let later = parts.drop_first();
    let tail = spaced_tail(parts);
    assert(tail.drop_first() =~= spaced_tail(later));
    if later.len() == 0 {
        assert(join_tail(later, bar) =~= Seq::empty());
        assert(join_tail(tail.drop_first(), seq!['|']) =~= Seq::empty());
        assert(tail[0] =~= seq![' '] + parts[0]);
        assert(join_tail(parts, bar) =~= seq![' '] + join_tail(tail, seq!['|']));
    } else {
        lemma_spaced_tail(later);
        assert(tail[0] =~= seq![' '] + parts[0] + seq![' ']);
        assert(join_tail(parts, bar) =~= seq![' '] + join_tail(tail, seq!['|']));
    }
}

pub proof fn lemma_join_spaced(parts: Seq<Seq<char>>)
    requires
        parts.len() > 0,
    ensures
        join(parts, " | "@) == join(spaced(parts), seq!['|']),
{
    let later = parts.drop_first();
    let all = spaced(parts);
    assert(all.drop_first() =~= spaced_tail(later));
    if later.len() == 0 {
        assert(join_tail(later, " | "@) =~= Seq::empty());
        assert(join_tail(all.drop_first(), seq!['|']) =~= Seq::empty());
        assert(all[0] =~= parts[0]);
        assert(join(parts, " | "@) =~= join(all, seq!['|']));
    } else {
        lemma_spaced_tail(later);
        assert(all[0] =~= parts[0] + seq![' ']);
        assert(join(parts, " | "@) =~= join(all, seq!['|']));
    }
}

/// The segments of a stripped line are the kept ones, with spaces around the
/// bars.
proof fn lemma_stripped_segments(line: Seq<char>)
    ensures
        ({
            let kept = kept_segments(split(line, '|'));
            let again = split(without_display(line), '|');
            &&& kept.len() == 0 ==> again == seq![Seq::<char>::empty()]
            &&& kept.len() > 0 ==> again == spaced(kept)
        }),
{
    let segments = split(line, '|');
    let kept = kept_segments(segments);
    lemma_split_lacks(line, '|');
    lemma_kept(segments);
    if kept.len() == 0 {
        let text = without_display(line);
        assert(text =~= Seq::<char>::empty());
        lemma_find_char(text, '|');
        assert(split(text, '|') =~= seq![Seq::<char>::empty()]);
    } else {
        let parts = spaced(kept);
        lemma_join_spaced(kept);
        assert forall|i: int| 0 <= i < parts.len() implies lacks(#[trigger] parts[i], '|') by {
            assert(lacks(kept[i], '|'));
            assert forall|j: int| 0 <= j < parts[i].len() implies #[trigger] parts[i][j] != '|' by {
                let shift: int = if i > 0 {
                    1
                } else {
                    0
                };
                if shift <= j < shift + kept[i].len() {
                    assert(parts[i][j] == kept[i][j - shift]);
                }
            }
        }
        lemma_split_join(parts, '|');
    }
}

proof fn lemma_spaced_trim(kept: Seq<Seq<char>>, at: int)
    requires
        0 <= at < kept.len(),
        is_trimmed(kept[at]),
        !display_segment(kept[at]),
    ensures
        trim(spaced(kept)[at]) == kept[at],
        !display_segment(spaced(kept)[at]),
{
    let part = kept[at];
    lemma_trim_spaces(part);
    let out = spaced(kept)[at];
    if at > 0 && at < kept.len() - 1 {
        assert(out =~= seq![' '] + part + seq![' ']);
    } else if at > 0 {
        assert(out =~= seq![' '] + part);
    } else if at < kept.len() - 1 {
        assert(out =~= part + seq![' ']);
    } else {
        assert(out =~= part);
    }
    assert(trim(out) == trim(part));
}

/// No segment of a stripped line is for display.
pub proof fn law_no_display_parameter_remains(line: Seq<char>, at: int)
    requires
        0 <= at < split(without_display(line), '|').len(),
    ensures
        !display_segment(split(without_display(line), '|')[at]),
{
    let segments = split(line, '|');
    let kept = kept_segments(segments);
    lemma_stripped_segments(line);
    lemma_split_lacks(line, '|');
    lemma_kept(segments);
    if kept.len() == 0 {
        let none = Seq::<char>::empty();
        assert(trim(none) =~= none);
        lemma_find_char(none, '$');
        assert(parameter_of(none) is None);
    } else {
        lemma_spaced_trim(kept, at);
    }
}

/// Stripping a stripped line changes nothing.
pub proof fn law_stripping_again_changes_nothing(line: Seq<char>)
    ensures
        without_display(without_display(line)) == without_display(line),
{
    let segments = split(line, '|');
    let kept = kept_segments(segments);
    let again = split(without_display(line), '|');
    lemma_stripped_segments(line);
    lemma_split_lacks(line, '|');
    lemma_kept(segments);
    if kept.len() == 0 {
        let none = Seq::<char>::empty();
        assert(trim(none) =~= none);
        lemma_find_char(none, '$');
        assert(!display_segment(none));
        assert(again.drop_last() =~= Seq::empty());
        assert(kept_segments(again.drop_last()) =~= Seq::empty());
        assert(kept_segments(again) =~= seq![none]);
        assert(join_tail(seq![none].drop_first(), " | "@) =~= Seq::empty());
        assert(join(seq![none], " | "@) =~= none);
        assert(join(kept, " | "@) =~= none);
    } else {
        lemma_kept_spaced(kept, kept.len() as int);
        assert(spaced(kept).take(kept.len() as int) =~= spaced(kept));
        assert(kept.take(kept.len() as int) =~= kept);
    }
}

proof fn lemma_kept_spaced(kept: Seq<Seq<char>>, count: int)
    requires
        0 <= count <= kept.len(),
        forall|i: int|
            0 <= i < kept.len() ==> is_trimmed(#[trigger] kept[i]) && !display_segment(kept[i]),
    ensures
        kept_segments(spaced(kept).take(count)) == kept.take(count),
    decreases count,
{
    let parts = spaced(kept).take(count);
    if count == 0 {
        assert(kept_segments(parts) =~= kept.take(0));
    } else {
        lemma_kept_spaced(kept, count - 1);
        assert(parts.drop_last() =~= spaced(kept).take(count - 1));
        assert(is_trimmed(kept[count - 1]));
        lemma_spaced_trim(kept, count - 1);
        assert(kept_segments(parts) =~= kept.take(count));
    }
}

/// What becomes of the rows.
pub open spec fn anonymous_rows(
    rows: Seq<Seq<char>>,
    references: Seq<(Seq<char>, u32)>,
    tokens: Seq<(Seq<char>, TokenScriptId)>,
    names: Seq<Seq<char>>,
    owner: Option<u32>,
) -> Seq<Seq<char>>
    decreases rows.len(),
{
    if rows.len() == 0 {
        Seq::empty()
    } else {
        let earlier = anonymous_rows(rows.drop_last(), references, tokens, names, owner);
        match anonymous_row(rows.last(), references, tokens, names, owner) {
            Some(line) => earlier.push(line),
            None => earlier,
        }
    }
}

/// The body of an anonymous script is made of anonymous lines alone, and no
/// parameter on any of them is for display.
pub proof fn law_anonymous_bodies_hold_no_display_text(
    rows: Seq<Seq<char>>,
    references: Seq<(Seq<char>, u32)>,
    tokens: Seq<(Seq<char>, TokenScriptId)>,
    names: Seq<Seq<char>>,
    owner: Option<u32>,
)
    ensures
        anonymous_body(rows, references, tokens, names, owner) == unlines(
            anonymous_rows(rows, references, tokens, names, owner),
        ),
        forall|i: int, segment: int|
            0 <= i < anonymous_rows(rows, references, tokens, names, owner).len() && 0 <= segment
                < split(anonymous_rows(rows, references, tokens, names, owner)[i], '|').len()
                ==> !display_segment(
                #[trigger] split(
                    anonymous_rows(rows, references, tokens, names, owner)[i],
                    '|',
                )[segment],
            ),
    decreases rows.len(),
{
    let all = anonymous_rows(rows, references, tokens, names, owner);
    if rows.len() > 0 {
        let earlier = anonymous_rows(rows.drop_last(), references, tokens, names, owner);
        law_anonymous_bodies_hold_no_display_text(
            rows.drop_last(),
            references,
            tokens,
            names,
            owner,
        );
        if anonymous_row(rows.last(), references, tokens, names, owner) is Some {
            assert(all.drop_last() =~= earlier);
        }
        assert forall|i: int, segment: int|
            0 <= i < all.len() && 0 <= segment < split(all[i], '|').len() implies !display_segment(
            #[trigger] split(all[i], '|')[segment],
        ) by {
            if i < earlier.len() {
                assert(all[i] == earlier[i]);
            } else {
                lemma_line_is_stripped(rows.last(), references, tokens, names, owner, segment);
            }
        }
    }
}

proof fn lemma_line_is_stripped(
    line: Seq<char>,
    references: Seq<(Seq<char>, u32)>,
    tokens: Seq<(Seq<char>, TokenScriptId)>,
    names: Seq<Seq<char>>,
    owner: Option<u32>,
    segment: int,
)
    requires
        0 <= segment < split(anonymous_line(line, references, tokens, names, owner), '|').len(),
    ensures
        !display_segment(
            split(anonymous_line(line, references, tokens, names, owner), '|')[segment],
        ),
{
    let qualified = named_qualifiers(line, references, tokens);
    let carded = card_parameters(qualified, references);
    let tokened = token_parameters(carded, row_map(tokens));
    let numbered = object_parameters(tokened, names);
    let placed = contextual_references(numbered, references, owner);
    let worded = keyword_vocabulary(placed);
    let grouped = set_qualifiers(worded);
    law_no_display_parameter_remains(grouped, segment);
}

/// No line of an anonymous body is a field with a title or display text, or one
/// that guides deck building alone.
pub proof fn law_no_removed_field_remains(
    rows: Seq<Seq<char>>,
    references: Seq<(Seq<char>, u32)>,
    tokens: Seq<(Seq<char>, TokenScriptId)>,
    names: Seq<Seq<char>>,
    owner: Option<u32>,
)
    ensures
        anonymous_body(rows, references, tokens, names, owner) == unlines(
            anonymous_rows(rows, references, tokens, names, owner),
        ),
        forall|i: int|
            0 <= i < anonymous_rows(rows, references, tokens, names, owner).len()
                ==> !removed_field(
                #[trigger] anonymous_rows(rows, references, tokens, names, owner)[i],
            ),
    decreases rows.len(),
{
    law_anonymous_bodies_hold_no_display_text(rows, references, tokens, names, owner);
    if rows.len() > 0 {
        law_no_removed_field_remains(rows.drop_last(), references, tokens, names, owner);
        let all = anonymous_rows(rows, references, tokens, names, owner);
        let earlier = anonymous_rows(rows.drop_last(), references, tokens, names, owner);
        assert forall|i: int| 0 <= i < all.len() implies !removed_field(#[trigger] all[i]) by {
            if i < earlier.len() {
                assert(all[i] == earlier[i]);
            }
        }
    }
}

/// Comments, blank lines and removed fields, titles and rules texts among
/// them, leave no trace in the body.
pub proof fn law_removed_lines_leave_no_trace(
    rows: Seq<Seq<char>>,
    references: Seq<(Seq<char>, u32)>,
    tokens: Seq<(Seq<char>, TokenScriptId)>,
    names: Seq<Seq<char>>,
    owner: Option<u32>,
)
    ensures
        anonymous_body(rows, references, tokens, names, owner) == anonymous_body(
            rows.filter(|line: Seq<char>| kept_line(line)),
            references,
            tokens,
            names,
            owner,
        ),
    decreases rows.len(),
{
    reveal(Seq::filter);
    if rows.len() > 0 {
        let kept = |line: Seq<char>| kept_line(line);
        law_removed_lines_leave_no_trace(rows.drop_last(), references, tokens, names, owner);
        if kept_line(rows.last()) {
            let front = rows.drop_last().filter(kept);
            assert(rows.filter(kept) == front.push(rows.last()));
            assert(front.push(rows.last()).drop_last() =~= front);
        }
    }
}

} // verus!
