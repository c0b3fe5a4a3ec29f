//! What becomes of the `named` qualifiers in selectors.

use vstd::prelude::*;

use crate::ids::TokenScriptId;
use crate::letters::ascii_lower;
use crate::numerals::decimal;
use crate::qualifiers::{
    card_title, key_reach, lemma_key_reach, lemma_longest_token_title, lemma_named_step,
    longest_token_title, named_from,
    named_qualifiers, named_step, qualifier_lead, title_qualifier, token_title,
};
use crate::segment_laws::is_blank;
use crate::text::{find_from, is_white_space, lemma_find_from, occurs_at, trim_start};

verus! {

/// Whether the text has no `named`.
pub open spec fn names_nothing(text: Seq<char>) -> bool {
    forall|at: int| !occurs_at(text, "named"@, at)
}

/// Whether `named` behind the text is a qualifier: what a selector joins it
/// with, negated or not, or the word `creatures` in prose.
pub open spec fn is_lead(text: Seq<char>) -> bool {
    text == "."@ || text == "+"@ || text == ".!"@ || text == "+!"@ || text == "creatures "@
}

/// Whether a card title ends in front of the rest of the line.
pub open spec fn closes_title(rest: Seq<char>) -> bool {
    rest.len() == 0 || is_white_space(rest[0]) || rest[0] == '.' || rest[0] == '+' || rest[0] == ','
        || rest[0] == '/' || rest[0] == '$' || rest[0] == '>' || rest[0] == ')' || rest[0] == ';'
        || rest[0] == '|' || rest[0] == ']' || rest[0] == ':'
}

/// Whether the text is the title, or the title and something that ends it.
pub open spec fn begins_with_title(text: Seq<char>, title: Seq<char>) -> bool {
    &&& title.len() <= text.len()
    &&& text.take(title.len() as int) == title
    &&& closes_title(text.skip(title.len() as int))
}

/// A character of a token's title as its key writes it.
pub open spec fn key_letter(c: char) -> char {
    if c == ' ' || c == '-' || c == ',' {
        '_'
    } else if 'A' <= c <= 'Z' {
        (c as u32 + 32) as char
    } else {
        c
    }
}

/// The key for a token's title: in lower case, without apostrophes, and with
/// underscores for spaces, hyphens and commas.
pub open spec fn key_of_title(title: Seq<char>) -> Seq<char>
    decreases title.len(),
{
    if title.len() == 0 {
        Seq::empty()
    } else if title.last() == '\'' {
        key_of_title(title.drop_last())
    } else {
        key_of_title(title.drop_last()).push(key_letter(title.last()))
    }
}

/// Whether the first `count` characters of the text are a title for the key,
/// with something behind them that ends a token's title.
pub open spec fn begins_with_token(text: Seq<char>, key: Seq<char>, count: int) -> bool {
    &&& 0 <= count <= text.len()
    &&& key_of_title(text.take(count)) == key
    &&& count > 0 ==> text[count - 1] != '\''
    &&& closes_title(text.skip(count)) || text[count] == '-'
}

/// Whether what stands in front of `from` does not matter to the qualifiers
/// behind it.
spec fn is_cut(line: Seq<char>, from: int) -> bool {
    forall|at: int|
        from <= at && occurs_at(line, "named"@, at) ==> match #[trigger] qualifier_lead(line, at) {
            Some((start, lead)) => if start >= from {
                qualifier_lead(line.skip(from), at - from) == Some((start - from, lead))
            } else {
                qualifier_lead(line.skip(from), at - from) is None
            },
            None => qualifier_lead(line.skip(from), at - from) is None,
        }
}

/// No lead reaches over the end of a title, or over another `named`.
proof fn lemma_cut(line: Seq<char>, from: int)
    requires
        0 <= from <= line.len(),
        from == line.len() || (line[from] != 'n' && line[from] != '!') || (from > 0 && line[from - 1]
            == 'd'),
    ensures
        is_cut(line, from),
{
    reveal_strlit("named");
    reveal_strlit("creatures ");
    let rest = line.skip(from);
    assert forall|at: int| from <= at && occurs_at(line, "named"@, at) implies match #[trigger] qualifier_lead(
        line,
        at,
    ) {
        Some((start, lead)) => if start >= from {
            qualifier_lead(rest, at - from) == Some((start - from, lead))
        } else {
            qualifier_lead(rest, at - from) is None
        },
        None => qualifier_lead(rest, at - from) is None,
    } by {
        assert(line[at] == line.subrange(at, at + 5)[0]);
        if at >= from + 10 {
            assert(line.subrange(at - 10, at) =~= rest.subrange(at - from - 10, at - from));
        }
        if at >= 10 && line.subrange(at - 10, at) == "creatures "@ {
            assert(line.subrange(at - 10, at)[9] == line[at - 1]);
        }
    }
}

proof fn lemma_found_behind(line: Seq<char>, pattern: Seq<char>, from: int, cursor: int)
    requires
        0 <= from <= cursor <= line.len(),
    ensures
        match find_from(line, pattern, cursor) {
            Some(at) => find_from(line.skip(from), pattern, cursor - from) == Some(at - from),
            None => find_from(line.skip(from), pattern, cursor - from) is None,
        },
    decreases line.len() + 1 - cursor,
{
    let rest = line.skip(from);
    if cursor + pattern.len() <= line.len() {
        assert(line.subrange(cursor, cursor + pattern.len()) =~= rest.subrange(
            cursor - from,
            cursor - from + pattern.len(),
        ));
        if cursor < line.len() {
            lemma_found_behind(line, pattern, from, cursor + 1);
        }
    }
}

proof fn lemma_from_cut(
    line: Seq<char>,
    references: Seq<(Seq<char>, u32)>,
    rows: Seq<(Seq<char>, TokenScriptId)>,
    from: int,
    cursor: int,
)
    requires
        0 <= from <= cursor <= line.len(),
        is_cut(line, from),
    ensures
        named_from(line, references, rows, cursor) == named_from(
            line.skip(from),
            references,
            rows,
            cursor - from,
        ),
    decreases line.len() - cursor,
{
    let rest = line.skip(from);
    reveal_strlit("named");
    lemma_found_behind(line, "named"@, from, cursor);
    lemma_find_from(line, "named"@, cursor);
    lemma_named_step(line, references, rows, cursor);
    match find_from(line, "named"@, cursor) {
        Some(at) => {
            assert(rest.skip(at - from + 5) =~= line.skip(at + 5));
            let step = named_step(line, references, rows, cursor)->0;
            let short = named_step(rest, references, rows, cursor - from)->0;
            assert(short.next == step.next - from);
            assert(short.inserted == step.inserted);
            assert(short.kept_to == step.kept_to - from);
            lemma_from_cut(line, references, rows, from, step.next);
            assert(line.subrange(cursor, step.kept_to) =~= rest.subrange(
                cursor - from,
                short.kept_to,
            ));
            lemma_named_step(rest, references, rows, cursor - from);
        },
        None => {
            assert(rest.skip(cursor - from) =~= line.skip(cursor));
        },
    }
}

proof fn lemma_lead(lead: Seq<char>)
    requires
        is_lead(lead),
    ensures
        lead.len() > 0,
        lead[0] == '.' || lead[0] == '+' || lead[0] == 'c',
        forall|i: int| 0 <= i < lead.len() ==> #[trigger] lead[i] != 'n',
{
    reveal_strlit(".");
    reveal_strlit("+");
    reveal_strlit(".!");
    reveal_strlit("+!");
    reveal_strlit("creatures ");
}

/// Nothing before the first qualifier is taken for it.
proof fn lemma_first_named(before: Seq<char>, lead: Seq<char>, tail: Seq<char>)
    requires
        names_nothing(before),
        is_lead(lead),
    ensures
        find_from(before + lead + "named"@ + tail, "named"@, 0) == Some(
            (before.len() + lead.len()) as int,
        ),
{
    let line = before + lead + "named"@ + tail;
    let k = before.len() as int;
    let at = (before.len() + lead.len()) as int;
    reveal_strlit("named");
    lemma_lead(lead);
    lemma_find_from(line, "named"@, 0);
    assert(line.subrange(at, at + 5) =~= "named"@);
    assert(occurs_at(line, "named"@, at));
    assert(line[k] == lead[0]);
    assert forall|j: int| 0 <= j < at implies !occurs_at(line, "named"@, j) by {
        if occurs_at(line, "named"@, j) {
            let found = line.subrange(j, j + 5);
            if j + 5 <= k {
                assert(before.subrange(j, j + 5) =~= found);
                assert(occurs_at(before, "named"@, j));
            } else if j <= k {
                assert(line[k] == found[k - j]);
            } else {
                assert(line[j] == found[0]);
                assert(line[j] == lead[j - k]);
            }
        }
    }
}

/// The first qualifier of a line and what it keeps.
proof fn lemma_first_qualifier(before: Seq<char>, lead: Seq<char>, tail: Seq<char>)
    requires
        names_nothing(before),
        is_lead(lead),
    ensures
        ({
            let line = before + lead + "named"@ + tail;
            let at = (before.len() + lead.len()) as int;
            &&& find_from(line, "named"@, 0) == Some(at)
            &&& qualifier_lead(line, at) matches Some((start, kept)) && 0 <= start <= at
                && line.subrange(0, start) + kept == before + lead
            &&& line.skip(at + 5) == tail
        }),
{
    let line = before + lead + "named"@ + tail;
    let at = (before.len() + lead.len()) as int;
    lemma_first_named(before, lead, tail);
    reveal_strlit("named");
    assert(line.skip(at + 5) =~= tail);
    if lead == "creatures "@ {
        reveal_strlit("creatures ");
        assert(line[at - 1] == lead[9]);
        assert(line.subrange(at - 10, at) =~= "creatures "@);
        assert(line.subrange(0, at - 10) + "creatures "@ =~= before + lead);
    } else if lead == "."@ || lead == "+"@ {
        reveal_strlit(".");
        reveal_strlit("+");
        assert(line[at - 1] == lead[0]);
        assert(line.subrange(0, at) + Seq::empty() =~= before + lead);
    } else {
        reveal_strlit(".!");
        reveal_strlit("+!");
        reveal_strlit("!");
        assert(line[at - 1] == lead[1]);
        assert(line[at - 2] == lead[0]);
        assert(line.subrange(0, at - 1) + "!"@ =~= before + lead);
    }
}

proof fn lemma_trim_gap(gap: Seq<char>, text: Seq<char>)
    requires
        is_blank(gap),
        text.len() > 0,
        !is_white_space(text[0]),
    ensures
        trim_start(gap + text) == text,
    decreases gap.len(),
{
    if gap.len() == 0 {
        assert(gap + text =~= text);
    } else {
        let rest = gap.drop_first();
        assert forall|i: int| 0 <= i < rest.len() implies is_white_space(#[trigger] rest[i]) by {
            assert(rest[i] == gap[i + 1]);
        }
        lemma_trim_gap(rest, text);
        assert((gap + text)[0] == gap[0]);
        assert((gap + text).drop_first() =~= rest + text);
    }
}

/// The first qualifier is replaced where a title follows, and the rest of the
/// line stands for itself.
proof fn lemma_replaced_qualifier(
    before: Seq<char>,
    lead: Seq<char>,
    gap: Seq<char>,
    title: Seq<char>,
    rest: Seq<char>,
    qualifier: Seq<char>,
    references: Seq<(Seq<char>, u32)>,
    rows: Seq<(Seq<char>, TokenScriptId)>,
)
    requires
        names_nothing(before),
        is_lead(lead),
        is_blank(gap),
        title.len() > 0,
        !is_white_space(title[0]),
        closes_title(rest) || rest[0] == '-',
        title_qualifier(title + rest, references, rows) == Some((title.len() as int, qualifier)),
    ensures
        named_qualifiers(before + lead + "named"@ + gap + title + rest, references, rows) == before
            + lead + qualifier + named_qualifiers(rest, references, rows),
{
    let tail = gap + (title + rest);
    let line = before + lead + "named"@ + tail;
    let at = (before.len() + lead.len()) as int;
    assert(line =~= before + lead + "named"@ + gap + title + rest);
    reveal_strlit("named");
    lemma_first_qualifier(before, lead, tail);
    assert((title + rest)[0] == title[0]);
    lemma_trim_gap(gap, title + rest);
    let (start, kept) = qualifier_lead(line, at)->0;
    let next = line.len() - rest.len();
    let step = named_step(line, references, rows, 0)->0;
    assert(step.next == next);
    assert(line.skip(next) =~= rest);
    if next < line.len() {
        assert(line[next] == rest[0]);
    }
    lemma_cut(line, next);
    lemma_from_cut(line, references, rows, next, next);
    lemma_named_step(line, references, rows, 0);
    assert(line.subrange(0, start) + (kept + qualifier) =~= before + lead + qualifier);
    assert(named_qualifiers(line, references, rows) =~= before + lead + qualifier
        + named_qualifiers(rest, references, rows));
}

proof fn lemma_card_title_is(text: Seq<char>, references: Seq<(Seq<char>, u32)>, at: int)
    requires
        0 <= at < references.len(),
        begins_with_title(text, references[at].0),
        forall|i: int| 0 <= i < at ==> !begins_with_title(text, (#[trigger] references[i]).0),
    ensures
        card_title(text, references) == Some((references[at].0.len() as int, references[at].1)),
    decreases references.len(),
{
    let title = references[0].0;
    if title.len() <= text.len() {
        assert(text.subrange(0, title.len() as int) =~= text.take(title.len() as int));
        if title.len() < text.len() {
            assert(text.skip(title.len() as int)[0] == text[title.len() as int]);
        }
    }
    if at > 0 {
        assert(!begins_with_title(text, references[0].0));
        let later = references.drop_first();
        assert forall|i: int| 0 <= i < at - 1 implies !begins_with_title(
            text,
            (#[trigger] later[i]).0,
        ) by {
            assert(later[i] == references[i + 1]);
        }
        assert(later[at - 1] == references[at]);
        lemma_card_title_is(text, later, at - 1);
    }
}

proof fn lemma_no_card_title(text: Seq<char>, references: Seq<(Seq<char>, u32)>)
    requires
        forall|i: int|
            0 <= i < references.len() ==> !begins_with_title(text, (#[trigger] references[i]).0),
    ensures
        card_title(text, references) is None,
    decreases references.len(),
{
    if references.len() > 0 {
        let title = references[0].0;
        if title.len() <= text.len() {
            assert(text.subrange(0, title.len() as int) =~= text.take(title.len() as int));
            if title.len() < text.len() {
                assert(text.skip(title.len() as int)[0] == text[title.len() as int]);
            }
        }
        assert(!begins_with_title(text, references[0].0));
        let later = references.drop_first();
        assert forall|i: int| 0 <= i < later.len() implies !begins_with_title(
            text,
            (#[trigger] later[i]).0,
        ) by {
            assert(later[i] == references[i + 1]);
        }
        lemma_no_card_title(text, later);
    }
}

/// A card's title behind `named` becomes the card's number: behind every kind
/// of lead, with or without white space in front of the title, and whatever
/// follows it. Where several titles fit, the first one counts. The rest of the
/// line is treated as a line of its own.
pub proof fn law_named_cards_become_numbers(
    before: Seq<char>,
    lead: Seq<char>,
    gap: Seq<char>,
    title: Seq<char>,
    rest: Seq<char>,
    references: Seq<(Seq<char>, u32)>,
    at: int,
    rows: Seq<(Seq<char>, TokenScriptId)>,
)
    requires
        names_nothing(before),
        is_lead(lead),
        is_blank(gap),
        title.len() > 0,
        !is_white_space(title[0]),
        closes_title(rest),
        0 <= at < references.len(),
        references[at].0 == title,
        forall|i: int|
            0 <= i < at ==> !begins_with_title(title + rest, (#[trigger] references[i]).0),
    ensures
        named_qualifiers(before + lead + "named"@ + gap + title + rest, references, rows) == before
            + lead + "catalogId"@ + decimal(references[at].1 as nat) + named_qualifiers(
            rest,
            references,
            rows,
        ),
{
    let text = title + rest;
    assert(text.take(title.len() as int) =~= title);
    assert(text.skip(title.len() as int) =~= rest);
    lemma_card_title_is(text, references, at);
    let qualifier = "catalogId"@ + decimal(references[at].1 as nat);
    lemma_replaced_qualifier(before, lead, gap, title, rest, qualifier, references, rows);
    assert(before + lead + qualifier =~= before + lead + "catalogId"@ + decimal(
        references[at].1 as nat,
    ));
}

/// A text without `named` stays as it reads.
pub proof fn law_lines_without_named_stay(
    line: Seq<char>,
    references: Seq<(Seq<char>, u32)>,
    rows: Seq<(Seq<char>, TokenScriptId)>,
)
    requires
        names_nothing(line),
    ensures
        named_qualifiers(line, references, rows) == line,
{
    lemma_find_from(line, "named"@, 0);
    assert(line.skip(0) =~= line);
}

proof fn lemma_key_of_front(title: Seq<char>)
    requires
        title.len() > 0,
    ensures
        key_of_title(title) == if title[0] == '\'' {
            key_of_title(title.drop_first())
        } else {
            seq![key_letter(title[0])] + key_of_title(title.drop_first())
        },
    decreases title.len(),
{
    if title.len() == 1 {
        assert(title.drop_first() =~= Seq::empty());
        assert(title.drop_last() =~= Seq::empty());
        assert(key_of_title(title) =~= if title[0] == '\'' {
            key_of_title(title.drop_first())
        } else {
            seq![key_letter(title[0])] + key_of_title(title.drop_first())
        });
    } else {
        lemma_key_of_front(title.drop_last());
        assert(title.drop_first().drop_last() =~= title.drop_last().drop_first());
        assert(key_of_title(title) =~= if title[0] == '\'' {
            key_of_title(title.drop_first())
        } else {
            seq![key_letter(title[0])] + key_of_title(title.drop_first())
        });
    }
}

proof fn lemma_key_len(title: Seq<char>)
    ensures
        title.len() > 0 && title.last() != '\'' ==> key_of_title(title).len() > 0,
{
}

/// How far a key reaches is how long a title for it is.
proof fn lemma_reach_is(text: Seq<char>, key: Seq<char>, count: int)
    ensures
        key_reach(text, key) == Some(count) <==> {
            &&& 0 <= count <= text.len()
            &&& key_of_title(text.take(count)) == key
            &&& count > 0 ==> text[count - 1] != '\''
        },
    decreases text.len(),
{
    if 0 <= count <= text.len() {
        lemma_key_len(text.take(count));
    }
    if key.len() == 0 {
        if count == 0 {
            assert(key_of_title(text.take(0)) =~= key);
        }
    } else if text.len() == 0 {
        if count == 0 {
            assert(key_of_title(text.take(0)) =~= Seq::empty());
        }
    } else {
        lemma_key_reach(text, key);
        let tail = text.drop_first();
        lemma_reach_is(tail, key, count - 1);
        lemma_reach_is(tail, key.drop_first(), count - 1);
        lemma_key_reach(tail, key);
        lemma_key_reach(tail, key.drop_first());
        if count <= 0 {
            if count == 0 {
                assert(key_of_title(text.take(0)) =~= Seq::empty());
            }
        } else if count <= text.len() {
            let title = text.take(count);
            lemma_key_of_front(title);
            assert(title.drop_first() =~= tail.take(count - 1));
            assert(title[0] == text[0]);
            if count > 1 {
                assert(tail[count - 2] == text[count - 1]);
            }
            let c = text[0];
            assert(c != '\'' ==> key_letter(c) == (if ascii_lower(c) == ' ' || ascii_lower(c) == '-'
                || ascii_lower(c) == ',' {
                '_'
            } else {
                ascii_lower(c)
            }));
            assert((ascii_lower(c) == '\'') == (c == '\''));
            let inner = key_of_title(tail.take(count - 1));
            if c == '\'' {
                assert(key_reach(text, key) == match key_reach(tail, key) {
                    Some(n) => Some(n + 1),
                    None => None,
                });
            } else {
                assert((seq![key_letter(c)] + inner).drop_first() =~= inner);
                if key[0] == key_letter(c) {
                    assert(key =~= seq![key[0]] + key.drop_first());
                }
            }
        }
    }
}

/// A token's title is recognised exactly where the text begins with characters
/// that make up the token's key and a title may end behind them.
pub proof fn law_token_titles_are_recognised(text: Seq<char>, key: Seq<char>, count: int)
    ensures
        token_title(text, key) == Some(count) <==> begins_with_token(text, key, count),
{
    lemma_reach_is(text, key, count);
    lemma_key_reach(text, key);
    if let Some(found) = key_reach(text, key) {
        if found < text.len() {
            assert(text.skip(found)[0] == text[found]);
        }
    }
}

/// Whether the title that a row gives the text is shorter than `count`, or
/// there is none.
pub open spec fn is_shorter(text: Seq<char>, key: Seq<char>, count: int) -> bool {
    forall|other: int| #[trigger] begins_with_token(text, key, other) ==> other < count
}

proof fn lemma_shorter(text: Seq<char>, rows: Seq<(Seq<char>, TokenScriptId)>, count: int)
    requires
        forall|i: int| 0 <= i < rows.len() ==> is_shorter(text, (#[trigger] rows[i]).0, count),
    ensures
        longest_token_title(text, rows) matches Some((found, _)) ==> found < count,
    decreases rows.len(),
{
    if rows.len() > 0 {
        let earlier = rows.drop_last();
        assert forall|i: int| 0 <= i < earlier.len() implies is_shorter(
            text,
            (#[trigger] earlier[i]).0,
            count,
        ) by {
            assert(earlier[i] == rows[i]);
        }
        lemma_shorter(text, earlier, count);
        assert(is_shorter(text, rows[rows.len() - 1].0, count));
        if let Some(found) = token_title(text, rows.last().0) {
            law_token_titles_are_recognised(text, rows.last().0, found);
        }
    }
}

proof fn lemma_longest_is(
    text: Seq<char>,
    rows: Seq<(Seq<char>, TokenScriptId)>,
    at: int,
    count: int,
)
    requires
        0 <= at < rows.len(),
        begins_with_token(text, rows[at].0, count),
        forall|i: int|
            0 <= i < rows.len() && i != at ==> is_shorter(text, (#[trigger] rows[i]).0, count),
    ensures
        longest_token_title(text, rows) == Some((count, rows[at].1.0)),
    decreases rows.len(),
{
    let last = rows.len() - 1;
    let earlier = rows.drop_last();
    if at == last {
        assert forall|i: int| 0 <= i < earlier.len() implies is_shorter(
            text,
            (#[trigger] earlier[i]).0,
            count,
        ) by {
            assert(earlier[i] == rows[i]);
        }
        lemma_shorter(text, earlier, count);
        law_token_titles_are_recognised(text, rows[at].0, count);
    } else {
        assert forall|i: int| 0 <= i < earlier.len() && i != at implies is_shorter(
            text,
            (#[trigger] earlier[i]).0,
            count,
        ) by {
            assert(earlier[i] == rows[i]);
        }
        assert(earlier[at] == rows[at]);
        lemma_longest_is(text, earlier, at, count);
        assert(is_shorter(text, rows[last].0, count));
        if let Some(found) = token_title(text, rows.last().0) {
            law_token_titles_are_recognised(text, rows.last().0, found);
        }
    }
}

/// Where no card's title follows `named`, the token whose title is the longest
/// there gives the number.
pub proof fn law_named_tokens_become_numbers(
    before: Seq<char>,
    lead: Seq<char>,
    gap: Seq<char>,
    title: Seq<char>,
    rest: Seq<char>,
    references: Seq<(Seq<char>, u32)>,
    rows: Seq<(Seq<char>, TokenScriptId)>,
    at: int,
)
    requires
        names_nothing(before),
        is_lead(lead),
        is_blank(gap),
        title.len() > 0,
        !is_white_space(title[0]),
        forall|i: int|
            0 <= i < references.len() ==> !begins_with_title(
                title + rest,
                (#[trigger] references[i]).0,
            ),
        0 <= at < rows.len(),
        begins_with_token(title + rest, rows[at].0, title.len() as int),
        forall|i: int|
            0 <= i < rows.len() && i != at ==> is_shorter(
                title + rest,
                (#[trigger] rows[i]).0,
                title.len() as int,
            ),
    ensures
        named_qualifiers(before + lead + "named"@ + gap + title + rest, references, rows) == before
            + lead + "tokenId"@ + decimal(rows[at].1.0 as nat) + named_qualifiers(
            rest,
            references,
            rows,
        ),
{
    let text = title + rest;
    assert(text.skip(title.len() as int) =~= rest);
    if rest.len() > 0 {
        assert(text[title.len() as int] == rest[0]);
    }
    lemma_no_card_title(text, references);
    lemma_longest_is(text, rows, at, title.len() as int);
    let qualifier = "tokenId"@ + decimal(rows[at].1.0 as nat);
    lemma_replaced_qualifier(before, lead, gap, title, rest, qualifier, references, rows);
    assert(before + lead + qualifier =~= before + lead + "tokenId"@ + decimal(
        rows[at].1.0 as nat,
    ));
}

/// Whether the text ends in a lead.
pub open spec fn ends_in_lead(text: Seq<char>) -> bool {
    let count = text.len() as int;
    ||| count >= 1 && (text[count - 1] == '.' || text[count - 1] == '+')
    ||| count >= 2 && text[count - 1] == '!' && (text[count - 2] == '.' || text[count - 2] == '+')
    ||| count >= 10 && text.skip(count - 10) == "creatures "@
}

/// Whether the text behind `named` begins with no title that is known.
pub open spec fn is_unknown(
    text: Seq<char>,
    references: Seq<(Seq<char>, u32)>,
    rows: Seq<(Seq<char>, TokenScriptId)>,
) -> bool {
    &&& forall|i: int|
        0 <= i < references.len() ==> !begins_with_title(text, (#[trigger] references[i]).0)
    &&& forall|i: int| 0 <= i < rows.len() ==> is_shorter(text, (#[trigger] rows[i]).0, 0)
}

/// A `named` that is no qualifier, or that no known title follows, stays as it
/// reads. The rest of the line is treated as a line of its own.
pub proof fn law_other_names_stay(
    before: Seq<char>,
    rest: Seq<char>,
    references: Seq<(Seq<char>, u32)>,
    rows: Seq<(Seq<char>, TokenScriptId)>,
)
    requires
        forall|at: int| 0 <= at < before.len() ==> !occurs_at(before + "named"@, "named"@, at),
        !ends_in_lead(before) || is_unknown(trim_start(rest), references, rows),
    ensures
        named_qualifiers(before + "named"@ + rest, references, rows) == before + "named"@
            + named_qualifiers(rest, references, rows),
{
    reveal_strlit("named");
    let line = before + "named"@ + rest;
    let at = before.len() as int;
    lemma_find_from(line, "named"@, 0);
    assert(line.subrange(at, at + 5) =~= "named"@);
    assert(occurs_at(line, "named"@, at));
    assert forall|j: int| 0 <= j < at implies !occurs_at(line, "named"@, j) by {
        assert(!occurs_at(before + "named"@, "named"@, j));
        assert(line.subrange(j, j + 5) =~= (before + "named"@).subrange(j, j + 5));
    }
    assert(line.skip(at + 5) =~= rest);
    if at >= 10 {
        assert(line.subrange(at - 10, at) =~= before.skip(at - 10));
    }
    if at >= 1 {
        assert(line[at - 1] == before[at - 1]);
    }
    if at >= 2 {
        assert(line[at - 2] == before[at - 2]);
    }
    let text = trim_start(rest);
    if ends_in_lead(before) {
        lemma_no_card_title(text, references);
        lemma_shorter(text, rows, 0);
        lemma_longest_token_title(text, rows);
    }
    let step = named_step(line, references, rows, 0)->0;
    assert(step.kept_to == at + 5);
    assert(step.next == at + 5);
    assert(line[at + 4] == 'd');
    lemma_cut(line, at + 5);
    lemma_from_cut(line, references, rows, at + 5, at + 5);
    lemma_named_step(line, references, rows, 0);
    assert(named_qualifiers(line, references, rows) =~= before + "named"@ + named_qualifiers(
        rest,
        references,
        rows,
    ));
}

} // verus!
