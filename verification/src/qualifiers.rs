//! Qualifiers inside selectors that name a card, a token or a set.

use vstd::prelude::*;
use vstd::slice::slice_subrange;

use crate::digest::{sha256_digest, text_digest};
use crate::ids::{CardScriptId, TokenScriptId};
use crate::letters::{
    ascii_lower, ascii_uppercase, is_ascii_alphanumeric, to_ascii_lower, to_ascii_uppercase,
};
use crate::numerals::{append_decimal, append_hex, decimal, hex};
use crate::parameters::TokenIndex;
use crate::references::reference_views;
use crate::script::optional_view;
use crate::text::{
    append, append_str, chars_of, find_from, front, is_white_space, lemma_find_from, position_from,
    reads, rest, stands_at, starts_with, string_of, trim_start, trimmed_start, white_space,
};

verus! {

/// How far a token key reaches into `text`: apostrophes are skipped, ASCII
/// letters match whatever their case, and a space, hyphen or comma stands for
/// an underscore.
pub open spec fn key_reach(text: Seq<char>, key: Seq<char>) -> Option<int>
    decreases text.len(),
{
    if key.len() == 0 {
        Some(0)
    } else if text.len() == 0 {
        None
    } else {
        let c = ascii_lower(text[0]);
        let inner = if c == '\'' {
            key_reach(text.drop_first(), key)
        } else if (if c == ' ' || c == '-' || c == ',' {
            '_'
        } else {
            c
        }) == key[0] {
            key_reach(text.drop_first(), key.drop_first())
        } else {
            None
        };
        match inner {
            Some(count) => Some(count + 1),
            None => None,
        }
    }
}

/// Whether `c` ends a card title inside a selector.
pub open spec fn ends_card_title(c: char) -> bool {
    is_white_space(c) || c == '.' || c == '+' || c == ',' || c == '/' || c == '$' || c == '>' || c
        == ')' || c == ';' || c == '|' || c == ']' || c == ':'
}

/// Whether `c` ends a token title inside a selector.
pub open spec fn ends_token_title(c: char) -> bool {
    ends_card_title(c) || c == '-'
}

/// The length of the token title for `key` that `text` begins with.
pub open spec fn token_title(text: Seq<char>, key: Seq<char>) -> Option<int> {
    match key_reach(text, key) {
        Some(count) => if count == text.len() || ends_token_title(text[count]) {
            Some(count)
        } else {
            None
        },
        None => None,
    }
}

/// The length and the number of the first reference whose title `text` begins
/// with.
pub open spec fn card_title(text: Seq<char>, references: Seq<(Seq<char>, u32)>) -> Option<
    (int, u32),
>
    decreases references.len(),
{
    if references.len() == 0 {
        None
    } else {
        let (title, id) = references[0];
        if starts_with(text, title) && (title.len() == text.len() || ends_card_title(
            text[title.len() as int],
        )) {
            Some((title.len() as int, id))
        } else {
            card_title(text, references.drop_first())
        }
    }
}

/// The length and the number of the longest token title that `text` begins
/// with.
pub open spec fn longest_token_title(
    text: Seq<char>,
    rows: Seq<(Seq<char>, TokenScriptId)>,
) -> Option<(int, u32)>
    decreases rows.len(),
{
    if rows.len() == 0 {
        None
    } else {
        let earlier = longest_token_title(text, rows.drop_last());
        match token_title(text, rows.last().0) {
            Some(count) => if earlier is None || count > (earlier->0).0 {
                Some((count, rows.last().1.0))
            } else {
                earlier
            },
            None => earlier,
        }
    }
}

/// The length of the title that `text` begins with, and the numeric qualifier
/// that takes its place. Card titles go before token titles.
pub open spec fn title_qualifier(
    text: Seq<char>,
    references: Seq<(Seq<char>, u32)>,
    rows: Seq<(Seq<char>, TokenScriptId)>,
) -> Option<(int, Seq<char>)> {
    match card_title(text, references) {
        Some((count, id)) => Some((count, "catalogId"@ + decimal(id as nat))),
        None => match longest_token_title(text, rows) {
            Some((count, id)) => Some((count, "tokenId"@ + decimal(id as nat))),
            None => None,
        },
    }
}

/// Where the qualifier with `named` at position `at` begins, and what it keeps
/// in front of the title: nothing after `.` or `+`, the `!` of a negated
/// qualifier, or the word `creatures` of a qualifier in prose.
pub open spec fn qualifier_lead(line: Seq<char>, at: int) -> Option<(int, Seq<char>)> {
    if at >= 1 && (line[at - 1] == '.' || line[at - 1] == '+') {
        Some((at, Seq::empty()))
    } else if at >= 2 && line[at - 1] == '!' && (line[at - 2] == '.' || line[at - 2] == '+') {
        Some((at - 1, "!"@))
    } else if at >= 10 && line.subrange(at - 10, at) == "creatures "@ {
        Some((at - 10, "creatures "@))
    } else {
        None
    }
}

/// One step through a line: the text up to `kept_to` stays, `inserted` takes
/// the place of what follows, and the search goes on at `next`.
pub struct NamedStep {
    pub kept_to: int,
    pub inserted: Seq<char>,
    pub next: int,
}

/// The step at the first `named` from `cursor` on. A `named` that no known
/// title follows stays as it reads, and so does one whose lead is part of a title
/// that was replaced just before.
pub open spec fn named_step(
    line: Seq<char>,
    references: Seq<(Seq<char>, u32)>,
    rows: Seq<(Seq<char>, TokenScriptId)>,
    cursor: int,
) -> Option<NamedStep> {
    match find_from(line, "named"@, cursor) {
        Some(at) => {
            let end = at + 5;
            let unchanged = NamedStep { kept_to: end, inserted: Seq::empty(), next: end };
            match qualifier_lead(line, at) {
                Some((start, lead)) => {
                    let title_text = trim_start(line.skip(end));
                    match title_qualifier(title_text, references, rows) {
                        Some((count, qualifier)) => if start >= cursor {
                            Some(
                                NamedStep {
                                    kept_to: start,
                                    inserted: lead + qualifier,
                                    next: line.len() - title_text.len() + count,
                                },
                            )
                        } else {
                            Some(unchanged)
                        },
                        None => Some(unchanged),
                    }
                },
                None => Some(unchanged),
            }
        },
        None => None,
    }
}

/// The rest of the line from `cursor` on, with its `named` qualifiers
/// replaced.
pub open spec fn named_from(
    line: Seq<char>,
    references: Seq<(Seq<char>, u32)>,
    rows: Seq<(Seq<char>, TokenScriptId)>,
    cursor: int,
) -> Seq<char>
    decreases line.len() - cursor,
{
    if cursor < 0 {
        line
    } else {
        match named_step(line, references, rows, cursor) {
            Some(step) => {
                proof {
                    lemma_named_step(line, references, rows, cursor);
                }
                line.subrange(cursor, step.kept_to) + step.inserted + named_from(
                    line,
                    references,
                    rows,
                    step.next,
                )
            },
            None => line.skip(cursor),
        }
    }
}

/// The line with its `named` qualifiers replaced by numeric ones.
pub open spec fn named_qualifiers(
    line: Seq<char>,
    references: Seq<(Seq<char>, u32)>,
    rows: Seq<(Seq<char>, TokenScriptId)>,
) -> Seq<char> {
    named_from(line, references, rows, 0)
}

/// Without titles to look for a line stays as it reads.
pub proof fn law_without_titles_lines_stay(line: Seq<char>)
    ensures
        named_qualifiers(line, Seq::empty(), Seq::empty()) == line,
{
    lemma_nothing_named(line, 0);
    assert(line.skip(0) =~= line);
}

proof fn lemma_nothing_named(line: Seq<char>, cursor: int)
    requires
        0 <= cursor <= line.len(),
    ensures
        named_from(line, Seq::empty(), Seq::empty(), cursor) == line.skip(cursor),
    decreases line.len() - cursor,
{
    match named_step(line, Seq::empty(), Seq::empty(), cursor) {
        Some(step) => {
            lemma_named_step(line, Seq::empty(), Seq::empty(), cursor);
            lemma_nothing_named(line, step.next);
            assert(step.inserted =~= Seq::empty());
            assert(line.subrange(cursor, step.kept_to) + line.skip(step.next) =~= line.skip(cursor));
        },
        None => {},
    }
}

/// The end of the run of ASCII letters and digits that starts at `from`.
pub open spec fn code_end(line: Seq<char>, from: int) -> int
    decreases line.len() - from,
{
    if 0 <= from < line.len() && is_ascii_alphanumeric(line[from]) {
        code_end(line, from + 1)
    } else {
        from
    }
}

/// The anonymous group that a set code belongs to: the first eight bytes of
/// the digest of its uppercase form.
pub open spec fn set_group_of(code: Seq<char>) -> Seq<char> {
    "setG"@ + hex(text_digest(ascii_uppercase(code)).take(8))
}

/// The rest of the line from `cursor` on, with its set qualifiers replaced. A
/// set qualifier follows `.` or `+` and has a code.
pub open spec fn set_from(line: Seq<char>, cursor: int) -> Seq<char>
    decreases line.len() - cursor,
{
    if cursor < 0 {
        line
    } else {
        match find_from(line, "set"@, cursor) {
            Some(at) => {
                let code_at = at + 3;
                let end = code_end(line, code_at);
                proof {
                    reveal_strlit("set");
                    lemma_find_from(line, "set"@, cursor);
                    lemma_code_end(line, code_at);
                }
                if at > 0 && (line[at - 1] == '.' || line[at - 1] == '+') && end > code_at {
                    line.subrange(cursor, at) + set_group_of(line.subrange(code_at, end))
                        + set_from(line, end)
                } else {
                    line.subrange(cursor, at) + "set"@ + set_from(line, code_at)
                }
            },
            None => line.skip(cursor),
        }
    }
}

/// The line with its set qualifiers replaced by anonymous groups.
pub open spec fn set_qualifiers(line: Seq<char>) -> Seq<char> {
    set_from(line, 0)
}

pub proof fn lemma_code_end(line: Seq<char>, from: int)
    requires
        0 <= from <= line.len(),
    ensures
        from <= code_end(line, from) <= line.len(),
    decreases line.len() - from,
{
    if from < line.len() && is_ascii_alphanumeric(line[from]) {
        lemma_code_end(line, from + 1);
    }
}

/// A key reaches no further than the text.
pub proof fn lemma_key_reach(text: Seq<char>, key: Seq<char>)
    ensures
        key_reach(text, key) matches Some(count) ==> 0 <= count <= text.len(),
    decreases text.len(),
{
    if key.len() > 0 && text.len() > 0 {
        lemma_key_reach(text.drop_first(), key);
        lemma_key_reach(text.drop_first(), key.drop_first());
    }
}

pub proof fn lemma_card_title(text: Seq<char>, references: Seq<(Seq<char>, u32)>)
    ensures
        card_title(text, references) matches Some((count, _)) ==> 0 <= count <= text.len(),
    decreases references.len(),
{
    if references.len() > 0 {
        lemma_card_title(text, references.drop_first());
    }
}

pub proof fn lemma_longest_token_title(
    text: Seq<char>,
    rows: Seq<(Seq<char>, TokenScriptId)>,
)
    ensures
        longest_token_title(text, rows) matches Some((count, _)) ==> 0 <= count <= text.len(),
    decreases rows.len(),
{
    if rows.len() > 0 {
        lemma_longest_token_title(text, rows.drop_last());
        lemma_key_reach(text, rows.last().0);
    }
}

pub proof fn lemma_trim_start_len(text: Seq<char>)
    ensures
        trim_start(text).len() <= text.len(),
    decreases text.len(),
{
    if text.len() > 0 && is_white_space(text[0]) {
        lemma_trim_start_len(text.drop_first());
    }
}

/// A step moves forward and stays inside the line.
pub proof fn lemma_named_step(
    line: Seq<char>,
    references: Seq<(Seq<char>, u32)>,
    rows: Seq<(Seq<char>, TokenScriptId)>,
    cursor: int,
)
    requires
        0 <= cursor,
    ensures
        named_step(line, references, rows, cursor) matches Some(step) ==> {
            &&& cursor <= step.kept_to <= line.len()
            &&& cursor < step.next <= line.len()
        },
{
    reveal_strlit("named");
    lemma_find_from(line, "named"@, cursor);
    if let Some(at) = find_from(line, "named"@, cursor) {
        let title_text = trim_start(line.skip(at + 5));
        lemma_trim_start_len(line.skip(at + 5));
        lemma_card_title(title_text, references);
        lemma_longest_token_title(title_text, rows);
    }
}

/// The length of the token title for `key` that `text` begins with.
fn token_title_length(text: &[char], key: &[char]) -> (res: Option<usize>)
    ensures
        match res {
            Some(count) => token_title(text@, key@) == Some(count as int) && count <= text@.len(),
            None => token_title(text@, key@) is None,
        },
{
    let mut i: usize = 0;
    let mut k: usize = 0;
    assert(text@.skip(0) == text@);
    assert(key@.skip(0) == key@);
    while k < key.len() && i < text.len()
        invariant
            i <= text@.len(),
            k <= key@.len(),
            key_reach(text@, key@) == match key_reach(
                text@.skip(i as int),
                key@.skip(k as int),
            ) {
                Some(count) => Some(count + i),
                None => None,
            },
        decreases text@.len() - i,
    {
        let ghost tail = text@.skip(i as int);
        let ghost key_tail = key@.skip(k as int);
        proof {
            assert(tail.drop_first() == text@.skip(i + 1));
            assert(key_tail.drop_first() == key@.skip(k + 1));
            assert(tail[0] == text@[i as int]);
            assert(key_tail[0] == key@[k as int]);
        }
        let c = to_ascii_lower(text[i]);
        if c == '\'' {
            i += 1;
            continue;
        }
        let mapped = if c == ' ' || c == '-' || c == ',' {
            '_'
        } else {
            c
        };
        if mapped != key[k] {
            return None;
        }
        i += 1;
        k += 1;
    }
    if k == key.len() {
        assert(key_reach(text@.skip(i as int), key@.skip(k as int)) == Some(0int));
        if i == text.len() || ends_title(text[i]) || text[i] == '-' {
            return Some(i);
        }
    }
    None
}

/// Whether `c` ends a card title inside a selector.
fn ends_title(c: char) -> (res: bool)
    ensures
        res == ends_card_title(c),
{
    white_space(c) || c == '.' || c == '+' || c == ',' || c == '/' || c == '$' || c == '>' || c
        == ')' || c == ';' || c == '|' || c == ']' || c == ':'
}

/// The token title for `token_key` that `text` begins with.
pub fn match_token_title(text: &str, token_key: &str) -> (res: Option<String>)
    ensures
        optional_view(res) == match token_title(text@, token_key@) {
            Some(count) => Some(text@.take(count)),
            None => None,
        },
{
    let chars = chars_of(text);
    let key = chars_of(token_key);
    match token_title_length(chars.as_slice(), key.as_slice()) {
        Some(count) => Some(string_of(front(chars.as_slice(), count))),
        None => None,
    }
}

/// The card title that `text` begins with.
fn leading_card_title(text: &[char], references: &[(String, CardScriptId)]) -> (res: Option<
    (usize, CardScriptId),
>)
    ensures
        match res {
            Some((count, id)) => card_title(text@, reference_views(references@)) == Some(
                (count as int, id.0),
            ) && count <= text@.len(),
            None => card_title(text@, reference_views(references@)) is None,
        },
{
    let ghost rows = reference_views(references@);
    let mut i: usize = 0;
    assert(rows.skip(0) == rows);
    while i < references.len()
        invariant
            i <= references@.len(),
            rows == reference_views(references@),
            card_title(text@, rows) == card_title(text@, rows.skip(i as int)),
        decreases references@.len() - i,
    {
        proof {
            assert(rows.skip(i as int)[0] == rows[i as int]);
            assert(rows.skip(i as int).drop_first() == rows.skip(i + 1));
        }
        let title = chars_of(references[i].0.as_str());
        if stands_at(text, title.as_slice(), 0) {
            let count: usize = title.len();
            if count == text.len() || ends_title(text[count]) {
                return Some((count, references[i].1));
            }
        }
        i += 1;
    }
    None
}

/// The longest token title that `text` begins with.
fn leading_token_title(text: &[char], tokens: &TokenIndex) -> (res: Option<
    (usize, TokenScriptId),
>)
    ensures
        match res {
            Some((count, id)) => longest_token_title(text@, tokens.rows()) == Some(
                (count as int, id.0),
            ) && count <= text@.len(),
            None => longest_token_title(text@, tokens.rows()) is None,
        },
{
    let ghost rows = tokens.rows();
    let total: usize = tokens.len();
    let mut longest: Option<(usize, TokenScriptId)> = None;
    let mut i: usize = 0;
    while i < total
        invariant
            i <= total == rows.len(),
            rows == tokens.rows(),
            match longest {
                Some((count, id)) => longest_token_title(text@, rows.take(i as int)) == Some(
                    (count as int, id.0),
                ) && count <= text@.len(),
                None => longest_token_title(text@, rows.take(i as int)) is None,
            },
        decreases total - i,
    {
        proof {
            assert(rows.take(i + 1).drop_last() == rows.take(i as int));
            assert(rows.take(i + 1).last() == rows[i as int]);
        }
        let key = chars_of(tokens.key_at(i).as_str());
        match token_title_length(text, key.as_slice()) {
            Some(count) => {
                let longer = match longest {
                    Some((known, _)) => count > known,
                    None => true,
                };
                if longer {
                    longest = Some((count, *tokens.value_at(i)));
                }
            },
            None => {},
        }
        i += 1;
    }
    assert(rows.take(total as int) == rows);
    longest
}

/// The title that `text` begins with, and the numeric qualifier for it.
fn leading_title(
    text: &[char],
    references: &[(String, CardScriptId)],
    tokens: &TokenIndex,
) -> (res: Option<(usize, Vec<char>)>)
    ensures
        match res {
            Some((count, qualifier)) => title_qualifier(
                text@,
                reference_views(references@),
                tokens.rows(),
            ) == Some((count as int, qualifier@)) && count <= text@.len(),
            None => title_qualifier(text@, reference_views(references@), tokens.rows()) is None,
        },
{
    if let Some((count, id)) = leading_card_title(text, references) {
        let mut qualifier = chars_of("catalogId");
        append_decimal(&mut qualifier, id.0 as u64);
        return Some((count, qualifier));
    }
    if let Some((count, id)) = leading_token_title(text, tokens) {
        let mut qualifier = chars_of("tokenId");
        append_decimal(&mut qualifier, id.0 as u64);
        return Some((count, qualifier));
    }
    None
}

/// Where the qualifier with `named` at `at` begins, and what it keeps.
fn lead_of(line: &[char], at: usize) -> (res: Option<(usize, &'static str)>)
    requires
        at <= line@.len(),
    ensures
        match res {
            Some((start, lead)) => qualifier_lead(line@, at as int) == Some(
                (start as int, lead@),
            ) && start <= at,
            None => qualifier_lead(line@, at as int) is None,
        },
{
    if at >= 1 && (line[at - 1] == '.' || line[at - 1] == '+') {
        proof {
            reveal_strlit("");
            assert(""@ =~= Seq::<char>::empty());
        }
        Some((at, ""))
    } else if at >= 2 && line[at - 1] == '!' && (line[at - 2] == '.' || line[at - 2] == '+') {
        Some((at - 1, "!"))
    } else if at >= 10 && reads(slice_subrange(line, at - 10, at), "creatures ") {
        Some((at - 10, "creatures "))
    } else {
        None
    }
}

/// The step at the first `named` from `cursor` on: how far the text stays,
/// what is inserted, and where the search goes on.
fn next_step(
    text: &[char],
    references: &[(String, CardScriptId)],
    tokens: &TokenIndex,
    cursor: usize,
) -> (res: Option<(usize, Vec<char>, usize)>)
    requires
        cursor <= text@.len(),
    ensures
        match res {
            Some((kept_to, inserted, next)) => {
                &&& named_step(
                    text@,
                    reference_views(references@),
                    tokens.rows(),
                    cursor as int,
                ) == Some(
                    NamedStep {
                        kept_to: kept_to as int,
                        inserted: inserted@,
                        next: next as int,
                    },
                )
                &&& cursor <= kept_to <= text@.len()
                &&& cursor < next <= text@.len()
            },
            None => named_step(
                text@,
                reference_views(references@),
                tokens.rows(),
                cursor as int,
            ) is None,
        },
{
    let ghost titles = reference_views(references@);
    let total: usize = text.len();
    proof {
        reveal_strlit("named");
        lemma_named_step(text@, titles, tokens.rows(), cursor as int);
    }
    match position_from(text, "named", cursor) {
        Some(at) => {
            let end: usize = at + 5;
            let unchanged: Vec<char> = Vec::new();
            assert(unchanged@ =~= Seq::<char>::empty());
            match lead_of(text, at) {
                Some((start, lead)) => {
                    let title_text = trimmed_start(rest(text, end));
                    match leading_title(title_text, references, tokens) {
                        Some((count, qualifier)) => {
                            if start >= cursor {
                                let mut inserted = chars_of(lead);
                                append(&mut inserted, qualifier.as_slice());
                                Some((start, inserted, total - title_text.len() + count))
                            } else {
                                Some((end, unchanged, end))
                            }
                        },
                        None => Some((end, unchanged, end)),
                    }
                },
                None => Some((end, unchanged, end)),
            }
        },
        None => None,
    }
}

/// Replaces the `named` qualifiers of a line by numeric ones.
pub fn replace_named_qualifiers(
    line: &str,
    references: &[(String, CardScriptId)],
    token_index: &TokenIndex,
) -> (out: String)
    ensures
        out@ == named_qualifiers(line@, reference_views(references@), token_index.rows()),
{
    let ghost rows = token_index.rows();
    let ghost titles = reference_views(references@);
    let chars = chars_of(line);
    let text = chars.as_slice();
    let mut out: Vec<char> = Vec::new();
    let mut cursor: usize = 0;
    loop
        invariant
            cursor <= text@.len(),
            text@ == line@,
            rows == token_index.rows(),
            titles == reference_views(references@),
            out@ + named_from(line@, titles, rows, cursor as int) == named_qualifiers(
                line@,
                titles,
                rows,
            ),
        decreases text@.len() - cursor,
    {
        let ghost before = out@;
        let ghost tail = named_from(line@, titles, rows, cursor as int);
        match next_step(text, references, token_index, cursor) {
            Some((kept_to, inserted, next)) => {
                append(&mut out, slice_subrange(text, cursor, kept_to));
                append(&mut out, inserted.as_slice());
                proof {
                    let later = named_from(line@, titles, rows, next as int);
                    assert(tail == line@.subrange(cursor as int, kept_to as int) + inserted@
                        + later);
                    assert(before + tail =~= out@ + later);
                }
                cursor = next;
            },
            None => {
                append(&mut out, rest(text, cursor));
                return string_of(out.as_slice());
            },
        }
    }
}

/// Appends the anonymous group that a digest stands for: `setG` and the
/// hexadecimal form of its first eight bytes.
pub fn append_set_group(out: &mut Vec<char>, digest: &[u8])
    requires
        digest@.len() >= 8,
    ensures
        final(out)@ == old(out)@ + ("setG"@ + hex(digest@.take(8))),
{
    append_str(out, "setG");
    append_hex(out, slice_subrange(digest, 0, 8));
    assert(digest@.subrange(0, 8) == digest@.take(8));
    assert(out@ =~= old(out)@ + ("setG"@ + hex(digest@.take(8))));
}

/// Replaces the set qualifiers of a line by anonymous groups.
pub fn anonymize_set_qualifiers(line: &str) -> (out: String)
    ensures
        out@ == set_qualifiers(line@),
{
    let chars = chars_of(line);
    let text = chars.as_slice();
    let mut out: Vec<char> = Vec::new();
    let mut cursor: usize = 0;
    loop
        invariant
            cursor <= text@.len(),
            text@ == line@,
            out@ + set_from(line@, cursor as int) == set_qualifiers(line@),
        decreases text@.len() - cursor,
    {
        let ghost before = out@;
        let ghost tail = set_from(line@, cursor as int);
        proof {
            reveal_strlit("set");
        }
        let at = match position_from(text, "set", cursor) {
            Some(at) => at,
            None => {
                append(&mut out, rest(text, cursor));
                return string_of(out.as_slice());
            },
        };
        append(&mut out, slice_subrange(text, cursor, at));
        let total: usize = text.len();
        assert(at + 3 <= total);
        let code_at: usize = at + 3;
        let mut end: usize = code_at;
        while end < text.len() && ascii_alphanumeric(text[end])
            invariant
                code_at <= end <= text@.len(),
                code_end(text@, code_at as int) == code_end(text@, end as int),
            decreases text@.len() - end,
        {
            end += 1;
        }
        assert(end == code_end(line@, code_at as int));
        if at > 0 && (text[at - 1] == '.' || text[at - 1] == '+') && end > code_at {
            let code = to_ascii_uppercase(slice_subrange(text, code_at, end));
            let code_text = string_of(code.as_slice());
            let digest = sha256_digest(code_text.as_str().as_bytes());
            append_set_group(&mut out, digest.as_slice());
            proof {
                let later = set_from(line@, end as int);
                let code = line@.subrange(code_at as int, end as int);
                assert(tail == line@.subrange(cursor as int, at as int) + set_group_of(code)
                    + later);
                assert(before + tail =~= out@ + later);
            }
            cursor = end;
        } else {
            append_str(&mut out, "set");
            proof {
                let later = set_from(line@, code_at as int);
                assert(tail == line@.subrange(cursor as int, at as int) + "set"@ + later);
                assert(before + tail =~= out@ + later);
            }
            cursor = code_at;
        }
    }
}

/// Whether `c` is an ASCII letter or digit.
fn ascii_alphanumeric(c: char) -> (res: bool)
    ensures
        res == is_ascii_alphanumeric(c),
{
    ('a' <= c && c <= 'z') || ('A' <= c && c <= 'Z') || ('0' <= c && c <= '9')
}

} // verus!
