//! What becomes of the set codes in selectors.

use vstd::prelude::*;

use crate::digest::text_digest;
use crate::letters::{ascii_uppercase, is_ascii_alphanumeric};
use crate::numerals::hex;
use crate::qualifiers::{code_end, lemma_code_end, set_from, set_qualifiers};
use crate::text::{find_from, lemma_find_from, occurs_at};

verus! {

/// Whether a character can stand in a set code.
pub open spec fn is_code_letter(c: char) -> bool {
    'a' <= c <= 'z' || 'A' <= c <= 'Z' || '0' <= c <= '9'
}

/// Whether the text is a set code.
pub open spec fn is_code(text: Seq<char>) -> bool {
    text.len() > 0 && forall|i: int| 0 <= i < text.len() ==> is_code_letter(#[trigger] text[i])
}

/// A code in capital letters.
pub open spec fn in_capitals(code: Seq<char>) -> Seq<char> {
    code.map_values(
        |c: char|
            if 'a' <= c <= 'z' {
                (c as u32 - 32) as char
            } else {
                c
            },
    )
}

/// Whether `set` begins nowhere before the end of the text when it follows
/// the text.
pub open spec fn is_first_set(before: Seq<char>) -> bool {
    forall|at: int| 0 <= at < before.len() ==> !occurs_at(before + "set"@, "set"@, at)
}

proof fn lemma_first_set(before: Seq<char>, tail: Seq<char>)
    requires
        is_first_set(before),
    ensures
        find_from(before + "set"@ + tail, "set"@, 0) == Some(before.len() as int),
{
    reveal_strlit("set");
    let line = before + "set"@ + tail;
    let at = before.len() as int;
    lemma_find_from(line, "set"@, 0);
    assert(line.subrange(at, at + 3) =~= "set"@);
    assert(occurs_at(line, "set"@, at));
    assert forall|j: int| 0 <= j < at implies !occurs_at(line, "set"@, j) by {
        assert(!occurs_at(before + "set"@, "set"@, j));
        assert(line.subrange(j, j + 3) =~= (before + "set"@).subrange(j, j + 3));
    }
}

proof fn lemma_code_end_behind(line: Seq<char>, from: int, at: int)
    requires
        0 <= from <= at <= line.len(),
    ensures
        code_end(line.skip(from), at - from) == code_end(line, at) - from,
    decreases line.len() - at,
{
    if at < line.len() && is_ascii_alphanumeric(line[at]) {
        lemma_code_end_behind(line, from, at + 1);
    }
}

proof fn lemma_set_found_behind(line: Seq<char>, from: int, cursor: int)
    requires
        0 <= from <= cursor <= line.len(),
    ensures
        match find_from(line, "set"@, cursor) {
            Some(at) => find_from(line.skip(from), "set"@, cursor - from) == Some(at - from),
            None => find_from(line.skip(from), "set"@, cursor - from) is None,
        },
    decreases line.len() + 1 - cursor,
{
    reveal_strlit("set");
    let rest = line.skip(from);
    if cursor + 3 <= line.len() {
        assert(line.subrange(cursor, cursor + 3) =~= rest.subrange(
            cursor - from,
            cursor - from + 3,
        ));
        lemma_set_found_behind(line, from, cursor + 1);
    }
}

/// What stands in front of a cut does not matter, as long as no lead stands
/// right in front of a `set` there.
proof fn lemma_set_cut(line: Seq<char>, from: int, cursor: int)
    requires
        0 <= from <= cursor <= line.len(),
        from == line.len() || line[from] != 's' || (from > 0 && line[from - 1] == 't'),
    ensures
        set_from(line, cursor) == set_from(line.skip(from), cursor - from),
    decreases line.len() - cursor,
{
    reveal_strlit("set");
    let rest = line.skip(from);
    lemma_set_found_behind(line, from, cursor);
    lemma_find_from(line, "set"@, cursor);
    match find_from(line, "set"@, cursor) {
        Some(at) => {
            let end = code_end(line, at + 3);
            assert(line[at] == line.subrange(at, at + 3)[0]);
            lemma_code_end(line, at + 3);
            lemma_code_end_behind(line, from, at + 3);
            lemma_set_cut(line, from, end);
            lemma_set_cut(line, from, at + 3);
            assert(line.subrange(cursor, at) =~= rest.subrange(cursor - from, at - from));
            assert(line.subrange(at + 3, end) =~= rest.subrange(at + 3 - from, end - from));
            if at > from {
                assert(rest[at - from - 1] == line[at - 1]);
            }
        },
        None => {
            assert(rest.skip(cursor - from) =~= line.skip(cursor));
        },
    }
}

proof fn lemma_code_end_is(line: Seq<char>, from: int, end: int)
    requires
        0 <= from <= end <= line.len(),
        forall|i: int| from <= i < end ==> is_code_letter(#[trigger] line[i]),
        end == line.len() || !is_code_letter(line[end]),
    ensures
        code_end(line, from) == end,
    decreases end - from,
{
    if from < end {
        assert(is_code_letter(line[from]));
        lemma_code_end_is(line, from + 1, end);
    }
}

/// The code of a set behind `set` in a selector becomes the first eight bytes
/// of the digest of the code in capital letters. The rest of the line is
/// treated as a line of its own.
pub proof fn law_set_codes_become_groups(
    before: Seq<char>,
    joint: char,
    code: Seq<char>,
    rest: Seq<char>,
)
    requires
        joint == '.' || joint == '+',
        is_first_set(before.push(joint)),
        is_code(code),
        rest.len() == 0 || !is_code_letter(rest[0]),
    ensures
        set_qualifiers(before.push(joint) + "set"@ + code + rest) == before.push(joint) + "setG"@
            + hex(text_digest(in_capitals(code)).take(8)) + set_qualifiers(rest),
{
    reveal_strlit("set");
    let front = before.push(joint);
    let line = front + "set"@ + (code + rest);
    let at = front.len() as int;
    let end = at + 3 + code.len();
    assert(line =~= front + "set"@ + code + rest);
    lemma_first_set(front, code + rest);
    assert(line[at - 1] == joint);
    assert forall|i: int| at + 3 <= i < end implies is_code_letter(#[trigger] line[i]) by {
        assert(line[i] == code[i - at - 3]);
    }
    assert(end < line.len() ==> line[end] == rest[0]);
    lemma_code_end_is(line, at + 3, end);
    assert(line.subrange(at + 3, end) =~= code);
    assert(in_capitals(code) =~= ascii_uppercase(code));
    assert(line.subrange(0, at) =~= front);
    assert(line.skip(end) =~= rest);
    lemma_set_cut(line, end, end);
    assert(set_qualifiers(line) =~= front + "setG"@ + hex(
        text_digest(in_capitals(code)).take(8),
    ) + set_qualifiers(rest));
}

/// A `set` that nothing joins to a selector, or that no code follows, stays as
/// it reads. The rest of the line is treated as a line of its own.
pub proof fn law_other_sets_stay(before: Seq<char>, rest: Seq<char>)
    requires
        is_first_set(before),
        (before.len() > 0 ==> before.last() != '.' && before.last() != '+') || rest.len() == 0
            || !is_code_letter(rest[0]),
    ensures
        set_qualifiers(before + "set"@ + rest) == before + "set"@ + set_qualifiers(rest),
{
    reveal_strlit("set");
    let line = before + "set"@ + rest;
    let at = before.len() as int;
    lemma_first_set(before, rest);
    if at > 0 {
        assert(line[at - 1] == before.last());
    }
    if rest.len() > 0 {
        assert(line[at + 3] == rest[0]);
    }
    assert(line[at + 2] == 't');
    lemma_set_cut(line, at + 3, at + 3);
    assert(line.skip(at + 3) =~= rest);
    assert(line.subrange(0, at) =~= before);
    assert(set_qualifiers(line) =~= before + "set"@ + set_qualifiers(rest));
}

/// A line without `set` stays as it reads.
pub proof fn law_lines_without_sets_stay(line: Seq<char>)
    requires
        forall|at: int| !occurs_at(line, "set"@, at),
    ensures
        set_qualifiers(line) == line,
{
    lemma_find_from(line, "set"@, 0);
    assert(line.skip(0) =~= line);
}

} // verus!
