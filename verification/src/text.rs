//! Text as sequences of characters: what the line-based script and table
//! formats are made of.
//!
//! Each operation comes as a specification on `Seq<char>` and as an executable
//! function on character slices that is proved to compute it.

use vstd::prelude::*;
use vstd::slice::slice_subrange;

verus! {

/// `String::push` appends one character to the end of the string.
pub assume_specification[ String::push ](text: &mut String, c: char)
    ensures
        final(text)@ == old(text)@.push(c),
;

/// The characters that carry Unicode's `White_Space` property.
pub open spec fn is_white_space(c: char) -> bool {
    ||| '\u{9}' <= c <= '\u{d}'
    ||| c == '\u{20}'
    ||| c == '\u{85}'
    ||| c == '\u{a0}'
    ||| c == '\u{1680}'
    ||| '\u{2000}' <= c <= '\u{200a}'
    ||| c == '\u{2028}'
    ||| c == '\u{2029}'
    ||| c == '\u{202f}'
    ||| c == '\u{205f}'
    ||| c == '\u{3000}'
}

/// `text` without the white space it starts with.
pub open spec fn trim_start(text: Seq<char>) -> Seq<char>
    decreases text.len(),
{
    if text.len() > 0 && is_white_space(text[0]) {
        trim_start(text.drop_first())
    } else {
        text
    }
}

/// `text` without the white space it ends with.
pub open spec fn trim_end(text: Seq<char>) -> Seq<char>
    decreases text.len(),
{
    if text.len() > 0 && is_white_space(text.last()) {
        trim_end(text.drop_last())
    } else {
        text
    }
}

/// `text` without surrounding white space.
pub open spec fn trim(text: Seq<char>) -> Seq<char> {
    trim_end(trim_start(text))
}

/// Whether `pattern` stands in `text` at position `at`.
pub open spec fn occurs_at(text: Seq<char>, pattern: Seq<char>, at: int) -> bool {
    &&& 0 <= at <= text.len() - pattern.len()
    &&& text.subrange(at, at + pattern.len()) == pattern
}

/// Whether `text` begins with `prefix`.
pub open spec fn starts_with(text: Seq<char>, prefix: Seq<char>) -> bool {
    occurs_at(text, prefix, 0)
}

/// Whether `text` ends with `suffix`.
pub open spec fn ends_with(text: Seq<char>, suffix: Seq<char>) -> bool {
    occurs_at(text, suffix, text.len() - suffix.len())
}

/// The first position from `from` on at which `pattern` occurs in `text`.
pub open spec fn find_from(text: Seq<char>, pattern: Seq<char>, from: int) -> Option<int>
    decreases text.len() + 1 - from,
{
    if from < 0 || from + pattern.len() > text.len() {
        None
    } else if occurs_at(text, pattern, from) {
        Some(from)
    } else {
        find_from(text, pattern, from + 1)
    }
}

/// The first position at which `pattern` occurs in `text`.
pub open spec fn find(text: Seq<char>, pattern: Seq<char>) -> Option<int> {
    find_from(text, pattern, 0)
}

/// The first position from `from` on that holds `wanted`.
pub open spec fn find_char_from(text: Seq<char>, wanted: char, from: int) -> Option<int>
    decreases text.len() - from,
{
    if from < 0 || from >= text.len() {
        None
    } else if text[from] == wanted {
        Some(from)
    } else {
        find_char_from(text, wanted, from + 1)
    }
}

/// The first position that holds `wanted`.
pub open spec fn find_char(text: Seq<char>, wanted: char) -> Option<int> {
    find_char_from(text, wanted, 0)
}

/// The last position that holds `wanted`.
pub open spec fn rfind_char(text: Seq<char>, wanted: char) -> Option<int>
    decreases text.len(),
{
    if text.len() == 0 {
        None
    } else if text.last() == wanted {
        Some(text.len() - 1)
    } else {
        rfind_char(text.drop_last(), wanted)
    }
}

/// What stands before and after the first `separator`.
pub open spec fn split_once(text: Seq<char>, separator: char) -> Option<(Seq<char>, Seq<char>)> {
    match find_char(text, separator) {
        Some(at) => Some((text.take(at), text.skip(at + 1))),
        None => None,
    }
}

/// What stands before and after the last `separator`.
pub open spec fn rsplit_once(text: Seq<char>, separator: char) -> Option<(Seq<char>, Seq<char>)> {
    match rfind_char(text, separator) {
        Some(at) => Some((text.take(at), text.skip(at + 1))),
        None => None,
    }
}

/// The pieces of `text` between the separators, empty ones included.
pub open spec fn split(text: Seq<char>, separator: char) -> Seq<Seq<char>>
    decreases text.len(),
{
    match find_char(text, separator) {
        Some(at) => {
            proof {
                lemma_find_char(text, separator);
            }
            seq![text.take(at)] + split(text.skip(at + 1), separator)
        },
        None => seq![text],
    }
}

/// Each part with `separator` in front of it.
pub open spec fn join_tail(parts: Seq<Seq<char>>, separator: Seq<char>) -> Seq<char>
    decreases parts.len(),
{
    if parts.len() == 0 {
        Seq::empty()
    } else {
        separator + parts[0] + join_tail(parts.drop_first(), separator)
    }
}

/// The parts with `separator` between them.
pub open spec fn join(parts: Seq<Seq<char>>, separator: Seq<char>) -> Seq<char> {
    if parts.len() == 0 {
        Seq::empty()
    } else {
        parts[0] + join_tail(parts.drop_first(), separator)
    }
}

/// A line without the carriage return that belongs to its line ending.
pub open spec fn strip_carriage_return(line: Seq<char>) -> Seq<char> {
    if line.len() > 0 && line.last() == '\r' {
        line.drop_last()
    } else {
        line
    }
}

/// The lines of `text`. A line ends with `\n` or `\r\n`; the last line ending
/// is optional.
pub open spec fn lines(text: Seq<char>) -> Seq<Seq<char>>
    decreases text.len(),
{
    if text.len() == 0 {
        Seq::empty()
    } else {
        match find_char(text, '\n') {
            Some(at) => {
                proof {
                    lemma_find_char(text, '\n');
                }
                seq![strip_carriage_return(text.take(at))] + lines(text.skip(at + 1))
            },
            None => seq![text],
        }
    }
}

/// The lines, each closed by a line feed.
pub open spec fn unlines(rows: Seq<Seq<char>>) -> Seq<char>
    decreases rows.len(),
{
    if rows.len() == 0 {
        Seq::empty()
    } else {
        unlines(rows.drop_last()) + rows.last() + seq!['\n']
    }
}

/// `text` with every occurrence of `pattern`, from left to right and without
/// overlap, replaced. The pattern is not empty.
pub open spec fn replace(text: Seq<char>, pattern: Seq<char>, replacement: Seq<char>) -> Seq<char>
    decreases text.len(),
{
    match find(text, pattern) {
        Some(at) => {
            proof {
                lemma_find(text, pattern);
            }
            if pattern.len() == 0 {
                text
            } else {
                text.take(at) + replacement + replace(
                    text.skip(at + pattern.len()),
                    pattern,
                    replacement,
                )
            }
        },
        None => text,
    }
}

/// `text` with every `from` replaced by `to`.
pub open spec fn replace_char(text: Seq<char>, from: char, to: char) -> Seq<char> {
    text.map_values(
        |c: char|
            if c == from {
                to
            } else {
                c
            },
    )
}

/// A search for one character finds the first one, or there is none.
pub proof fn lemma_find_char_from(text: Seq<char>, wanted: char, from: int)
    requires
        0 <= from,
    ensures
        match find_char_from(text, wanted, from) {
            Some(at) => {
                &&& from <= at < text.len()
                &&& text[at] == wanted
                &&& forall|j: int| from <= j < at ==> text[j] != wanted
            },
            None => forall|j: int| from <= j < text.len() ==> text[j] != wanted,
        },
    decreases text.len() - from,
{
    if from < text.len() && text[from] != wanted {
        lemma_find_char_from(text, wanted, from + 1);
    }
}

pub proof fn lemma_find_char(text: Seq<char>, wanted: char)
    ensures
        match find_char(text, wanted) {
            Some(at) => {
                &&& 0 <= at < text.len()
                &&& text[at] == wanted
                &&& forall|j: int| 0 <= j < at ==> text[j] != wanted
            },
            None => forall|j: int| 0 <= j < text.len() ==> text[j] != wanted,
        },
{
    lemma_find_char_from(text, wanted, 0);
}

/// A position that holds the character, with none before it, is the one found.
pub proof fn lemma_find_char_is(text: Seq<char>, wanted: char, at: int)
    requires
        0 <= at < text.len(),
        text[at] == wanted,
        forall|j: int| 0 <= j < at ==> text[j] != wanted,
    ensures
        find_char(text, wanted) == Some(at),
{
    lemma_find_char(text, wanted);
}

/// A search for a pattern finds its first occurrence, or there is none.
pub proof fn lemma_find_from(text: Seq<char>, pattern: Seq<char>, from: int)
    requires
        0 <= from,
    ensures
        match find_from(text, pattern, from) {
            Some(at) => {
                &&& from <= at <= text.len() - pattern.len()
                &&& occurs_at(text, pattern, at)
                &&& forall|j: int| from <= j < at ==> !occurs_at(text, pattern, j)
            },
            None => forall|j: int| from <= j ==> !occurs_at(text, pattern, j),
        },
    decreases text.len() + 1 - from,
{
    if from + pattern.len() <= text.len() && !occurs_at(text, pattern, from) {
        lemma_find_from(text, pattern, from + 1);
    }
}

pub proof fn lemma_find(text: Seq<char>, pattern: Seq<char>)
    ensures
        match find(text, pattern) {
            Some(at) => {
                &&& 0 <= at <= text.len() - pattern.len()
                &&& occurs_at(text, pattern, at)
                &&& forall|j: int| 0 <= j < at ==> !occurs_at(text, pattern, j)
            },
            None => forall|j: int| 0 <= j ==> !occurs_at(text, pattern, j),
        },
{
    lemma_find_from(text, pattern, 0);
}

/// A search from the end finds the last position, or there is none.
pub proof fn lemma_rfind_char(text: Seq<char>, wanted: char)
    ensures
        match rfind_char(text, wanted) {
            Some(at) => {
                &&& 0 <= at < text.len()
                &&& text[at] == wanted
                &&& forall|j: int| at < j < text.len() ==> text[j] != wanted
            },
            None => forall|j: int| 0 <= j < text.len() ==> text[j] != wanted,
        },
    decreases text.len(),
{
    if text.len() > 0 && text.last() != wanted {
        let front = text.drop_last();
        lemma_rfind_char(front, wanted);
        assert(forall|j: int| 0 <= j < front.len() ==> front[j] == text[j]);
    }
}

/// The views of a sequence of slices.
pub open spec fn views(parts: Seq<&[char]>) -> Seq<Seq<char>> {
    Seq::new(parts.len(), |i: int| parts[i]@)
}

/// The views of a sequence of owned texts.
pub open spec fn owned_views(parts: Seq<Vec<char>>) -> Seq<Seq<char>> {
    Seq::new(parts.len(), |i: int| parts[i]@)
}

/// The views of a sequence of strings.
pub open spec fn string_views(parts: Seq<String>) -> Seq<Seq<char>> {
    Seq::new(parts.len(), |i: int| parts[i]@)
}

/// The characters of a string.
pub fn chars_of(text: &str) -> (out: Vec<char>)
    ensures
        out@ == text@,
{
    let mut out: Vec<char> = Vec::new();
    for c in it: text.chars()
        invariant
            it.seq() == text@,
            out@ == text@.take(it.index()),
    {
        out.push(c);
        assert(text@.take(it.index() + 1) == text@.take(it.index()).push(c));
    }
    assert(text@.take(text@.len() as int) == text@);
    out
}

/// The string that holds the given characters.
pub fn string_of(text: &[char]) -> (out: String)
    ensures
        out@ == text@,
{
    let mut out = String::new();
    let mut i: usize = 0;
    while i < text.len()
        invariant
            i <= text@.len(),
            out@ == text@.take(i as int),
        decreases text@.len() - i,
    {
        out.push(text[i]);
        assert(text@.take(i + 1) == text@.take(i as int).push(text@[i as int]));
        i += 1;
    }
    assert(text@.take(text@.len() as int) == text@);
    out
}

/// Appends characters to a text under construction.
pub fn append(out: &mut Vec<char>, more: &[char])
    ensures
        final(out)@ == old(out)@ + more@,
{
    let mut i: usize = 0;
    while i < more.len()
        invariant
            i <= more@.len(),
            out@ == old(out)@ + more@.take(i as int),
        decreases more@.len() - i,
    {
        out.push(more[i]);
        assert(more@.take(i + 1) == more@.take(i as int).push(more@[i as int]));
        i += 1;
    }
    assert(more@.take(more@.len() as int) == more@);
}

/// Appends a string to a text under construction.
pub fn append_str(out: &mut Vec<char>, more: &str)
    ensures
        final(out)@ == old(out)@ + more@,
{
    let chars = chars_of(more);
    append(out, chars.as_slice());
}

/// A copy of the slice.
pub fn to_owned(text: &[char]) -> (out: Vec<char>)
    ensures
        out@ == text@,
{
    let mut out: Vec<char> = Vec::new();
    append(&mut out, text);
    out
}

/// Whether two texts are the same.
pub fn same(left: &[char], right: &[char]) -> (res: bool)
    ensures
        res == (left@ == right@),
{
    if left.len() != right.len() {
        return false;
    }
    let mut i: usize = 0;
    while i < left.len()
        invariant
            i <= left@.len(),
            left@.len() == right@.len(),
            forall|j: int| 0 <= j < i ==> left@[j] == right@[j],
        decreases left@.len() - i,
    {
        if left[i] != right[i] {
            return false;
        }
        i += 1;
    }
    assert(left@ =~= right@);
    true
}

/// Whether the text is the given string.
pub fn reads(text: &[char], wanted: &str) -> (res: bool)
    ensures
        res == (text@ == wanted@),
{
    let chars = chars_of(wanted);
    same(text, chars.as_slice())
}

/// Whether `c` is white space.
pub fn white_space(c: char) -> (res: bool)
    ensures
        res == is_white_space(c),
{
    ('\u{9}' <= c && c <= '\u{d}') || c == '\u{20}' || c == '\u{85}' || c == '\u{a0}' || c
        == '\u{1680}' || ('\u{2000}' <= c && c <= '\u{200a}') || c == '\u{2028}' || c == '\u{2029}'
        || c == '\u{202f}' || c == '\u{205f}' || c == '\u{3000}'
}

/// The text from `from` on.
pub fn rest<'a>(text: &'a [char], from: usize) -> (out: &'a [char])
    requires
        from <= text@.len(),
    ensures
        out@ == text@.skip(from as int),
{
    slice_subrange(text, from, text.len())
}

/// The text after position `at`.
pub fn after<'a>(text: &'a [char], at: usize) -> (out: &'a [char])
    requires
        at < text@.len(),
    ensures
        out@ == text@.skip(at + 1),
{
    let count: usize = text.len();
    slice_subrange(text, at + 1, count)
}

/// The first `count` characters.
pub fn front<'a>(text: &'a [char], count: usize) -> (out: &'a [char])
    requires
        count <= text@.len(),
    ensures
        out@ == text@.take(count as int),
{
    slice_subrange(text, 0, count)
}

/// Drops leading white space.
pub fn trimmed_start<'a>(text: &'a [char]) -> (out: &'a [char])
    ensures
        out@ == trim_start(text@),
        out@.len() <= text@.len(),
        out@ == text@.skip(text@.len() - out@.len()),
{
    let mut i: usize = 0;
    assert(text@.skip(0) == text@);
    while i < text.len() && white_space(text[i])
        invariant
            i <= text@.len(),
            trim_start(text@) == trim_start(text@.skip(i as int)),
        decreases text@.len() - i,
    {
        assert(text@.skip(i as int).drop_first() == text@.skip(i + 1));
        i += 1;
    }
    rest(text, i)
}

/// Drops surrounding white space.
pub fn trimmed<'a>(text: &'a [char]) -> (out: &'a [char])
    ensures
        out@ == trim(text@),
{
    let body = trimmed_start(text);
    let mut count: usize = body.len();
    assert(body@.take(body@.len() as int) == body@);
    while count > 0 && white_space(body[count - 1])
        invariant
            count <= body@.len(),
            trim_end(body@) == trim_end(body@.take(count as int)),
        decreases count,
    {
        assert(body@.take(count as int).drop_last() == body@.take(count - 1));
        count -= 1;
    }
    front(body, count)
}

/// Whether `pattern` stands in `text` at position `at`.
pub fn stands_at(text: &[char], pattern: &[char], at: usize) -> (res: bool)
    ensures
        res == occurs_at(text@, pattern@, at as int),
{
    if at > text.len() || pattern.len() > text.len() - at {
        return false;
    }
    same(slice_subrange(text, at, at + pattern.len()), pattern)
}

/// Whether `text` begins with the string `prefix`.
pub fn has_prefix(text: &[char], prefix: &str) -> (res: bool)
    ensures
        res == starts_with(text@, prefix@),
{
    let chars = chars_of(prefix);
    stands_at(text, chars.as_slice(), 0)
}

/// Whether `text` ends with the string `suffix`.
pub fn has_suffix(text: &[char], suffix: &str) -> (res: bool)
    ensures
        res == ends_with(text@, suffix@),
{
    let chars = chars_of(suffix);
    if chars.len() > text.len() {
        return false;
    }
    stands_at(text, chars.as_slice(), text.len() - chars.len())
}

/// Looks for the first occurrence of `pattern`.
pub fn position(text: &[char], pattern: &[char]) -> (res: Option<usize>)
    ensures
        match res {
            Some(at) => find(text@, pattern@) == Some(at as int) && at + pattern@.len()
                <= text@.len(),
            None => find(text@, pattern@) is None,
        },
{
    let mut i: usize = 0;
    while i <= text.len() && pattern.len() <= text.len() - i
        invariant
            i <= text@.len() + 1,
            find(text@, pattern@) == find_from(text@, pattern@, i as int),
        decreases text@.len() + 1 - i,
    {
        if stands_at(text, pattern, i) {
            return Some(i);
        }
        if i == text.len() {
            assert(text@.subrange(i as int, i as int) == pattern@);
            return None;
        }
        i += 1;
    }
    None
}

/// Looks for the first occurrence of the string `pattern` from `from` on.
pub fn position_from(text: &[char], pattern: &str, from: usize) -> (res: Option<usize>)
    requires
        from <= text@.len(),
    ensures
        match res {
            Some(at) => find_from(text@, pattern@, from as int) == Some(at as int) && from <= at
                && at + pattern@.len() <= text@.len(),
            None => find_from(text@, pattern@, from as int) is None,
        },
{
    let chars = chars_of(pattern);
    let mut i: usize = from;
    while i <= text.len() && chars.len() <= text.len() - i
        invariant
            chars@ == pattern@,
            from <= i <= text@.len() + 1,
            find_from(text@, pattern@, from as int) == find_from(text@, pattern@, i as int),
        decreases text@.len() + 1 - i,
    {
        if stands_at(text, chars.as_slice(), i) {
            return Some(i);
        }
        if i == text.len() {
            assert(text@.subrange(i as int, i as int) == pattern@);
            return None;
        }
        i += 1;
    }
    None
}

/// Looks for the first occurrence of the string `pattern`.
pub fn position_of(text: &[char], pattern: &str) -> (res: Option<usize>)
    ensures
        match res {
            Some(at) => find(text@, pattern@) == Some(at as int) && at + pattern@.len()
                <= text@.len(),
            None => find(text@, pattern@) is None,
        },
{
    let chars = chars_of(pattern);
    position(text, chars.as_slice())
}

/// Looks for the first `wanted`.
pub fn position_of_char(text: &[char], wanted: char) -> (res: Option<usize>)
    ensures
        match res {
            Some(at) => find_char(text@, wanted) == Some(at as int) && at < text@.len(),
            None => find_char(text@, wanted) is None,
        },
{
    let mut i: usize = 0;
    while i < text.len()
        invariant
            i <= text@.len(),
            find_char(text@, wanted) == find_char_from(text@, wanted, i as int),
        decreases text@.len() - i,
    {
        if text[i] == wanted {
            return Some(i);
        }
        i += 1;
    }
    None
}

/// Looks for the last `wanted`.
pub fn last_position_of_char(text: &[char], wanted: char) -> (res: Option<usize>)
    ensures
        match res {
            Some(at) => rfind_char(text@, wanted) == Some(at as int) && at < text@.len(),
            None => rfind_char(text@, wanted) is None,
        },
{
    let mut i: usize = text.len();
    assert(text@.take(i as int) == text@);
    while i > 0
        invariant
            i <= text@.len(),
            rfind_char(text@, wanted) == rfind_char(text@.take(i as int), wanted),
        decreases i,
    {
        if text[i - 1] == wanted {
            return Some(i - 1);
        }
        assert(text@.take(i as int).drop_last() == text@.take(i - 1));
        i -= 1;
    }
    None
}

/// The optional pair of slices as texts.
pub open spec fn pair_view(pair: Option<(&[char], &[char])>) -> Option<(Seq<char>, Seq<char>)> {
    match pair {
        Some((left, right)) => Some((left@, right@)),
        None => None,
    }
}

/// Splits at the first `separator`.
pub fn halves<'a>(text: &'a [char], separator: char) -> (res: Option<(&'a [char], &'a [char])>)
    ensures
        pair_view(res) == split_once(text@, separator),
{
    match position_of_char(text, separator) {
        Some(at) => Some((front(text, at), after(text, at))),
        None => None,
    }
}

/// Splits at the last `separator`.
pub fn last_halves<'a>(text: &'a [char], separator: char) -> (res: Option<
    (&'a [char], &'a [char]),
>)
    ensures
        pair_view(res) == rsplit_once(text@, separator),
{
    match last_position_of_char(text, separator) {
        Some(at) => Some((front(text, at), after(text, at))),
        None => None,
    }
}

/// The pieces between the separators.
pub fn pieces<'a>(text: &'a [char], separator: char) -> (out: Vec<&'a [char]>)
    ensures
        views(out@) == split(text@, separator),
{
    let mut out: Vec<&'a [char]> = Vec::new();
    let mut tail: &'a [char] = text;
    assert(views(out@) =~= Seq::empty());
    loop
        invariant
            views(out@) + split(tail@, separator) == split(text@, separator),
        decreases tail@.len(),
    {
        match position_of_char(tail, separator) {
            Some(at) => {
                let piece = front(tail, at);
                let ghost before = views(out@);
                out.push(piece);
                assert(views(out@) == before.push(piece@));
                assert(before.push(piece@) + split(tail@.skip(at + 1), separator) == before + (
                seq![piece@] + split(tail@.skip(at + 1), separator)));
                tail = after(tail, at);
            },
            None => {
                let ghost before = views(out@);
                out.push(tail);
                assert(views(out@) == before.push(tail@));
                assert(before.push(tail@) == before + seq![tail@]);
                return out;
            },
        }
    }
}

/// The lines of the text.
pub fn line_slices<'a>(text: &'a [char]) -> (out: Vec<&'a [char]>)
    ensures
        views(out@) == lines(text@),
{
    let mut out: Vec<&'a [char]> = Vec::new();
    let mut tail: &'a [char] = text;
    assert(views(out@) =~= Seq::empty());
    while tail.len() > 0
        invariant
            views(out@) + lines(tail@) == lines(text@),
        decreases tail@.len(),
    {
        let ghost before = views(out@);
        match position_of_char(tail, '\n') {
            Some(at) => {
                let line = if at > 0 && tail[at - 1] == '\r' {
                    front(tail, at - 1)
                } else {
                    front(tail, at)
                };
                assert(line@ == strip_carriage_return(tail@.take(at as int)));
                out.push(line);
                assert(views(out@) == before.push(line@));
                assert(before.push(line@) + lines(tail@.skip(at + 1)) == before + (seq![line@]
                    + lines(tail@.skip(at + 1))));
                tail = after(tail, at);
            },
            None => {
                out.push(tail);
                assert(views(out@) == before.push(tail@));
                assert(before.push(tail@) == before + seq![tail@]);
                tail = rest(tail, tail.len());
                assert(lines(tail@) == Seq::<Seq<char>>::empty());
            },
        }
    }
    assert(lines(tail@) == Seq::<Seq<char>>::empty());
    out
}

/// Puts the separator between the parts.
pub fn joined(parts: &Vec<Vec<char>>, separator: &str) -> (out: Vec<char>)
    ensures
        out@ == join(owned_views(parts@), separator@),
{
    let ghost all = owned_views(parts@);
    let mut out: Vec<char> = Vec::new();
    if parts.len() == 0 {
        return out;
    }
    append(&mut out, parts[0].as_slice());
    let mut i: usize = 1;
    assert(all.skip(1) == all.drop_first());
    while i < parts.len()
        invariant
            1 <= i <= parts@.len(),
            all == owned_views(parts@),
            out@ + join_tail(all.skip(i as int), separator@) == join(all, separator@),
        decreases parts@.len() - i,
    {
        let ghost before = out@;
        append_str(&mut out, separator);
        append(&mut out, parts[i].as_slice());
        proof {
            let tail = all.skip(i as int);
            assert(tail.drop_first() == all.skip(i + 1));
            assert(tail[0] == parts@[i as int]@);
            assert(before + (separator@ + tail[0] + join_tail(tail.drop_first(), separator@))
                == before + separator@ + tail[0] + join_tail(tail.drop_first(), separator@));
        }
        i += 1;
    }
    assert(all.skip(i as int) == Seq::<Seq<char>>::empty());
    out
}

/// Replaces every occurrence of `pattern`.
pub fn replaced(text: &[char], pattern: &[char], replacement: &[char]) -> (out: Vec<char>)
    requires
        pattern@.len() > 0,
    ensures
        out@ == replace(text@, pattern@, replacement@),
{
    let mut out: Vec<char> = Vec::new();
    let mut tail: &[char] = text;
    loop
        invariant
            pattern@.len() > 0,
            out@ + replace(tail@, pattern@, replacement@) == replace(
                text@,
                pattern@,
                replacement@,
            ),
        decreases tail@.len(),
    {
        let ghost before = out@;
        let ghost before_tail = tail@;
        match position(tail, pattern) {
            Some(at) => {
                append(&mut out, front(tail, at));
                append(&mut out, replacement);
                proof {
                    let after = replace(tail@.skip(at + pattern@.len()), pattern@, replacement@);
                    assert(before + (tail@.take(at as int) + replacement@ + after) == before
                        + tail@.take(at as int) + replacement@ + after);
                }
                tail = rest(rest(tail, at), pattern.len());
                assert(tail@ == before_tail.skip(at + pattern@.len()));
            },
            None => {
                append(&mut out, tail);
                return out;
            },
        }
    }
}

/// Replaces every occurrence of the string `pattern`.
pub fn replaced_str(text: &[char], pattern: &str, replacement: &str) -> (out: Vec<char>)
    requires
        pattern@.len() > 0,
    ensures
        out@ == replace(text@, pattern@, replacement@),
{
    let from = chars_of(pattern);
    let to = chars_of(replacement);
    replaced(text, from.as_slice(), to.as_slice())
}

/// Replaces every `from` by `to`.
pub fn replaced_char(text: &[char], from: char, to: char) -> (out: Vec<char>)
    ensures
        out@ == replace_char(text@, from, to),
{
    let mut out: Vec<char> = Vec::new();
    let mut i: usize = 0;
    while i < text.len()
        invariant
            i <= text@.len(),
            out@ == replace_char(text@.take(i as int), from, to),
        decreases text@.len() - i,
    {
        let c = if text[i] == from {
            to
        } else {
            text[i]
        };
        out.push(c);
        assert(text@.take(i + 1) == text@.take(i as int).push(text@[i as int]));
        assert(out@ =~= replace_char(text@.take(i + 1), from, to));
        i += 1;
    }
    assert(text@.take(text@.len() as int) == text@);
    out
}

} // verus!
