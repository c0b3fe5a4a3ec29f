//! Tables: rows on lines, fields between tabs.

use vstd::prelude::*;

use crate::parameters::lemma_split_not_empty;
use crate::text::{
    chars_of, is_white_space, join, join_tail, lemma_find_char, lemma_find_char_is, lines, pieces,
    reads, split, string_of, string_views, strip_carriage_return, trim, trim_end, unlines, views,
};

verus! {

/// A header has no column of the name.
#[derive(Debug)]
pub struct MissingColumn {
    pub name: String,
}

/// A row has no field in a column.
#[derive(Debug)]
pub struct MissingField {
    pub line: usize,
    pub name: String,
}

/// The first place that holds the text.
pub open spec fn place_of(texts: Seq<Seq<char>>, wanted: Seq<char>) -> Option<int>
    decreases texts.len(),
{
    if texts.len() == 0 {
        None
    } else {
        match place_of(texts.drop_last(), wanted) {
            Some(at) => Some(at),
            None => if texts.last() == wanted {
                Some(texts.len() - 1)
            } else {
                None
            },
        }
    }
}

/// The place found holds the text, and no earlier place does.
pub proof fn lemma_place_of(texts: Seq<Seq<char>>, wanted: Seq<char>)
    ensures
        match place_of(texts, wanted) {
            Some(at) => {
                &&& 0 <= at < texts.len()
                &&& texts[at] == wanted
                &&& forall|i: int| 0 <= i < at ==> texts[i] != wanted
            },
            None => forall|i: int| 0 <= i < texts.len() ==> texts[i] != wanted,
        },
    decreases texts.len(),
{
    if texts.len() > 0 {
        let earlier = texts.drop_last();
        lemma_place_of(earlier, wanted);
        assert(forall|i: int| 0 <= i < earlier.len() ==> earlier[i] == texts[i]);
    }
}

/// The fields of a row.
pub fn fields_of(line: &[char]) -> (out: Vec<String>)
    ensures
        string_views(out@) == split(line@, '\t'),
        out@.len() > 0,
{
    let parts = pieces(line, '\t');
    let ghost all = split(line@, '\t');
    let mut out: Vec<String> = Vec::new();
    let mut i: usize = 0;
    while i < parts.len()
        invariant
            i <= parts@.len(),
            all == views(parts@),
            string_views(out@) == all.take(i as int),
        decreases parts@.len() - i,
    {
        let ghost before = string_views(out@);
        let field = string_of(parts[i]);
        out.push(field);
        assert(string_views(out@) =~= before.push(field@));
        assert(all.take(i + 1) =~= before.push(all[i as int]));
        i += 1;
    }
    proof {
        assert(all.take(all.len() as int) =~= all);
        lemma_split_not_empty(line@, '\t');
        assert(string_views(out@).len() == out@.len());
    }
    out
}

/// Looks for a column of the header.
pub fn column_index(columns: &[String], wanted: &str) -> (res: Result<usize, MissingColumn>)
    ensures
        match res {
            Ok(at) => place_of(string_views(columns@), wanted@) == Some(at as int),
            Err(missing) => place_of(string_views(columns@), wanted@) is None && missing.name@
                == wanted@,
        },
{
    let ghost all = string_views(columns@);
    let mut i: usize = 0;
    while i < columns.len()
        invariant
            i <= columns@.len(),
            all == string_views(columns@),
            forall|j: int| 0 <= j < i ==> all[j] != wanted@,
        decreases columns@.len() - i,
    {
        assert(all[i as int] == columns@[i as int]@);
        let column = chars_of(columns[i].as_str());
        if reads(column.as_slice(), wanted) {
            proof {
                lemma_place_of(all, wanted@);
            }
            return Ok(i);
        }
        i += 1;
    }
    proof {
        lemma_place_of(all, wanted@);
    }
    Err(MissingColumn { name: wanted.to_string() })
}

/// The field of a row in a column.
pub fn field<'a>(fields: &'a [String], index: usize, line_number: usize, name: &str) -> (res: Result<
    &'a String,
    MissingField,
>)
    ensures
        match res {
            Ok(text) => index < fields@.len() && text@ == fields@[index as int]@,
            Err(missing) => index >= fields@.len() && missing.line == line_number
                && missing.name@ == name@,
        },
{
    if index < fields.len() {
        Ok(&fields[index])
    } else {
        Err(MissingField { line: line_number, name: name.to_string() })
    }
}

/// Whether a text has no `c`.
pub open spec fn lacks(text: Seq<char>, c: char) -> bool {
    forall|i: int| 0 <= i < text.len() ==> #[trigger] text[i] != c
}

/// Parts without the separator, joined by it, split into the same parts.
pub proof fn lemma_split_join(parts: Seq<Seq<char>>, separator: char)
    requires
        parts.len() > 0,
        forall|i: int| 0 <= i < parts.len() ==> lacks(#[trigger] parts[i], separator),
    ensures
        split(join(parts, seq![separator]), separator) == parts,
    decreases parts.len(),
{
    let first = parts[0];
    let later = parts.drop_first();
    let text = join(parts, seq![separator]);
    assert(lacks(parts[0], separator));
    if later.len() == 0 {
        assert(join_tail(later, seq![separator]) =~= Seq::empty());
        assert(text =~= first);
        lemma_find_char(text, separator);
        assert(split(text, separator) == seq![text]);
        assert(parts =~= seq![first]);
    } else {
        let tail = join(later, seq![separator]);
        assert(join_tail(later, seq![separator]) =~= seq![separator] + tail);
        assert(text =~= first + seq![separator] + tail);
        let at = first.len() as int;
        assert(text[at] == separator);
        assert forall|j: int| 0 <= j < at implies text[j] != separator by {
            assert(text[j] == first[j]);
        }
        lemma_find_char_is(text, separator, at);
        assert(text.take(at) =~= first);
        assert(text.skip(at + 1) =~= tail);
        assert forall|i: int| 0 <= i < later.len() implies lacks(
            #[trigger] later[i],
            separator,
        ) by {
            assert(later[i] == parts[i + 1]);
        }
        lemma_split_join(later, separator);
        assert(parts =~= seq![first] + later);
    }
}

/// The closed lines, from the front.
proof fn lemma_unlines_front(rows: Seq<Seq<char>>)
    requires
        rows.len() > 0,
    ensures
        unlines(rows) == rows[0] + seq!['\n'] + unlines(rows.drop_first()),
    decreases rows.len(),
{
    if rows.len() == 1 {
        assert(rows.drop_last() =~= Seq::empty());
        assert(rows.drop_first() =~= Seq::empty());
        assert(unlines(rows.drop_last()) =~= Seq::empty());
        assert(unlines(rows.drop_first()) =~= Seq::empty());
        assert(unlines(rows) =~= rows[0] + seq!['\n'] + unlines(rows.drop_first()));
    } else {
        lemma_unlines_front(rows.drop_last());
        assert(rows.drop_last().drop_first() =~= rows.drop_first().drop_last());
        assert(unlines(rows) =~= rows[0] + seq!['\n'] + unlines(rows.drop_first()));
    }
}

/// Whether a text can stand on a line: it has no line feed and does not end in
/// a carriage return.
pub open spec fn fits_line(text: Seq<char>) -> bool {
    lacks(text, '\n') && (text.len() > 0 ==> text.last() != '\r')
}

/// Closed lines read as the same lines.
pub proof fn lemma_lines_unlines(rows: Seq<Seq<char>>)
    requires
        forall|i: int| 0 <= i < rows.len() ==> fits_line(#[trigger] rows[i]),
    ensures
        lines(unlines(rows)) == rows,
    decreases rows.len(),
{
    if rows.len() == 0 {
        assert(lines(unlines(rows)) =~= rows);
    } else {
        let first = rows[0];
        let later = rows.drop_first();
        let text = unlines(rows);
        assert(fits_line(rows[0]));
        lemma_unlines_front(rows);
        let at = first.len() as int;
        assert(text[at] == '\n');
        assert forall|j: int| 0 <= j < at implies text[j] != '\n' by {
            assert(text[j] == first[j]);
        }
        lemma_find_char_is(text, '\n', at);
        assert(text.take(at) =~= first);
        assert(text.skip(at + 1) =~= unlines(later));
        assert(strip_carriage_return(first) == first);
        assert forall|i: int| 0 <= i < later.len() implies fits_line(#[trigger] later[i]) by {
            assert(later[i] == rows[i + 1]);
        }
        lemma_lines_unlines(later);
        assert(rows =~= seq![first] + later);
    }
}

/// A text that begins with something else than white space is not blank.
pub proof fn lemma_not_blank(text: Seq<char>)
    requires
        text.len() > 0,
        !is_white_space(text[0]),
    ensures
        trim(text).len() > 0,
{
    lemma_end_not_blank(text);
}

proof fn lemma_end_not_blank(text: Seq<char>)
    requires
        text.len() > 0,
        !is_white_space(text[0]),
    ensures
        trim_end(text).len() > 0,
    decreases text.len(),
{
    if is_white_space(text.last()) {
        assert(text.drop_last()[0] == text[0]);
        lemma_end_not_blank(text.drop_last());
    }
}

} // verus!
