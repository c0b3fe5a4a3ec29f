//! Rewriting the origin set of scripts that are already anonymous.

use vstd::prelude::*;

use crate::letters::is_ascii_uppercase;
use crate::numerals::{append_decimal, decimal, is_digit};
use crate::set_ids::{is_origin_set, validate_origin_set};
use crate::tables::{fits_line, lacks, lemma_lines_unlines};
use crate::text::{
    append, append_str, chars_of, find_char, has_prefix, lemma_find_char, line_slices, lines, same,
    starts_with, string_of, strip_carriage_return, unlines, views,
};

verus! {

/// Why a script's origin set cannot be rewritten.
#[derive(Clone, Copy, Debug, Eq, PartialEq, Structural)]
pub enum RewriteError {
    /// The new origin set is none.
    InvalidOriginSet,
    /// The script does not have its ID and an origin set exactly once.
    FieldCounts { ids: usize, origins: usize },
}

/// The line with a card's ID.
pub open spec fn id_line(id: u32) -> Seq<char> {
    "Id:"@ + decimal(id as nat)
}

/// The number of lines that read like the given one.
pub open spec fn count_lines(rows: Seq<Seq<char>>, wanted: Seq<char>) -> nat
    decreases rows.len(),
{
    if rows.len() == 0 {
        0
    } else {
        count_lines(rows.drop_last(), wanted) + (if rows.last() == wanted {
            1nat
        } else {
            0
        })
    }
}

/// The number of lines that begin with the prefix.
pub open spec fn count_prefixed(rows: Seq<Seq<char>>, prefix: Seq<char>) -> nat
    decreases rows.len(),
{
    if rows.len() == 0 {
        0
    } else {
        count_prefixed(rows.drop_last(), prefix) + (if starts_with(rows.last(), prefix) {
            1nat
        } else {
            0
        })
    }
}

/// A line after the rewriting: only the origin set changes.
pub open spec fn with_origin(line: Seq<char>, set: Seq<char>) -> Seq<char> {
    if starts_with(line, "OriginSet:"@) {
        "OriginSet:"@ + set
    } else {
        line
    }
}

/// The lines after the rewriting.
pub open spec fn with_origins(rows: Seq<Seq<char>>, set: Seq<char>) -> Seq<Seq<char>> {
    Seq::new(rows.len(), |i: int| with_origin(rows[i], set))
}

/// A script with another origin set.
pub open spec fn rewritten(source: Seq<char>, id: u32, set: Seq<char>) -> Result<
    Seq<char>,
    (nat, nat),
> {
    let rows = lines(source);
    let ids = count_lines(rows, id_line(id));
    let origins = count_prefixed(rows, "OriginSet:"@);
    if ids == 1 && origins == 1 {
        Ok(unlines(with_origins(rows, set)))
    } else {
        Err((ids, origins))
    }
}

/// Rewrites the origin set of a card's script, and nothing else.
pub fn rewrite_origin_set(source: &str, id: u32, origin_set: &str) -> (res: Result<
    String,
    RewriteError,
>)
    ensures
        match res {
            Ok(text) => is_origin_set(origin_set@) && rewritten(source@, id, origin_set@) == Ok::<
                Seq<char>,
                (nat, nat),
            >(text@),
            Err(RewriteError::InvalidOriginSet) => !is_origin_set(origin_set@),
            Err(RewriteError::FieldCounts { ids, origins }) => is_origin_set(origin_set@)
                && rewritten(source@, id, origin_set@) == Err::<Seq<char>, (nat, nat)>(
                (ids as nat, origins as nat),
            ),
        },
{
    match validate_origin_set(origin_set) {
        Ok(_) => {},
        Err(_) => {
            return Err(RewriteError::InvalidOriginSet);
        },
    }
    let chars = chars_of(source);
    let rows = line_slices(chars.as_slice());
    let ghost all = lines(source@);
    let mut expected = chars_of("Id:");
    append_decimal(&mut expected, id as u64);
    let mut out: Vec<char> = Vec::new();
    let mut ids: usize = 0;
    let mut origins: usize = 0;
    let mut i: usize = 0;
    proof {
        assert(all.take(0) =~= Seq::empty());
        assert(with_origins(all.take(0), origin_set@) =~= Seq::empty());
    }
    while i < rows.len()
        invariant
            i <= rows@.len(),
            all == views(rows@),
            expected@ == id_line(id),
            ids == count_lines(all.take(i as int), id_line(id)),
            ids <= i,
            origins == count_prefixed(all.take(i as int), "OriginSet:"@),
            origins <= i,
            out@ == unlines(with_origins(all.take(i as int), origin_set@)),
        decreases rows@.len() - i,
    {
        let row = rows[i];
        let ghost before = with_origins(all.take(i as int), origin_set@);
        proof {
            assert(all.take(i + 1).drop_last() =~= all.take(i as int));
            assert(all.take(i + 1).last() == row@);
            let after = with_origins(all.take(i + 1), origin_set@);
            assert(after.drop_last() =~= before);
            assert(after.last() == with_origin(row@, origin_set@));
        }
        if same(row, expected.as_slice()) {
            ids += 1;
        }
        let ghost start = out@;
        if has_prefix(row, "OriginSet:") {
            origins += 1;
            append_str(&mut out, "OriginSet:");
            append_str(&mut out, origin_set);
        } else {
            append(&mut out, row);
        }
        out.push('\n');
        assert(out@ =~= start + with_origin(row@, origin_set@) + seq!['\n']);
        i += 1;
    }
    assert(all.take(all.len() as int) =~= all);
    if ids != 1 || origins != 1 {
        return Err(RewriteError::FieldCounts { ids, origins });
    }
    Ok(string_of(out.as_slice()))
}

/// No line has a line feed; without carriage returns in the text no line has
/// one.
pub proof fn lemma_lines_fit(text: Seq<char>)
    ensures
        forall|i: int| 0 <= i < lines(text).len() ==> lacks(#[trigger] lines(text)[i], '\n'),
        lacks(text, '\r') ==> forall|i: int|
            0 <= i < lines(text).len() ==> fits_line(#[trigger] lines(text)[i]),
    decreases text.len(),
{
    let rows = lines(text);
    if text.len() > 0 {
        lemma_find_char(text, '\n');
        match find_char(text, '\n') {
            Some(at) => {
                let later = text.skip(at + 1);
                lemma_lines_fit(later);
                let first = strip_carriage_return(text.take(at));
                assert(lacks(first, '\n')) by {
                    assert forall|j: int| 0 <= j < first.len() implies #[trigger] first[j] != '\n' by {
                        assert(first[j] == text[j]);
                    }
                }
                if lacks(text, '\r') {
                    assert(lacks(later, '\r')) by {
                        assert forall|j: int| 0 <= j < later.len() implies #[trigger] later[j]
                            != '\r' by {
                            assert(later[j] == text[at + 1 + j]);
                        }
                    }
                    assert(first.len() > 0 ==> first.last() == text[first.len() - 1]);
                }
                assert forall|i: int| 0 <= i < rows.len() implies lacks(
                    #[trigger] rows[i],
                    '\n',
                ) by {
                    if i > 0 {
                        assert(rows[i] == lines(later)[i - 1]);
                    }
                }
                if lacks(text, '\r') {
                    assert forall|i: int| 0 <= i < rows.len() implies fits_line(
                        #[trigger] rows[i],
                    ) by {
                        if i > 0 {
                            assert(rows[i] == lines(later)[i - 1]);
                        }
                    }
                }
            },
            None => {
                assert(lacks(text, '\n'));
                assert(rows =~= seq![text]);
            },
        }
    }
}

proof fn lemma_same_counts(rows: Seq<Seq<char>>, id: u32, set: Seq<char>)
    ensures
        count_lines(with_origins(rows, set), id_line(id)) == count_lines(rows, id_line(id)),
        count_prefixed(with_origins(rows, set), "OriginSet:"@) == count_prefixed(
            rows,
            "OriginSet:"@,
        ),
    decreases rows.len(),
{
    if rows.len() > 0 {
        let after = with_origins(rows, set);
        lemma_same_counts(rows.drop_last(), id, set);
        assert(after.drop_last() =~= with_origins(rows.drop_last(), set));
        let line = rows.last();
        reveal_strlit("OriginSet:");
        reveal_strlit("Id:");
        let changed = "OriginSet:"@ + set;
        assert(changed.subrange(0, 10) =~= "OriginSet:"@);
        assert(starts_with(changed, "OriginSet:"@));
        if starts_with(line, "OriginSet:"@) {
            assert(line.subrange(0, 10)[0] == 'O');
            assert(line[0] == 'O');
            assert(id_line(id)[0] == 'I');
            assert(changed[0] == 'O');
        }
    }
}

/// Rewriting changes the origin set and nothing else: the text has the same
/// lines, but for the one with the origin set. Rewriting it again with the
/// same set changes nothing, and with another set comes to the same as
/// rewriting the first text with that one. The script has no carriage
/// returns, which would be taken for parts of line endings.
pub proof fn law_rewriting_touches_the_origin_set_alone(
    source: Seq<char>,
    id: u32,
    set: Seq<char>,
    other: Seq<char>,
)
    requires
        lacks(source, '\r'),
        is_origin_set(set),
        rewritten(source, id, set) is Ok,
    ensures
        lines(rewritten(source, id, set)->Ok_0) == with_origins(lines(source), set),
        rewritten(rewritten(source, id, set)->Ok_0, id, other) == rewritten(source, id, other),
{
    let rows = lines(source);
    let after = with_origins(rows, set);
    lemma_lines_fit(source);
    reveal_strlit("OriginSet:");
    assert forall|i: int| 0 <= i < after.len() implies fits_line(#[trigger] after[i]) by {
        assert(fits_line(rows[i]));
        if starts_with(rows[i], "OriginSet:"@) {
            lemma_origin_line_fits(set);
        }
    }
    lemma_lines_unlines(after);
    lemma_same_counts(rows, id, set);
    assert(with_origins(after, other) =~= with_origins(rows, other)) by {
        assert forall|i: int| 0 <= i < rows.len() implies with_origin(after[i], other)
            == with_origin(rows[i], other) by {
            let changed = "OriginSet:"@ + set;
            assert(changed.subrange(0, 10) =~= "OriginSet:"@);
        }
    }
}

proof fn lemma_origin_line_fits(set: Seq<char>)
    requires
        is_origin_set(set),
    ensures
        fits_line("OriginSet:"@ + set),
{
    reveal_strlit("OriginSet:");
    let line = "OriginSet:"@ + set;
    let year = set.take(4);
    let letters = set.skip(4);
    assert forall|i: int| 0 <= i < line.len() implies #[trigger] line[i] != '\n' by {
        if i >= 10 && i < 14 {
            assert(is_digit(year[i - 10]));
        } else if i >= 14 {
            assert(is_ascii_uppercase(letters[i - 14]));
        }
    }
    assert(is_ascii_uppercase(letters[letters.len() - 1]));
    assert(line.last() == letters[letters.len() - 1]);
}

} // verus!
