//! The top-level fields of a script: one `Key:Value` per line.

use vstd::prelude::*;

use crate::text::{
    chars_of, halves, reads, join, joined, line_slices, lines, owned_views, split_once, string_of,
    string_views, to_owned, trim, trimmed, views,
};

verus! {

/// The key and the value of a field line, without surrounding white space.
pub open spec fn field_of(line: Seq<char>) -> Option<(Seq<char>, Seq<char>)> {
    match split_once(line, ':') {
        Some((key, value)) => Some((trim(key), trim(value))),
        None => None,
    }
}

/// The values of the fields with the key `wanted`, in the order of the rows.
pub open spec fn field_values(rows: Seq<Seq<char>>, wanted: Seq<char>) -> Seq<Seq<char>>
    decreases rows.len(),
{
    if rows.len() == 0 {
        Seq::empty()
    } else {
        let earlier = field_values(rows.drop_last(), wanted);
        match field_of(rows.last()) {
            Some((key, value)) => if key == wanted {
                earlier.push(value)
            } else {
                earlier
            },
            None => earlier,
        }
    }
}

/// The value of the first field with the key `wanted`.
pub open spec fn first_value(script: Seq<char>, wanted: Seq<char>) -> Option<Seq<char>> {
    let values = field_values(lines(script), wanted);
    if values.len() > 0 {
        Some(values[0])
    } else {
        None
    }
}

/// Whether one of the rows declares the alternate mode.
pub open spec fn has_mode(rows: Seq<Seq<char>>, mode: Seq<char>) -> bool {
    exists|i: int|
        0 <= i < rows.len() && field_of(#[trigger] rows[i]) == Some(("AlternateMode"@, mode))
}

/// The name that a script's front is looked up by: the first `Name`, all names
/// joined for a split card, or the joined `CopyFaceFrom` names where there is
/// no `Name`.
pub open spec fn identity_name(script: Seq<char>) -> Option<Seq<char>> {
    let rows = lines(script);
    let names = field_values(rows, "Name"@);
    let copied = field_values(rows, "CopyFaceFrom"@);
    if has_mode(rows, "Split"@) && names.len() >= 2 {
        Some(join(names, " // "@))
    } else if names.len() > 0 {
        Some(names[0])
    } else if copied.len() > 0 {
        Some(join(copied, " // "@))
    } else {
        None
    }
}

/// The rows after the first one that reads `ALTERNATE`.
pub open spec fn alternate_rows(rows: Seq<Seq<char>>) -> Seq<Seq<char>>
    decreases rows.len(),
{
    if rows.len() == 0 {
        Seq::empty()
    } else if trim(rows[0]) == "ALTERNATE"@ {
        rows.drop_first()
    } else {
        alternate_rows(rows.drop_first())
    }
}

/// The text of a script's alternate block.
pub open spec fn alternate_text(script: Seq<char>) -> Seq<char> {
    join(alternate_rows(lines(script)), "\n"@)
}

/// The name and the text of a meld card's back, where the script defines it.
pub open spec fn meld_back(script: Seq<char>) -> Option<(Seq<char>, Seq<char>)> {
    if has_mode(lines(script), "Meld"@) {
        match first_value(alternate_text(script), "Name"@) {
            Some(name) => Some((trim(name), alternate_text(script))),
            None => None,
        }
    } else {
        None
    }
}

/// The optional string as a text.
pub open spec fn optional_view(text: Option<String>) -> Option<Seq<char>> {
    match text {
        Some(text) => Some(text@),
        None => None,
    }
}

/// The optional pair of strings as texts.
pub open spec fn optional_pair_view(pair: Option<(String, String)>) -> Option<
    (Seq<char>, Seq<char>),
> {
    match pair {
        Some((left, right)) => Some((left@, right@)),
        None => None,
    }
}

/// Collects the values of the fields with the key `wanted`.
pub(crate) fn values_in(rows: &Vec<&[char]>, wanted: &str) -> (out: Vec<Vec<char>>)
    ensures
        owned_views(out@) == field_values(views(rows@), wanted@),
{
    let ghost all = views(rows@);
    let mut out: Vec<Vec<char>> = Vec::new();
    let mut i: usize = 0;
    assert(owned_views(out@) =~= field_values(all.take(0), wanted@));
    while i < rows.len()
        invariant
            i <= rows@.len(),
            all == views(rows@),
            owned_views(out@) == field_values(all.take(i as int), wanted@),
        decreases rows@.len() - i,
    {
        proof {
            assert(all.take(i + 1).drop_last() == all.take(i as int));
            assert(all.take(i + 1).last() == rows@[i as int]@);
        }
        match halves(rows[i], ':') {
            Some((key, value)) => {
                if reads(trimmed(key), wanted) {
                    let ghost before = owned_views(out@);
                    let kept = to_owned(trimmed(value));
                    out.push(kept);
                    assert(owned_views(out@) =~= before.push(kept@));
                }
            },
            None => {},
        }
        i += 1;
    }
    assert(all.take(all.len() as int) == all);
    out
}

/// Whether one of the rows declares the alternate mode.
pub(crate) fn declares_mode(rows: &Vec<&[char]>, mode: &str) -> (res: bool)
    ensures
        res == has_mode(views(rows@), mode@),
{
    let ghost all = views(rows@);
    let mut i: usize = 0;
    while i < rows.len()
        invariant
            i <= rows@.len(),
            all == views(rows@),
            forall|j: int|
                0 <= j < i ==> field_of(#[trigger] all[j]) != Some(("AlternateMode"@, mode@)),
        decreases rows@.len() - i,
    {
        assert(all[i as int] == rows@[i as int]@);
        match halves(rows[i], ':') {
            Some((key, value)) => {
                if reads(trimmed(key), "AlternateMode") && reads(trimmed(value), mode) {
                    assert(field_of(all[i as int]) == Some(("AlternateMode"@, mode@)));
                    return true;
                }
            },
            None => {},
        }
        i += 1;
    }
    false
}

/// The value of the first top-level field with the key `wanted`.
pub fn top_level_value(script: &str, wanted: &str) -> (res: Option<String>)
    ensures
        optional_view(res) == first_value(script@, wanted@),
{
    let chars = chars_of(script);
    let rows = line_slices(chars.as_slice());
    let values = values_in(&rows, wanted);
    assert(owned_views(values@).len() == values@.len());
    if values.len() > 0 {
        assert(owned_views(values@)[0] == values@[0]@);
        Some(string_of(values[0].as_slice()))
    } else {
        None
    }
}

/// The values of the top-level fields with the key `wanted`, in their order.
pub fn top_level_values(script: &str, wanted: &str) -> (out: Vec<String>)
    ensures
        string_views(out@) == field_values(lines(script@), wanted@),
{
    let chars = chars_of(script);
    let rows = line_slices(chars.as_slice());
    let values = values_in(&rows, wanted);
    let mut out: Vec<String> = Vec::new();
    let mut i: usize = 0;
    while i < values.len()
        invariant
            i <= values@.len(),
            string_views(out@) == owned_views(values@).take(i as int),
        decreases values@.len() - i,
    {
        let ghost before = string_views(out@);
        let value = string_of(values[i].as_slice());
        out.push(value);
        assert(string_views(out@) =~= before.push(value@));
        assert(owned_views(values@).take(i + 1) =~= before.push(values@[i as int]@));
        i += 1;
    }
    assert(owned_views(values@).take(values@.len() as int) =~= owned_views(values@));
    out
}

/// The name that a script's front is looked up by.
pub fn source_identity_name(script: &str) -> (res: Option<String>)
    ensures
        optional_view(res) == identity_name(script@),
{
    let chars = chars_of(script);
    let rows = line_slices(chars.as_slice());
    let names = values_in(&rows, "Name");
    assert(owned_views(names@).len() == names@.len());
    if declares_mode(&rows, "Split") && names.len() >= 2 {
        let name = joined(&names, " // ");
        return Some(string_of(name.as_slice()));
    }
    if names.len() > 0 {
        assert(owned_views(names@)[0] == names@[0]@);
        return Some(string_of(names[0].as_slice()));
    }
    let copied = values_in(&rows, "CopyFaceFrom");
    assert(owned_views(copied@).len() == copied@.len());
    if copied.len() > 0 {
        let name = joined(&copied, " // ");
        Some(string_of(name.as_slice()))
    } else {
        None
    }
}

/// The back of a meld card: its name and the text of the `ALTERNATE` block
/// that defines it. A meld card's back has an identity of its own, unlike the
/// faces of a split or double-faced card.
pub fn meld_back_identity(script: &str) -> (res: Option<(String, String)>)
    ensures
        optional_pair_view(res) == meld_back(script@),
{
    let chars = chars_of(script);
    let rows = line_slices(chars.as_slice());
    if !declares_mode(&rows, "Meld") {
        return None;
    }
    let ghost all = views(rows@);
    let mut i: usize = 0;
    let mut found = false;
    assert(all.skip(0) == all);
    while i < rows.len() && !found
        invariant
            i <= rows@.len(),
            all == views(rows@),
            !found ==> alternate_rows(all) == alternate_rows(all.skip(i as int)),
            found ==> alternate_rows(all) == all.skip(i as int),
        decreases rows@.len() - i,
    {
        assert(all.skip(i as int)[0] == rows@[i as int]@);
        assert(all.skip(i as int).drop_first() == all.skip(i + 1));
        found = reads(trimmed(rows[i]), "ALTERNATE");
        i += 1;
    }
    if !found {
        assert(alternate_rows(all.skip(i as int)) == Seq::<Seq<char>>::empty());
        assert(all.skip(i as int) == Seq::<Seq<char>>::empty());
    }
    let mut kept: Vec<Vec<char>> = Vec::new();
    let ghost start = i as int;
    assert(owned_views(kept@) =~= all.subrange(start, start));
    while i < rows.len()
        invariant
            start <= i <= rows@.len(),
            0 <= start,
            all == views(rows@),
            owned_views(kept@) == all.subrange(start, i as int),
        decreases rows@.len() - i,
    {
        let ghost before = owned_views(kept@);
        let row = to_owned(rows[i]);
        kept.push(row);
        assert(owned_views(kept@) =~= before.push(row@));
        assert(all.subrange(start, i + 1) =~= before.push(all[i as int]));
        i += 1;
    }
    assert(all.subrange(start, all.len() as int) =~= all.skip(start));
    let back = joined(&kept, "\n");
    let back_text = string_of(back.as_slice());
    match top_level_value(back_text.as_str(), "Name") {
        Some(name) => {
            let name_chars = chars_of(name.as_str());
            Some((string_of(trimmed(name_chars.as_slice())), back_text))
        },
        None => None,
    }
}

} // verus!
