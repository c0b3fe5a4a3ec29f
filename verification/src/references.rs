//! Card titles in executable fields and the numeric references that replace
//! them.

use vstd::prelude::*;
use vstd::slice::slice_subrange;

use crate::ids::CardScriptId;
use crate::letters::{lower_chars, lowered};
use crate::text::{
    chars_of, reads, replace_char, replaced_char, rest, same, string_of, trim, trimmed,
};

verus! {

/// The title references as titles and numbers.
pub open spec fn reference_views(references: Seq<(String, CardScriptId)>) -> Seq<
    (Seq<char>, u32),
> {
    Seq::new(references.len(), |i: int| (references[i].0@, references[i].1.0))
}

/// Whether one character of `left` replaced gives `right`.
pub open spec fn one_substitution(left: Seq<char>, right: Seq<char>) -> bool {
    &&& left.len() == right.len()
    &&& exists|i: int|
        0 <= i < left.len() && #[trigger] left.take(i) == right.take(i) && left.skip(i + 1)
            == right.skip(i + 1)
}

/// Whether one character inserted into `shorter` gives `longer`.
pub open spec fn one_insertion(shorter: Seq<char>, longer: Seq<char>) -> bool {
    &&& longer.len() == shorter.len() + 1
    &&& exists|i: int|
        0 <= i <= shorter.len() && #[trigger] shorter.take(i) == longer.take(i) && shorter.skip(i)
            == longer.skip(i + 1)
}

/// Whether at most one character has to be replaced, inserted or removed to
/// turn one text into the other.
pub open spec fn within_one_edit(left: Seq<char>, right: Seq<char>) -> bool {
    ||| left == right
    ||| one_substitution(left, right)
    ||| one_insertion(left, right)
    ||| one_insertion(right, left)
}

/// Whether two titles are within one edit when their case is ignored.
pub open spec fn titles_close(left: Seq<char>, right: Seq<char>) -> bool {
    within_one_edit(lower_chars(left), lower_chars(right))
}

/// It does not matter which of the two titles is called the misspelt one.
pub proof fn law_titles_close_is_symmetric(left: Seq<char>, right: Seq<char>)
    ensures
        titles_close(left, right) == titles_close(right, left),
{
    let a = lower_chars(left);
    let b = lower_chars(right);
    if one_substitution(a, b) {
        let i = choose|i: int|
            0 <= i < a.len() && #[trigger] a.take(i) == b.take(i) && a.skip(i + 1) == b.skip(i + 1);
        assert(b.take(i) == a.take(i));
        assert(one_substitution(b, a));
    }
    if one_substitution(b, a) {
        let i = choose|i: int|
            0 <= i < b.len() && #[trigger] b.take(i) == a.take(i) && b.skip(i + 1) == a.skip(i + 1);
        assert(a.take(i) == b.take(i));
        assert(one_substitution(a, b));
    }
}

/// The number of the first reference with the given title.
pub open spec fn exact_id(references: Seq<(Seq<char>, u32)>, title: Seq<char>) -> Option<u32>
    decreases references.len(),
{
    if references.len() == 0 {
        None
    } else if references[0].0 == title {
        Some(references[0].1)
    } else {
        exact_id(references.drop_first(), title)
    }
}

/// Whether the reference at `at` has a title close to the given one.
pub open spec fn is_close(references: Seq<(Seq<char>, u32)>, title: Seq<char>, at: int) -> bool {
    0 <= at < references.len() && titles_close(references[at].0, title)
}

/// The one number that all references with a close title share.
pub open spec fn close_id(references: Seq<(Seq<char>, u32)>, title: Seq<char>) -> Option<u32> {
    if exists|i: int| is_close(references, title, i) {
        let at = choose|i: int| is_close(references, title, i);
        if forall|j: int| is_close(references, title, j) ==> references[j].1 == references[at].1 {
            Some(references[at].1)
        } else {
            None
        }
    } else {
        None
    }
}

/// The number for a card title as an operand spells it: the exact title, else
/// the only number among the titles within one edit.
pub open spec fn id_for_name(value: Seq<char>, references: Seq<(Seq<char>, u32)>) -> Option<u32> {
    let title = replace_char(trim(value), ';', ',');
    match exact_id(references, title) {
        Some(id) => Some(id),
        None => close_id(references, title),
    }
}

/// The optional ID as a number.
pub open spec fn id_view(id: Option<CardScriptId>) -> Option<u32> {
    match id {
        Some(id) => Some(id.0),
        None => None,
    }
}

/// The length of the common beginning.
fn common_prefix(left: &[char], right: &[char]) -> (count: usize)
    ensures
        count <= left@.len(),
        count <= right@.len(),
        left@.take(count as int) == right@.take(count as int),
        count < left@.len() && count < right@.len() ==> left@[count as int] != right@[count as int],
{
    let mut i: usize = 0;
    while i < left.len() && i < right.len() && left[i] == right[i]
        invariant
            i <= left@.len(),
            i <= right@.len(),
            left@.take(i as int) == right@.take(i as int),
        decreases left@.len() - i,
    {
        assert(left@.take(i + 1) =~= left@.take(i as int).push(left@[i as int]));
        assert(right@.take(i + 1) =~= right@.take(i as int).push(right@[i as int]));
        i += 1;
    }
    i
}

/// Whether one inserted character makes the difference.
fn is_one_insertion(shorter: &[char], longer: &[char]) -> (res: bool)
    requires
        longer@.len() == shorter@.len() + 1,
    ensures
        res == one_insertion(shorter@, longer@),
{
    let at = common_prefix(shorter, longer);
    let count: usize = longer.len();
    assert(at < count);
    let res = same(rest(shorter, at), rest(longer, at + 1));
    proof {
        let a = shorter@;
        let b = longer@;
        if res {
            assert(a.take(at as int) == b.take(at as int));
            assert(one_insertion(a, b));
        }
        if one_insertion(a, b) {
            let i = choose|i: int|
                0 <= i <= a.len() && #[trigger] a.take(i) == b.take(i) && a.skip(i) == b.skip(
                    i + 1,
                );
            if at < i {
                assert(a.take(i)[at as int] == b.take(i)[at as int]);
                assert(false);
            }
            assert(a.skip(at as int) =~= a.skip(i).skip(at - i));
            assert(b.skip(at + 1) =~= b.skip(i + 1).skip(at - i));
        }
    }
    res
}

/// Whether one replaced character makes the difference.
fn is_one_substitution(left: &[char], right: &[char]) -> (res: bool)
    requires
        left@.len() == right@.len(),
    ensures
        res == (left@ == right@ || one_substitution(left@, right@)),
{
    let at = common_prefix(left, right);
    if at == left.len() {
        assert(left@.take(at as int) =~= left@);
        assert(right@.take(at as int) =~= right@);
        return true;
    }
    let res = same(rest(left, at + 1), rest(right, at + 1));
    proof {
        let a = left@;
        let b = right@;
        if res {
            assert(a.take(at as int) == b.take(at as int));
            assert(one_substitution(a, b));
        }
        if one_substitution(a, b) {
            let i = choose|i: int|
                0 <= i < a.len() && #[trigger] a.take(i) == b.take(i) && a.skip(i + 1) == b.skip(
                    i + 1,
                );
            if at < i {
                assert(a.take(i)[at as int] == b.take(i)[at as int]);
                assert(false);
            }
            if at > i {
                assert(a.skip(i + 1)[at - i - 1] == b.skip(i + 1)[at - i - 1]);
                assert(false);
            }
        }
    }
    res
}

/// Whether two titles differ by at most one edit when their case is ignored.
pub fn edit_distance_at_most_one(left: &str, right: &str) -> (res: bool)
    ensures
        res == titles_close(left@, right@),
{
    let left_chars = chars_of(left);
    let right_chars = chars_of(right);
    let a = lowered(left_chars.as_slice());
    let b = lowered(right_chars.as_slice());
    if a.len() == b.len() {
        is_one_substitution(a.as_slice(), b.as_slice())
    } else if a.len() < b.len() {
        b.len() - a.len() == 1 && is_one_insertion(a.as_slice(), b.as_slice())
    } else {
        a.len() - b.len() == 1 && is_one_insertion(b.as_slice(), a.as_slice())
    }
}

/// The number for a card title: the exact title, else the only number among
/// the titles within one edit. Where several cards are that close, none is
/// chosen.
pub fn numeric_id_for_name(value: &str, references: &[(String, CardScriptId)]) -> (res: Option<
    CardScriptId,
>)
    ensures
        id_view(res) == id_for_name(value@, reference_views(references@)),
{
    let chars = chars_of(value);
    numeric_id_for_title(chars.as_slice(), references)
}

/// The number for a card title given as characters.
pub(crate) fn numeric_id_for_title(value: &[char], references: &[(String, CardScriptId)]) -> (res:
    Option<CardScriptId>)
    ensures
        id_view(res) == id_for_name(value@, reference_views(references@)),
{
    let ghost rows = reference_views(references@);
    let title = replaced_char(trimmed(value), ';', ',');
    let mut i: usize = 0;
    assert(rows.skip(0) == rows);
    while i < references.len()
        invariant
            i <= references@.len(),
            rows == reference_views(references@),
            title@ == replace_char(trim(value@), ';', ','),
            exact_id(rows, title@) == exact_id(rows.skip(i as int), title@),
        decreases references@.len() - i,
    {
        assert(rows.skip(i as int)[0] == rows[i as int]);
        if reads(title.as_slice(), references[i].0.as_str()) {
            return Some(references[i].1);
        }
        assert(rows.skip(i as int).drop_first() == rows.skip(i + 1));
        i += 1;
    }
    let spelled = string_of(title.as_slice());
    let mut candidate: Option<CardScriptId> = None;
    let mut at: usize = 0;
    while at < references.len()
        invariant
            at <= references@.len(),
            rows == reference_views(references@),
            spelled@ == title@,
            title@ == replace_char(trim(value@), ';', ','),
            exact_id(rows, title@) is None,
            match candidate {
                Some(id) => {
                    &&& exists|k: int| k < at && is_close(rows, title@, k)
                    &&& forall|k: int| k < at && is_close(rows, title@, k) ==> rows[k].1 == id.0
                },
                None => forall|k: int| k < at ==> !is_close(rows, title@, k),
            },
        decreases references@.len() - at,
    {
        assert(rows[at as int].0 == references@[at as int].0@);
        if edit_distance_at_most_one(references[at].0.as_str(), spelled.as_str()) {
            let id = references[at].1;
            assert(is_close(rows, title@, at as int));
            if let Some(existing) = candidate {
                if existing.0 != id.0 {
                    proof {
                        let k = choose|k: int| k < at && is_close(rows, title@, k);
                        assert(rows[k].1 == existing.0);
                        assert(close_id(rows, title@) is None);
                    }
                    return None;
                }
            }
            candidate = Some(id);
        }
        at += 1;
    }
    proof {
        if candidate is Some {
            let k = choose|k: int| k < at && is_close(rows, title@, k);
            assert(is_close(rows, title@, k));
            let chosen = choose|k: int| is_close(rows, title@, k);
            assert(is_close(rows, title@, chosen));
        }
    }
    candidate
}

} // verus!
