//! Which number a card title stands for.

use vstd::prelude::*;

use crate::anonymity::is_trimmed;
use crate::letters::lower_chars;
use crate::references::{
    close_id, exact_id, id_for_name, is_close, one_insertion, one_substitution, titles_close,
};
use crate::segment_laws::{is_blank, law_white_space_is_trimmed};
use crate::text::{replace_char, trim};

verus! {

/// Whether an operand spells the title: it may write `;` for `,`, which
/// separates operands.
pub open spec fn spells(operand: Seq<char>, title: Seq<char>) -> bool {
    &&& operand.len() == title.len()
    &&& forall|i: int|
        0 <= i < title.len() ==> title[i] == (if #[trigger] operand[i] == ';' {
            ','
        } else {
            operand[i]
        })
}

proof fn lemma_title_of(before: Seq<char>, operand: Seq<char>, after: Seq<char>, title: Seq<char>)
    requires
        is_blank(before),
        is_trimmed(operand),
        is_blank(after),
        spells(operand, title),
    ensures
        replace_char(trim(before + operand + after), ';', ',') == title,
{
    law_white_space_is_trimmed(before, operand, after);
    assert(replace_char(operand, ';', ',') =~= title);
}

proof fn lemma_exact_id(references: Seq<(Seq<char>, u32)>, title: Seq<char>, at: int)
    requires
        0 <= at < references.len(),
        references[at].0 == title,
        forall|i: int| 0 <= i < at ==> (#[trigger] references[i]).0 != title,
    ensures
        exact_id(references, title) == Some(references[at].1),
    decreases references.len(),
{
    if at > 0 {
        assert(references[0].0 != title);
        let later = references.drop_first();
        assert forall|i: int| 0 <= i < at - 1 implies (#[trigger] later[i]).0 != title by {
            assert(later[i] == references[i + 1]);
        }
        assert(later[at - 1] == references[at]);
        lemma_exact_id(later, title, at - 1);
    }
}

proof fn lemma_no_exact_id(references: Seq<(Seq<char>, u32)>, title: Seq<char>)
    requires
        forall|i: int| 0 <= i < references.len() ==> (#[trigger] references[i]).0 != title,
    ensures
        exact_id(references, title) is None,
    decreases references.len(),
{
    if references.len() > 0 {
        assert(references[0].0 != title);
        let later = references.drop_first();
        assert forall|i: int| 0 <= i < later.len() implies (#[trigger] later[i]).0 != title by {
            assert(later[i] == references[i + 1]);
        }
        lemma_no_exact_id(later, title);
    }
}

/// A title that is spelled as a reference has it finds that reference's number,
/// whatever titles come close to it.
pub proof fn law_titles_find_their_number(
    references: Seq<(Seq<char>, u32)>,
    at: int,
    before: Seq<char>,
    operand: Seq<char>,
    after: Seq<char>,
)
    requires
        0 <= at < references.len(),
        forall|i: int| 0 <= i < at ==> (#[trigger] references[i]).0 != references[at].0,
        is_blank(before),
        is_trimmed(operand),
        is_blank(after),
        spells(operand, references[at].0),
    ensures
        id_for_name(before + operand + after, references) == Some(references[at].1),
{
    lemma_title_of(before, operand, after, references[at].0);
    lemma_exact_id(references, references[at].0, at);
}

/// Without a reference that has the title, the references that come close to
/// it decide, if they agree.
pub proof fn law_misspelt_titles_find_the_only_number(
    references: Seq<(Seq<char>, u32)>,
    title: Seq<char>,
    at: int,
    before: Seq<char>,
    operand: Seq<char>,
    after: Seq<char>,
)
    requires
        0 <= at < references.len(),
        titles_close(references[at].0, title),
        forall|i: int| 0 <= i < references.len() ==> (#[trigger] references[i]).0 != title,
        is_blank(before),
        is_trimmed(operand),
        is_blank(after),
        spells(operand, title),
    ensures
        id_for_name(before + operand + after, references) == if forall|i: int|
            0 <= i < references.len() && titles_close((#[trigger] references[i]).0, title)
                ==> references[i].1 == references[at].1 {
            Some(references[at].1)
        } else {
            None
        },
{
    lemma_title_of(before, operand, after, title);
    lemma_no_exact_id(references, title);
    assert(is_close(references, title, at));
    let chosen = choose|i: int| is_close(references, title, i);
    if forall|i: int|
        0 <= i < references.len() && titles_close((#[trigger] references[i]).0, title)
            ==> references[i].1 == references[at].1 {
        assert(references[chosen].1 == references[at].1);
        assert forall|j: int| is_close(references, title, j) implies references[j].1
            == references[chosen].1 by {
            assert(titles_close(references[j].0, title));
        }
    } else {
        let other = choose|i: int|
            0 <= i < references.len() && titles_close((#[trigger] references[i]).0, title)
                && references[i].1 != references[at].1;
        assert(is_close(references, title, other));
        if close_id(references, title) is Some {
            assert(references[other].1 == references[chosen].1);
            assert(references[at].1 == references[chosen].1);
        }
    }
}

/// A title that no reference has or comes close to has no number.
pub proof fn law_unknown_titles_have_no_number(
    references: Seq<(Seq<char>, u32)>,
    title: Seq<char>,
    before: Seq<char>,
    operand: Seq<char>,
    after: Seq<char>,
)
    requires
        forall|i: int|
            0 <= i < references.len() ==> (#[trigger] references[i]).0 != title && !titles_close(
                references[i].0,
                title,
            ),
        is_blank(before),
        is_trimmed(operand),
        is_blank(after),
        spells(operand, title),
    ensures
        id_for_name(before + operand + after, references) is None,
{
    lemma_title_of(before, operand, after, title);
    lemma_no_exact_id(references, title);
    assert forall|i: int| !is_close(references, title, i) by {}
}

/// One changed, added or missing character, and letters in another case, leave
/// two titles close to each other.
pub proof fn law_one_edit_is_close(
    left: Seq<char>,
    right: Seq<char>,
    front: Seq<char>,
    first: char,
    second: char,
    back: Seq<char>,
)
    ensures
        lower_chars(left) == lower_chars(right) ==> titles_close(left, right),
        lower_chars(left) == front + seq![first] + back && lower_chars(right) == front
            + seq![second] + back ==> titles_close(left, right),
        lower_chars(left) == front + seq![first] + back && lower_chars(right) == front + back
            ==> titles_close(left, right) && titles_close(right, left),
{
    let a = lower_chars(left);
    let b = lower_chars(right);
    let at = front.len() as int;
    if a == front + seq![first] + back && b == front + seq![second] + back {
        assert(a.take(at) =~= b.take(at));
        assert(a.skip(at + 1) =~= b.skip(at + 1));
        assert(one_substitution(a, b));
    }
    if a == front + seq![first] + back && b == front + back {
        assert(b.take(at) =~= a.take(at));
        assert(b.skip(at) =~= a.skip(at + 1));
        assert(one_insertion(b, a));
    }
}

/// Two places in which titles of one length differ, or lengths that differ by
/// more than one, are too much.
pub proof fn law_two_edits_are_not_close(left: Seq<char>, right: Seq<char>, i: int, j: int)
    ensures
        lower_chars(left).len() > lower_chars(right).len() + 1 ==> !titles_close(left, right)
            && !titles_close(right, left),
        lower_chars(left).len() == lower_chars(right).len() && 0 <= i < j < lower_chars(left).len()
            && lower_chars(left)[i] != lower_chars(right)[i] && lower_chars(left)[j] != lower_chars(
            right,
        )[j] ==> !titles_close(left, right),
{
    let a = lower_chars(left);
    let b = lower_chars(right);
    if a.len() == b.len() && 0 <= i < j < a.len() && a[i] != b[i] && a[j] != b[j]
        && one_substitution(a, b) {
        let k = choose|k: int|
            0 <= k < a.len() && #[trigger] a.take(k) == b.take(k) && a.skip(k + 1) == b.skip(k + 1);
        if i < k {
            assert(a.take(k)[i] == b.take(k)[i]);
        } else {
            assert(a.skip(k + 1)[j - k - 1] == b.skip(k + 1)[j - k - 1]);
        }
    }
}

} // verus!
