//! The order of texts, and sorting by it.

use vstd::prelude::*;
use vstd::utf8::{encode_scalar, encode_utf8};

use crate::text::chars_of;

verus! {

/// Whether `left` comes before `right` in the order of their characters' code
/// points, which is the order of their UTF-8 bytes.
pub open spec fn text_less(left: Seq<char>, right: Seq<char>) -> bool
    decreases right.len(),
{
    if right.len() == 0 {
        false
    } else if left.len() == 0 {
        true
    } else if left[0] == right[0] {
        text_less(left.drop_first(), right.drop_first())
    } else {
        left[0] < right[0]
    }
}

/// The number of bytes in the UTF-8 form of one character.
pub open spec fn char_bytes(c: char) -> nat {
    if c <= '\u{7f}' {
        1
    } else if c <= '\u{7ff}' {
        2
    } else if c <= '\u{ffff}' {
        3
    } else {
        4
    }
}

/// The number of bytes in the UTF-8 form of `text`.
pub open spec fn byte_count(text: Seq<char>) -> nat
    decreases text.len(),
{
    if text.len() == 0 {
        0
    } else {
        byte_count(text.drop_last()) + char_bytes(text.last())
    }
}

/// Longer names come first, names of one length in the order of their texts.
pub open spec fn longer_first(left: Seq<char>, right: Seq<char>) -> bool {
    ||| byte_count(left) > byte_count(right)
    ||| byte_count(left) == byte_count(right) && text_less(left, right)
}

pub proof fn lemma_text_less_irreflexive(text: Seq<char>)
    ensures
        !text_less(text, text),
    decreases text.len(),
{
    if text.len() > 0 {
        lemma_text_less_irreflexive(text.drop_first());
    }
}

pub proof fn lemma_text_less_transitive(a: Seq<char>, b: Seq<char>, c: Seq<char>)
    requires
        text_less(a, b),
        text_less(b, c),
    ensures
        text_less(a, c),
    decreases c.len(),
{
    if a.len() > 0 && b.len() > 0 && c.len() > 0 && a[0] == b[0] && b[0] == c[0] {
        lemma_text_less_transitive(a.drop_first(), b.drop_first(), c.drop_first());
    }
}

pub proof fn lemma_text_less_total(a: Seq<char>, b: Seq<char>)
    ensures
        a == b || text_less(a, b) || text_less(b, a),
    decreases a.len(),
{
    if a.len() == 0 && b.len() == 0 {
        assert(a =~= b);
    } else if a.len() > 0 && b.len() > 0 && a[0] == b[0] {
        lemma_text_less_total(a.drop_first(), b.drop_first());
        if a.drop_first() == b.drop_first() {
            assert(a =~= seq![a[0]] + a.drop_first());
            assert(b =~= seq![b[0]] + b.drop_first());
        }
    }
}

pub proof fn lemma_longer_first_transitive(a: Seq<char>, b: Seq<char>, c: Seq<char>)
    requires
        longer_first(a, b),
        longer_first(b, c),
    ensures
        longer_first(a, c),
{
    if text_less(a, b) && text_less(b, c) {
        lemma_text_less_transitive(a, b, c);
    }
}

pub proof fn lemma_longer_first_irreflexive(a: Seq<char>)
    ensures
        !longer_first(a, a),
{
    lemma_text_less_irreflexive(a);
}

pub proof fn lemma_longer_first_total(a: Seq<char>, b: Seq<char>)
    ensures
        a == b || longer_first(a, b) || longer_first(b, a),
{
    lemma_text_less_total(a, b);
}

/// Whether `left` comes before `right`.
pub fn less(left: &[char], right: &[char]) -> (res: bool)
    ensures
        res == text_less(left@, right@),
{
    let mut i: usize = 0;
    assert(left@.skip(0) == left@);
    assert(right@.skip(0) == right@);
    while i < left.len() && i < right.len()
        invariant
            i <= left@.len(),
            i <= right@.len(),
            text_less(left@, right@) == text_less(left@.skip(i as int), right@.skip(i as int)),
        decreases left@.len() - i,
    {
        if left[i] != right[i] {
            return left[i] < right[i];
        }
        assert(left@.skip(i as int).drop_first() == left@.skip(i + 1));
        assert(right@.skip(i as int).drop_first() == right@.skip(i + 1));
        i += 1;
    }
    i < right.len()
}

/// The number of bytes in the UTF-8 form of the text.
pub fn bytes_of(text: &[char]) -> (count: u128)
    ensures
        count == byte_count(text@),
{
    let mut count: u128 = 0;
    let mut i: usize = 0;
    while i < text.len()
        invariant
            i <= text@.len(),
            count == byte_count(text@.take(i as int)),
            count <= 4 * i,
        decreases text@.len() - i,
    {
        let c = text[i];
        let width: u128 = if c <= '\u{7f}' {
            1
        } else if c <= '\u{7ff}' {
            2
        } else if c <= '\u{ffff}' {
            3
        } else {
            4
        };
        assert(text@.take(i + 1).drop_last() == text@.take(i as int));
        count = count + width;
        i += 1;
    }
    assert(text@.take(text@.len() as int) == text@);
    count
}

/// Whether `left` comes before `right` when longer names come first.
pub fn is_longer_first(left: &str, right: &str) -> (res: bool)
    ensures
        res == longer_first(left@, right@),
{
    let a = chars_of(left);
    let b = chars_of(right);
    let a_bytes = bytes_of(a.as_slice());
    let b_bytes = bytes_of(b.as_slice());
    a_bytes > b_bytes || (a_bytes == b_bytes && less(a.as_slice(), b.as_slice()))
}

/// The length of a text's UTF-8 form is the sum of its characters' lengths.
pub proof fn lemma_byte_count(text: Seq<char>)
    ensures
        byte_count(text) == encode_utf8(text).len(),
{
    lemma_byte_count_front(text);
    lemma_encoded_count(text);
}

/// The number of bytes, counted from the front.
spec fn byte_count_front(text: Seq<char>) -> nat
    decreases text.len(),
{
    if text.len() == 0 {
        0
    } else {
        char_bytes(text[0]) + byte_count_front(text.drop_first())
    }
}

proof fn lemma_byte_count_front(text: Seq<char>)
    ensures
        byte_count(text) == byte_count_front(text),
    decreases text.len(),
{
    if text.len() > 1 {
        let inner = text.drop_first().drop_last();
        lemma_byte_count_front(text.drop_last());
        lemma_byte_count_front(text.drop_first());
        lemma_byte_count_front(inner);
        assert(text.drop_last().drop_first() == inner);
    } else if text.len() == 1 {
        assert(text.drop_last() =~= Seq::<char>::empty());
        assert(text.drop_first() =~= Seq::<char>::empty());
        assert(byte_count(text.drop_last()) == 0);
        assert(byte_count_front(text.drop_first()) == 0);
    }
}

proof fn lemma_char_bytes(c: char)
    ensures
        encode_scalar(c as u32).len() == char_bytes(c),
{
}

proof fn lemma_encoded_count(text: Seq<char>)
    ensures
        byte_count_front(text) == encode_utf8(text).len(),
    decreases text.len(),
{
    if text.len() > 0 {
        lemma_encoded_count(text.drop_first());
        lemma_char_bytes(text[0]);
    }
}

} // verus!
