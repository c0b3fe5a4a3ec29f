//! What the words of a text are.

use vstd::prelude::*;

use crate::words::{is_gap, words, words_after, Gap};

verus! {

/// Whether no character of the text separates words.
pub open spec fn is_solid(text: Seq<char>, gap: Gap) -> bool {
    forall|i: int| 0 <= i < text.len() ==> !is_gap(gap, #[trigger] text[i])
}

/// Whether the word stands between the two texts as a word of its own.
pub open spec fn stands_between(
    before: Seq<char>,
    word: Seq<char>,
    after: Seq<char>,
    gap: Gap,
) -> bool {
    &&& word.len() > 0
    &&& is_solid(word, gap)
    &&& before.len() == 0 || is_gap(gap, before.last())
    &&& after.len() == 0 || is_gap(gap, after[0])
}

proof fn lemma_solid_front(text: Seq<char>, current: Seq<char>, gap: Gap, after: Seq<char>)
    requires
        is_solid(text, gap),
        (current + text).len() > 0,
        after.len() == 0 || is_gap(gap, after[0]),
    ensures
        words_after(text + after, current, gap).len() > 0,
        words_after(text + after, current, gap)[0] == current + text,
    decreases text.len(),
{
    let whole = text + after;
    if text.len() > 0 {
        assert(whole[0] == text[0]);
        let rest = text.drop_first();
        assert forall|i: int| 0 <= i < rest.len() implies !is_gap(gap, #[trigger] rest[i]) by {
            assert(rest[i] == text[i + 1]);
        }
        assert(whole.drop_first() =~= rest + after);
        assert(current.push(text[0]) + rest =~= current + text);
        lemma_solid_front(rest, current.push(text[0]), gap, after);
    } else {
        assert(whole =~= after);
        assert(current + text =~= current);
    }
}

proof fn lemma_word_found(
    before: Seq<char>,
    current: Seq<char>,
    word: Seq<char>,
    after: Seq<char>,
    gap: Gap,
)
    requires
        word.len() > 0,
        is_solid(word, gap),
        before.len() == 0 ==> current.len() == 0,
        before.len() > 0 ==> is_gap(gap, before.last()),
        after.len() == 0 || is_gap(gap, after[0]),
    ensures
        words_after(before + word + after, current, gap).contains(word),
    decreases before.len(),
{
    let text = before + word + after;
    let all = words_after(text, current, gap);
    if before.len() == 0 {
        assert(text =~= word + after);
        lemma_solid_front(word, current, gap, after);
        assert(current + word =~= word);
        assert(all[0] == word);
    } else {
        let rest = before.drop_first();
        assert(text[0] == before[0]);
        assert(text.drop_first() =~= rest + word + after);
        if rest.len() > 0 {
            assert(rest.last() == before.last());
        }
        if !is_gap(gap, text[0]) {
            lemma_word_found(rest, current.push(text[0]), word, after, gap);
        } else {
            lemma_word_found(rest, Seq::empty(), word, after, gap);
            if current.len() > 0 {
                let later = words_after(text.drop_first(), Seq::empty(), gap);
                let i = choose|i: int| 0 <= i < later.len() && later[i] == word;
                assert(all[i + 1] == word);
            } else {
                assert(current =~= Seq::empty());
            }
        }
    }
}

proof fn lemma_word_stands(
    text: Seq<char>,
    current: Seq<char>,
    gap: Gap,
    at: int,
) -> (parts: (Seq<char>, Seq<char>))
    requires
        is_solid(current, gap),
        0 <= at < words_after(text, current, gap).len(),
    ensures
        current + text == parts.0 + words_after(text, current, gap)[at] + parts.1,
        stands_between(parts.0, words_after(text, current, gap)[at], parts.1, gap),
    decreases text.len(),
{
    let all = words_after(text, current, gap);
    let none = Seq::<char>::empty();
    if text.len() == 0 {
        assert(current + text =~= none + current + none);
        (none, none)
    } else {
        let rest = text.drop_first();
        if !is_gap(gap, text[0]) {
            let more = current.push(text[0]);
            assert forall|i: int| 0 <= i < more.len() implies !is_gap(gap, #[trigger] more[i]) by {
                if i < current.len() {
                    assert(more[i] == current[i]);
                }
            }
            let parts = lemma_word_stands(rest, more, gap, at);
            assert(current + text =~= more + rest);
            parts
        } else if current.len() > 0 && at == 0 {
            assert(current + text =~= none + current + text);
            (none, text)
        } else {
            let skip: int = if current.len() > 0 {
                1
            } else {
                0
            };
            assert(current.len() == 0 ==> current =~= none);
            assert(all[at] == words_after(rest, none, gap)[at - skip]);
            let parts = lemma_word_stands(rest, none, gap, at - skip);
            let front = current.push(text[0]) + parts.0;
            assert(none + rest =~= rest);
            assert(current + text =~= current.push(text[0]) + rest);
            assert(current + text =~= front + all[at] + parts.1);
            if parts.0.len() == 0 {
                assert(front.last() == text[0]);
            } else {
                assert(front.last() == parts.0.last());
            }
            (front, parts.1)
        }
    }
}

/// The words of a text are its longest runs of characters that separate
/// nothing.
pub proof fn law_words_stand_between_gaps(text: Seq<char>, word: Seq<char>, gap: Gap)
    ensures
        words(text, gap).contains(word) <==> exists|before: Seq<char>, after: Seq<char>|
            text == #[trigger] (before + word + after) && stands_between(before, word, after, gap),
{
    let none = Seq::<char>::empty();
    if words(text, gap).contains(word) {
        let at = choose|i: int| 0 <= i < words(text, gap).len() && words(text, gap)[i] == word;
        let parts = lemma_word_stands(text, none, gap, at);
        assert(none + text =~= text);
        assert(text == parts.0 + word + parts.1);
    }
    if exists|before: Seq<char>, after: Seq<char>|
        text == #[trigger] (before + word + after) && stands_between(before, word, after, gap) {
        let (before, after) = choose|before: Seq<char>, after: Seq<char>|
            text == #[trigger] (before + word + after) && stands_between(before, word, after, gap);
        lemma_word_found(before, none, word, after, gap);
    }
}

} // verus!
