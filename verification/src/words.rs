//! Words: the runs of characters between gaps.

use vstd::prelude::*;

use crate::letters::unicode_alphanumeric;
use crate::text::{is_white_space, owned_views, white_space};

verus! {

/// What separates words.
#[derive(Clone, Copy, Debug, Eq, PartialEq, Structural)]
pub enum Gap {
    /// White space.
    WhiteSpace,
    /// Everything that is neither a letter nor a digit.
    NotAlphanumeric,
}

/// Whether `c` separates words.
pub open spec fn is_gap(gap: Gap, c: char) -> bool {
    match gap {
        Gap::WhiteSpace => is_white_space(c),
        Gap::NotAlphanumeric => !unicode_alphanumeric(c),
    }
}

/// The words of `text`, of which the first continues `current`.
pub open spec fn words_after(text: Seq<char>, current: Seq<char>, gap: Gap) -> Seq<Seq<char>>
    decreases text.len(),
{
    if text.len() == 0 {
        if current.len() == 0 {
            Seq::empty()
        } else {
            seq![current]
        }
    } else if !is_gap(gap, text[0]) {
        words_after(text.drop_first(), current.push(text[0]), gap)
    } else if current.len() == 0 {
        words_after(text.drop_first(), current, gap)
    } else {
        seq![current] + words_after(text.drop_first(), Seq::empty(), gap)
    }
}

/// The words of `text`: its longest runs of characters without a gap.
pub open spec fn words(text: Seq<char>, gap: Gap) -> Seq<Seq<char>> {
    words_after(text, Seq::empty(), gap)
}

fn separates(gap: Gap, c: char) -> (res: bool)
    ensures
        res == is_gap(gap, c),
{
    match gap {
        Gap::WhiteSpace => white_space(c),
        Gap::NotAlphanumeric => !c.is_alphanumeric(),
    }
}

/// The words of the text.
pub fn words_of(text: &[char], gap: Gap) -> (out: Vec<Vec<char>>)
    ensures
        owned_views(out@) == words(text@, gap),
{
    let mut out: Vec<Vec<char>> = Vec::new();
    let mut current: Vec<char> = Vec::new();
    let mut i: usize = 0;
    proof {
        assert(text@.skip(0) == text@);
        assert(current@ =~= Seq::<char>::empty());
        assert(owned_views(out@) + words(text@, gap) =~= words(text@, gap));
    }
    while i < text.len()
        invariant
            i <= text@.len(),
            owned_views(out@) + words_after(text@.skip(i as int), current@, gap) == words(
                text@,
                gap,
            ),
        decreases text@.len() - i,
    {
        let ghost tail = text@.skip(i as int);
        proof {
            assert(tail[0] == text@[i as int]);
            assert(tail.drop_first() == text@.skip(i + 1));
        }
        if !separates(gap, text[i]) {
            current.push(text[i]);
        } else if current.len() > 0 {
            let ghost before = owned_views(out@);
            let ghost word = current@;
            out.push(current);
            current = Vec::new();
            proof {
                assert(current@ =~= Seq::<char>::empty());
                assert(owned_views(out@) =~= before.push(word));
                let later = words_after(text@.skip(i + 1), Seq::empty(), gap);
                assert(before + (seq![word] + later) =~= before.push(word) + later);
            }
        }
        i += 1;
    }
    assert(text@.skip(i as int) =~= Seq::<char>::empty());
    if current.len() > 0 {
        let ghost before = owned_views(out@);
        let ghost word = current@;
        out.push(current);
        proof {
            assert(owned_views(out@) =~= before.push(word));
            assert(before + seq![word] =~= before.push(word));
        }
    }
    assert(owned_views(out@) =~= words(text@, gap));
    out
}

} // verus!
