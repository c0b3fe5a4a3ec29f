//! How texts, lists and `|`-separated lines are taken apart and put together.

use vstd::prelude::*;

use crate::anonymity::{
    is_trimmed, lemma_join_spaced, lemma_trim, lemma_trim_spaced, lemma_trim_spaces, spaced,
};
use crate::parameters::{api_of, parameter_of};
use crate::tables::{lacks, lemma_split_join};
use crate::text::{
    is_white_space, join, lemma_find_char, lemma_find_char_is, lemma_rfind_char, rfind_char, split,
    trim, trim_end, trim_start,
};

verus! {

/// Whether every character is white space.
pub open spec fn is_blank(text: Seq<char>) -> bool {
    forall|i: int| 0 <= i < text.len() ==> is_white_space(#[trigger] text[i])
}

proof fn lemma_trim_front(blank: Seq<char>, text: Seq<char>)
    requires
        is_blank(blank),
    ensures
        trim_start(blank + text) == trim_start(text),
    decreases blank.len(),
{
    if blank.len() == 0 {
        assert(blank + text =~= text);
    } else {
        let rest = blank.drop_first();
        assert forall|i: int| 0 <= i < rest.len() implies is_white_space(#[trigger] rest[i]) by {
            assert(rest[i] == blank[i + 1]);
        }
        lemma_trim_front(rest, text);
        assert((blank + text)[0] == blank[0]);
        assert((blank + text).drop_first() =~= rest + text);
    }
}

proof fn lemma_trim_back(text: Seq<char>, blank: Seq<char>)
    requires
        is_blank(blank),
    ensures
        trim_end(text + blank) == trim_end(text),
    decreases blank.len(),
{
    if blank.len() == 0 {
        assert(text + blank =~= text);
    } else {
        let rest = blank.drop_last();
        assert forall|i: int| 0 <= i < rest.len() implies is_white_space(#[trigger] rest[i]) by {
            assert(rest[i] == blank[i]);
        }
        lemma_trim_back(text, rest);
        assert((text + blank).last() == blank.last());
        assert(is_white_space(blank[blank.len() - 1]));
        assert((text + blank).drop_last() =~= text + rest);
    }
}

/// White space around a text is trimmed away, and nothing else.
pub proof fn law_white_space_is_trimmed(before: Seq<char>, text: Seq<char>, after: Seq<char>)
    requires
        is_blank(before),
        is_trimmed(text),
        is_blank(after),
    ensures
        trim(before + text + after) == text,
        trim_start(before + text + after) == if text.len() > 0 {
            text + after
        } else {
            Seq::empty()
        },
{
    lemma_trim_spaced(text);
    assert(before + text + after =~= before + (text + after));
    lemma_trim_front(before, text + after);
    if text.len() > 0 {
        assert((text + after)[0] == text[0]);
        lemma_trim_back(text, after);
    } else {
        assert(text + after =~= after);
        assert(after =~= after + Seq::empty());
        lemma_trim_front(after, Seq::empty());
        assert(trim_start(Seq::<char>::empty()) =~= Seq::empty());
        assert(trim_end(Seq::<char>::empty()) =~= text);
    }
}

/// A segment `Key$ Value` has this key and this value, whatever white space
/// stands around them. The key ends at the first `$`.
pub proof fn law_parameters_are_read(
    pads: (Seq<char>, Seq<char>, Seq<char>, Seq<char>),
    key: Seq<char>,
    value: Seq<char>,
)
    requires
        is_blank(pads.0),
        is_blank(pads.1),
        is_blank(pads.2),
        is_blank(pads.3),
        lacks(key, '$'),
        key.len() > 0,
        is_trimmed(key),
        is_trimmed(value),
    ensures
        parameter_of(pads.0 + key + pads.1 + seq!['$'] + pads.2 + value + pads.3) == Some(
            (key, value),
        ),
{
    let (a, b, c, d) = pads;
    let none = Seq::<char>::empty();
    let segment = a + key + b + seq!['$'] + c + value + d;
    let left = key + b;
    let right = if value.len() > 0 {
        c + value
    } else {
        none
    };
    let body = left + seq!['$'] + right;
    if value.len() > 0 {
        assert(body.last() == value.last());
        assert(segment =~= a + body + d);
        assert(body[0] == key[0]);
        law_white_space_is_trimmed(a, body, d);
        law_white_space_is_trimmed(c, value, none);
        assert(c + value + none =~= c + value);
    } else {
        assert(body.last() == '$');
        let more = c + d;
        assert forall|i: int| 0 <= i < more.len() implies is_white_space(#[trigger] more[i]) by {
            if i < c.len() {
                assert(more[i] == c[i]);
            } else {
                assert(more[i] == d[i - c.len()]);
            }
        }
        assert(segment =~= a + body + more);
        assert(body[0] == key[0]);
        law_white_space_is_trimmed(a, body, more);
        assert(trim_start(none) =~= none);
        assert(trim_end(none) =~= none);
        assert(value =~= none);
    }
    assert(trim(segment) == body);
    let at = left.len() as int;
    assert(body[at] == '$');
    assert forall|i: int| 0 <= i < at implies body[i] != '$' by {
        if i < key.len() {
            assert(body[i] == key[i]);
        } else {
            assert(body[i] == b[i - key.len()]);
        }
    }
    lemma_find_char_is(body, '$', at);
    assert(body.take(at) =~= none + key + b);
    law_white_space_is_trimmed(none, key, b);
    assert(body.skip(at + 1) =~= right);
}

/// A segment without `$` is no parameter.
pub proof fn law_other_segments_are_no_parameters(segment: Seq<char>)
    requires
        lacks(segment, '$'),
    ensures
        parameter_of(segment) is None,
{
    lemma_trim(segment, '$');
    lemma_find_char(trim(segment), '$');
}

/// The first segment of a line names the effect behind its last `$`.
pub proof fn law_effects_are_read(
    before: Seq<char>,
    gap: Seq<char>,
    effect: Seq<char>,
    after: Seq<char>,
)
    requires
        is_blank(gap),
        lacks(effect, '$'),
        is_trimmed(effect),
        is_blank(after),
    ensures
        api_of(before + seq!['$'] + gap + effect + after) == effect,
{
    let head = before + seq!['$'] + gap + effect + after;
    let at = before.len() as int;
    lemma_rfind_char(head, '$');
    assert(head[at] == '$');
    assert forall|j: int| at < j < head.len() implies head[j] != '$' by {
        let k = j - at - 1;
        if k < gap.len() {
            assert(head[j] == gap[k]);
        } else if k < gap.len() + effect.len() {
            assert(head[j] == effect[k - gap.len()]);
        } else {
            assert(head[j] == after[k - gap.len() - effect.len()]);
        }
    }
    assert(rfind_char(head, '$') == Some(at));
    assert(head.skip(at + 1) =~= gap + effect + after);
    law_white_space_is_trimmed(gap, effect, after);
}

/// Without `$` the first segment names no effect.
pub proof fn law_other_heads_name_no_effect(head: Seq<char>)
    requires
        lacks(head, '$'),
    ensures
        api_of(head) == Seq::<char>::empty(),
{
    lemma_rfind_char(head, '$');
}

/// Trimmed parts joined by ` | ` are the segments of the line between the bars.
pub proof fn lemma_joined_segments(parts: Seq<Seq<char>>)
    requires
        parts.len() > 0,
        forall|i: int|
            0 <= i < parts.len() ==> lacks(#[trigger] parts[i], '|') && is_trimmed(parts[i]),
    ensures
        split(join(parts, " | "@), '|').len() == parts.len(),
        forall|i: int|
            0 <= i < parts.len() ==> trim(#[trigger] split(join(parts, " | "@), '|')[i])
                == parts[i],
{
    let all = spaced(parts);
    lemma_join_spaced(parts);
    assert forall|i: int| 0 <= i < all.len() implies lacks(#[trigger] all[i], '|') by {
        assert(lacks(parts[i], '|'));
        let shift: int = if i > 0 {
            1
        } else {
            0
        };
        assert forall|j: int| 0 <= j < all[i].len() implies #[trigger] all[i][j] != '|' by {
            if shift <= j < shift + parts[i].len() {
                assert(all[i][j] == parts[i][j - shift]);
            }
        }
    }
    lemma_split_join(all, '|');
    assert forall|i: int| 0 <= i < parts.len() implies trim(
        #[trigger] split(join(parts, " | "@), '|')[i],
    ) == parts[i] by {
        let part = parts[i];
        assert(is_trimmed(parts[i]));
        lemma_trim_spaces(part);
        let out = all[i];
        if i > 0 && i < parts.len() - 1 {
            assert(out =~= seq![' '] + part + seq![' ']);
        } else if i > 0 {
            assert(out =~= seq![' '] + part);
        } else if i < parts.len() - 1 {
            assert(out =~= part + seq![' ']);
        } else {
            assert(out =~= part);
        }
    }
}

} // verus!
