//! Flavor words on keyword lines leave no trace.

use vstd::prelude::*;

use crate::anonymity::lemma_split_lacks;
use crate::keywords::{
    cut_at_marker, flavorless, keyword_vocabulary, plain_vocabulary, without_flavor,
    without_reminders,
};
use crate::parameters::lemma_split_not_empty;
use crate::tables::{lacks, lemma_split_join};
use crate::text::{
    find, find_char, join, join_tail, lemma_find, lemma_find_char, lemma_find_char_is, occurs_at,
    replace, split, starts_with,
};

verus! {

/// Whether a field of a keyword line holds flavor words.
pub open spec fn is_flavor(field: Seq<char>) -> bool {
    starts_with(field, "Flavor "@)
}

/// Whether flavor words follow a colon somewhere in the text.
spec fn is_flavored(text: Seq<char>) -> bool {
    exists|at: int| occurs_at(text, ":Flavor "@, at)
}

/// One more field at the end is one more piece.
proof fn lemma_split_more(text: Seq<char>, field: Seq<char>)
    requires
        lacks(field, ':'),
    ensures
        split(text + seq![':'] + field, ':') == split(text, ':').push(field),
    decreases text.len(),
{
    let whole = text + seq![':'] + field;
    lemma_find_char(text, ':');
    match find_char(text, ':') {
        Some(at) => {
            assert(whole[at] == ':');
            lemma_find_char_is(whole, ':', at);
            let rest = text.skip(at + 1);
            lemma_split_more(rest, field);
            assert(whole.skip(at + 1) =~= rest + seq![':'] + field);
            assert(whole.take(at) =~= text.take(at));
            assert(split(whole, ':') =~= split(text, ':').push(field));
        },
        None => {
            let at = text.len() as int;
            assert(whole[at] == ':');
            assert forall|i: int| 0 <= i < at implies whole[i] != ':' by {
                assert(whole[i] == text[i]);
            }
            lemma_find_char_is(whole, ':', at);
            assert(whole.skip(at + 1) =~= field);
            assert(whole.take(at) =~= text);
            lemma_find_char(field, ':');
            assert(split(field, ':') == seq![field]);
            assert(split(whole, ':') == seq![text] + split(field, ':'));
            assert(split(text, ':') == seq![text]);
            assert(split(whole, ':') =~= split(text, ':').push(field));
        },
    }
}

/// Flavor words at the end of a keyword line have no influence on what becomes
/// of it.
pub proof fn law_flavor_words_have_no_influence(line: Seq<char>, words: Seq<char>)
    requires
        starts_with(line, "K:"@),
        lacks(words, ':'),
    ensures
        keyword_vocabulary(line + ":Flavor "@ + words) == keyword_vocabulary(line),
{
    reveal_strlit("K:");
    reveal_strlit("Flavor ");
    reveal_strlit(":Flavor ");
    let longer = line + ":Flavor "@ + words;
    let field = "Flavor "@ + words;
    assert(longer =~= line + seq![':'] + field);
    assert(longer.subrange(0, 2) =~= line.subrange(0, 2));
    assert(lacks(field, ':'));
    lemma_split_more(line, field);
    let fields = split(line, ':');
    assert(field.subrange(0, 7) =~= "Flavor "@);
    assert(fields.push(field).drop_last() =~= fields);
    assert(without_flavor(fields.push(field)) == without_flavor(fields));
}

/// Where flavor words follow a colon, a field behind the first holds them.
proof fn lemma_flavored_field(text: Seq<char>, at: int) -> (field: int)
    requires
        occurs_at(text, ":Flavor "@, at),
    ensures
        1 <= field < split(text, ':').len(),
        is_flavor(split(text, ':')[field]),
    decreases text.len(),
{
    reveal_strlit(":Flavor ");
    reveal_strlit("Flavor ");
    lemma_find_char(text, ':');
    let found = text.subrange(at, at + 8);
    assert(text[at] == found[0]);
    let first = find_char(text, ':')->0;
    let rest = text.skip(first + 1);
    if at == first {
        let field = split(rest, ':')[0];
        lemma_find_char(rest, ':');
        assert forall|i: int| 0 <= i < 7 implies #[trigger] rest[i] == "Flavor "@[i] by {
            assert(rest[i] == found[i + 1]);
        }
        match find_char(rest, ':') {
            Some(end) => {
                assert(end >= 7) by {
                    if end < 7 {
                        assert(rest[end] == "Flavor "@[end]);
                    }
                }
                assert(field =~= rest.take(end));
            },
            None => {
                assert(field =~= rest);
            },
        }
        assert(field.subrange(0, 7) =~= "Flavor "@);
        assert(split(text, ':')[1] == field);
        1
    } else {
        assert(rest.subrange(at - first - 1, at - first + 7) =~= found);
        let inner = lemma_flavored_field(rest, at - first - 1);
        assert(split(text, ':')[inner + 1] == split(rest, ':')[inner]);
        inner + 1
    }
}

/// A field behind the first that holds flavor words follows a colon.
proof fn lemma_field_flavored(text: Seq<char>, field: int) -> (at: int)
    requires
        1 <= field < split(text, ':').len(),
        is_flavor(split(text, ':')[field]),
    ensures
        occurs_at(text, ":Flavor "@, at),
    decreases text.len(),
{
    reveal_strlit(":Flavor ");
    reveal_strlit("Flavor ");
    lemma_find_char(text, ':');
    let first = find_char(text, ':')->0;
    let rest = text.skip(first + 1);
    if field == 1 {
        let words = split(rest, ':')[0];
        lemma_find_char(rest, ':');
        assert(split(text, ':')[1] == words);
        let front = words.subrange(0, 7);
        assert forall|i: int| 0 <= i < 7 implies #[trigger] text[first + 1 + i] == front[i] by {
            assert(words[i] == rest[i]);
        }
        assert(front =~= "Flavor "@);
        let found = text.subrange(first, first + 8);
        assert forall|i: int| 0 <= i < 8 implies #[trigger] found[i] == ":Flavor "@[i] by {
            if i > 0 {
                assert(found[i] == text[first + 1 + (i - 1)]);
                assert(found[i] == front[i - 1]);
            }
        }
        assert(found =~= ":Flavor "@);
        first
    } else {
        assert(split(text, ':')[field] == split(rest, ':')[field - 1]);
        let inner = lemma_field_flavored(rest, field - 1);
        assert(text.subrange(first + 1 + inner, first + 9 + inner) =~= rest.subrange(
            inner,
            inner + 8,
        ));
        first + 1 + inner
    }
}

proof fn lemma_without_flavor(fields: Seq<Seq<char>>)
    requires
        forall|i: int| 0 <= i < fields.len() ==> lacks(#[trigger] fields[i], ':'),
    ensures
        forall|i: int|
            0 <= i < without_flavor(fields).len() ==> lacks(
                #[trigger] without_flavor(fields)[i],
                ':',
            ) && !is_flavor(without_flavor(fields)[i]),
    decreases fields.len(),
{
    if fields.len() > 0 {
        let front = fields.drop_last();
        assert forall|i: int| 0 <= i < front.len() implies lacks(#[trigger] front[i], ':') by {
            assert(front[i] == fields[i]);
        }
        lemma_without_flavor(front);
        assert(lacks(fields[fields.len() - 1], ':'));
        let kept = without_flavor(fields);
        let earlier = without_flavor(front);
        assert forall|i: int| 0 <= i < kept.len() implies lacks(#[trigger] kept[i], ':')
            && !is_flavor(kept[i]) by {
            if i < earlier.len() {
                assert(kept[i] == earlier[i]);
            }
        }
    }
}

/// A keyword line begins with the field `K`.
proof fn lemma_first_field(line: Seq<char>)
    requires
        starts_with(line, "K:"@),
    ensures
        split(line, ':').len() > 1,
        split(line, ':')[0] == seq!['K'],
        !is_flavor(split(line, ':')[0]),
{
    reveal_strlit("K:");
    reveal_strlit("Flavor ");
    let front = line.subrange(0, 2);
    assert(line[0] == front[0]);
    assert(line[1] == front[1]);
    lemma_find_char_is(line, ':', 1);
    lemma_split_not_empty(line.skip(2), ':');
    assert(split(line, ':')[0] =~= line.take(1));
    assert(line.take(1) =~= seq!['K']);
}

proof fn lemma_kept_first_field(fields: Seq<Seq<char>>)
    requires
        fields.len() > 0,
        !is_flavor(fields[0]),
    ensures
        without_flavor(fields).len() > 0,
        without_flavor(fields)[0] == fields[0],
    decreases fields.len(),
{
    if fields.len() == 1 {
        assert(fields.drop_last() =~= Seq::empty());
        assert(without_flavor(fields.drop_last()) =~= Seq::empty());
    } else {
        lemma_kept_first_field(fields.drop_last());
    }
}

/// A keyword line without its flavor fields is not flavored.
proof fn lemma_flavorless(line: Seq<char>)
    requires
        starts_with(line, "K:"@),
    ensures
        !is_flavored(flavorless(line)),
        flavorless(line).len() > 0,
        flavorless(line)[0] == 'K',
        flavorless(line).len() > 1 ==> flavorless(line)[1] == ':',
{
    let fields = split(line, ':');
    lemma_first_field(line);
    lemma_split_lacks(line, ':');
    lemma_without_flavor(fields);
    lemma_kept_first_field(fields);
    let kept = without_flavor(fields);
    let bare = flavorless(line);
    reveal_strlit(":");
    assert(":"@ =~= seq![':']);
    lemma_split_join(kept, ':');
    if is_flavored(bare) {
        let at = choose|at: int| occurs_at(bare, ":Flavor "@, at);
        let field = lemma_flavored_field(bare, at);
        assert(!is_flavor(kept[field]));
    }
    assert(bare =~= kept[0] + join_tail(kept.drop_first(), ":"@));
    if kept.len() > 1 {
        assert(join_tail(kept.drop_first(), ":"@)[0] == ':');
    } else {
        assert(kept.drop_first() =~= Seq::empty());
        assert(join_tail(kept.drop_first(), ":"@) =~= Seq::empty());
    }
}

/// Whether a keyword's word neither is nor begins the name of flavor words, and
/// has none of them behind its colons.
spec fn is_flavor_free(word: Seq<char>) -> bool {
    &&& word.len() > 1
    &&& 'A' <= word[0] <= 'Z'
    &&& word[0] == 'F' ==> word[1] != 'l'
    &&& forall|i: int| 0 <= i < word.len() && #[trigger] word[i] == ':' ==> i + 1 < word.len()
        && word[i + 1] != 'F'
}

/// Whether prose for a keyword can stand neither at nor right behind the start
/// of a keyword line.
spec fn is_behind_start(prose: Seq<char>) -> bool {
    prose.len() > 0 && prose[0] != 'K' && prose[0] != ':'
}

/// Putting a word in the place of prose brings in no flavor words.
proof fn lemma_replace_unflavored(text: Seq<char>, prose: Seq<char>, word: Seq<char>)
    requires
        !is_flavored(text),
        prose.len() > 0,
        is_flavor_free(word),
    ensures
        !is_flavored(replace(text, prose, word)),
    decreases text.len(),
{
    lemma_find(text, prose);
    if let Some(at) = find(text, prose) {
        reveal_strlit(":Flavor ");
        let needle = ":Flavor "@;
        let rest = text.skip(at + prose.len());
        assert(!is_flavored(rest)) by {
            if is_flavored(rest) {
                let j = choose|j: int| occurs_at(rest, needle, j);
                let there = at + prose.len() + j;
                assert(text.subrange(there, there + 8) =~= rest.subrange(j, j + 8));
                assert(occurs_at(text, needle, there));
            }
        }
        lemma_replace_unflavored(rest, prose, word);
        let later = replace(rest, prose, word);
        let out = replace(text, prose, word);
        if is_flavored(out) {
            let j = choose|j: int| occurs_at(out, needle, j);
            let found = out.subrange(j, j + 8);
            assert(found == needle);
            let end = at + word.len();
            if j + 8 <= at {
                assert(text.subrange(j, j + 8) =~= found);
                assert(occurs_at(text, needle, j));
            } else if j >= end {
                assert(later.subrange(j - end, j - end + 8) =~= found);
                assert(occurs_at(later, needle, j - end));
            } else if j >= at {
                assert(out[j] == found[0]);
                assert(out[j] == word[j - at]);
                assert(out[j + 1] == found[1]);
                assert(out[j + 1] == word[j - at + 1]);
            } else {
                assert(out[at] == found[at - j]);
                assert(out[at] == word[0]);
                assert(at - j == 1);
                assert(out[at + 1] == found[2]);
                assert(out[at + 1] == word[1]);
            }
        }
    }
}

proof fn lemma_replace_start(text: Seq<char>, prose: Seq<char>, word: Seq<char>)
    requires
        text.len() > 0,
        text[0] == 'K',
        text.len() > 1 ==> text[1] == ':',
        is_behind_start(prose),
    ensures
        replace(text, prose, word).len() > 0,
        replace(text, prose, word)[0] == 'K',
        replace(text, prose, word).len() > 1 ==> replace(text, prose, word)[1] == ':',
{
    lemma_find(text, prose);
    if let Some(at) = find(text, prose) {
        assert(text[at] == text.subrange(at, at + prose.len())[0]);
    }
}

spec fn is_bare(text: Seq<char>) -> bool {
    &&& !is_flavored(text)
    &&& text.len() > 0
    &&& text[0] == 'K'
    &&& text.len() > 1 ==> text[1] == ':'
}

proof fn lemma_replace_bare(text: Seq<char>, prose: Seq<char>, word: Seq<char>)
    requires
        is_bare(text),
        is_behind_start(prose),
        is_flavor_free(word),
    ensures
        is_bare(replace(text, prose, word)),
{
    lemma_replace_unflavored(text, prose, word);
    lemma_replace_start(text, prose, word);
}

proof fn lemma_prose()
    ensures
        is_behind_start("First Strike"@),
        is_behind_start("Double Strike"@),
        is_behind_start("Level up"@),
        is_behind_start("Battle cry"@),
        is_behind_start("Battle Cry"@),
        is_behind_start("Start your engines!"@),
        is_behind_start("Start your engines"@),
        is_behind_start("Web-slinging"@),
        is_behind_start("Shaman's Trance"@),
        is_behind_start("Protection from red"@),
        is_behind_start("Protection from blue"@),
        is_behind_start("Protection from black"@),
        is_behind_start("Protection from white"@),
        is_behind_start("Protection from green"@),
        is_behind_start("Protection from everything"@),
        is_behind_start("Protection from each color"@),
        is_behind_start("You draw cards from the bottom of your library instead of the top of your library."@),
{
    reveal_strlit("First Strike");
    reveal_strlit("Double Strike");
    reveal_strlit("Level up");
    reveal_strlit("Battle cry");
    reveal_strlit("Battle Cry");
    reveal_strlit("Start your engines!");
    reveal_strlit("Start your engines");
    reveal_strlit("Web-slinging");
    reveal_strlit("Shaman's Trance");
    reveal_strlit("Protection from red");
    reveal_strlit("Protection from blue");
    reveal_strlit("Protection from black");
    reveal_strlit("Protection from white");
    reveal_strlit("Protection from green");
    reveal_strlit("Protection from everything");
    reveal_strlit("Protection from each color");
    reveal_strlit("You draw cards from the bottom of your library instead of the top of your library.");
}

proof fn lemma_keyword_words()
    ensures
        is_flavor_free("FirstStrike"@),
        is_flavor_free("DoubleStrike"@),
        is_flavor_free("LevelUp"@),
        is_flavor_free("BattleCry"@),
        is_flavor_free("StartYourEngines"@),
        is_flavor_free("WebSlinging"@),
        is_flavor_free("SharedGraveyardCasting"@),
        is_flavor_free("Protection:Red"@),
        is_flavor_free("Protection:Blue"@),
        is_flavor_free("Protection:Black"@),
        is_flavor_free("Protection:White"@),
        is_flavor_free("Protection:Green"@),
        is_flavor_free("Protection:Everything"@),
        is_flavor_free("Protection:EachColor"@),
        is_flavor_free("DrawFromBottom"@),
{
    reveal_strlit("FirstStrike");
    reveal_strlit("DoubleStrike");
    reveal_strlit("LevelUp");
    reveal_strlit("BattleCry");
    reveal_strlit("StartYourEngines");
    reveal_strlit("WebSlinging");
    reveal_strlit("SharedGraveyardCasting");
    reveal_strlit("Protection:Red");
    reveal_strlit("Protection:Blue");
    reveal_strlit("Protection:Black");
    reveal_strlit("Protection:White");
    reveal_strlit("Protection:Green");
    reveal_strlit("Protection:Everything");
    reveal_strlit("Protection:EachColor");
    reveal_strlit("DrawFromBottom");
}

proof fn lemma_plain_bare(line: Seq<char>)
    requires
        is_bare(line),
    ensures
        is_bare(plain_vocabulary(line)),
{
    lemma_prose();
    lemma_keyword_words();
    lemma_replace_bare(line, "First Strike"@, "FirstStrike"@);
    let t1 = replace(line, "First Strike"@, "FirstStrike"@);
    lemma_replace_bare(t1, "Double Strike"@, "DoubleStrike"@);
    let t2 = replace(t1, "Double Strike"@, "DoubleStrike"@);
    lemma_replace_bare(t2, "Level up"@, "LevelUp"@);
    let t3 = replace(t2, "Level up"@, "LevelUp"@);
    lemma_replace_bare(t3, "Battle cry"@, "BattleCry"@);
    let t4 = replace(t3, "Battle cry"@, "BattleCry"@);
    lemma_replace_bare(t4, "Battle Cry"@, "BattleCry"@);
    let t5 = replace(t4, "Battle Cry"@, "BattleCry"@);
    lemma_replace_bare(t5, "Start your engines!"@, "StartYourEngines"@);
    let t6 = replace(t5, "Start your engines!"@, "StartYourEngines"@);
    lemma_replace_bare(t6, "Start your engines"@, "StartYourEngines"@);
    let t7 = replace(t6, "Start your engines"@, "StartYourEngines"@);
    lemma_replace_bare(t7, "Web-slinging"@, "WebSlinging"@);
    let t8 = replace(t7, "Web-slinging"@, "WebSlinging"@);
    lemma_replace_bare(t8, "Shaman's Trance"@, "SharedGraveyardCasting"@);
    let t9 = replace(t8, "Shaman's Trance"@, "SharedGraveyardCasting"@);
    lemma_replace_bare(t9, "Protection from red"@, "Protection:Red"@);
    let t10 = replace(t9, "Protection from red"@, "Protection:Red"@);
    lemma_replace_bare(t10, "Protection from blue"@, "Protection:Blue"@);
    let t11 = replace(t10, "Protection from blue"@, "Protection:Blue"@);
    lemma_replace_bare(t11, "Protection from black"@, "Protection:Black"@);
    let t12 = replace(t11, "Protection from black"@, "Protection:Black"@);
    lemma_replace_bare(t12, "Protection from white"@, "Protection:White"@);
    let t13 = replace(t12, "Protection from white"@, "Protection:White"@);
    lemma_replace_bare(t13, "Protection from green"@, "Protection:Green"@);
    let t14 = replace(t13, "Protection from green"@, "Protection:Green"@);
    lemma_replace_bare(t14, "Protection from everything"@, "Protection:Everything"@);
    let t15 = replace(t14, "Protection from everything"@, "Protection:Everything"@);
    lemma_replace_bare(t15, "Protection from each color"@, "Protection:EachColor"@);
    let t16 = replace(t15, "Protection from each color"@, "Protection:EachColor"@);
    lemma_replace_bare(
        t16,
        "You draw cards from the bottom of your library instead of the top of your library."@,
        "DrawFromBottom"@,
    );
}

/// The first fields of a text are the beginning of the text.
proof fn lemma_first_fields(text: Seq<char>, count: int)
    requires
        0 < count <= split(text, ':').len(),
    ensures
        join(split(text, ':').take(count), ":"@).len() <= text.len(),
        join(split(text, ':').take(count), ":"@) == text.take(
            join(split(text, ':').take(count), ":"@).len() as int,
        ),
        count < split(text, ':').len() ==> {
            let front = join(split(text, ':').take(count), ":"@).len() as int;
            &&& front < text.len()
            &&& text[front] == ':'
            &&& join(split(text, ':').skip(count), ":"@) == text.skip(front + 1)
        },
        count == split(text, ':').len() ==> join(split(text, ':').take(count), ":"@) == text,
    decreases text.len(),
{
    let fields = split(text, ':');
    reveal_strlit(":");
    assert(":"@ =~= seq![':']);
    lemma_find_char(text, ':');
    match find_char(text, ':') {
        None => {
            assert(fields.take(1) =~= fields);
            assert(fields.drop_first() =~= Seq::empty());
            assert(join_tail(fields.drop_first(), ":"@) =~= Seq::empty());
            assert(join(fields, ":"@) =~= text);
            assert(text.take(text.len() as int) =~= text);
        },
        Some(at) => {
            let rest = text.skip(at + 1);
            let later = split(rest, ':');
            assert(fields.drop_first() =~= later);
            assert(fields[0] == text.take(at));
            let front = join(fields.take(count), ":"@);
            if count == 1 {
                let one = fields.take(1);
                assert(one.drop_first() =~= Seq::empty());
                assert(join_tail(one.drop_first(), ":"@) =~= Seq::empty());
                assert(front =~= text.take(at));
                assert(fields.skip(1) =~= later);
                lemma_first_fields(rest, later.len() as int);
                assert(later.take(later.len() as int) =~= later);
            } else {
                lemma_first_fields(rest, count - 1);
                let inner = join(later.take(count - 1), ":"@);
                let some = fields.take(count);
                assert(some.drop_first() =~= later.take(count - 1));
                let tail = later.take(count - 1);
                assert(join_tail(tail, ":"@) =~= seq![':'] + inner);
                assert(front =~= text.take(at) + seq![':'] + inner);
                assert(front =~= text.take(front.len() as int));
                if count < fields.len() {
                    assert(fields.skip(count) =~= later.skip(count - 1));
                    assert(rest.skip(inner.len() as int + 1) =~= text.skip(
                        front.len() as int + 1,
                    ));
                }
            }
        },
    }
}

proof fn lemma_front_unflavored(text: Seq<char>, count: int)
    requires
        !is_flavored(text),
        0 <= count <= text.len(),
    ensures
        !is_flavored(text.take(count)),
{
    reveal_strlit(":Flavor ");
    let front = text.take(count);
    if is_flavored(front) {
        let at = choose|at: int| occurs_at(front, ":Flavor "@, at);
        assert(text.subrange(at, at + 8) =~= front.subrange(at, at + 8));
        assert(occurs_at(text, ":Flavor "@, at));
    }
}

proof fn lemma_fields_unflavored(text: Seq<char>, count: int)
    requires
        !is_flavored(text),
        0 < count <= split(text, ':').len(),
    ensures
        !is_flavored(join(split(text, ':').take(count), ":"@)),
{
    lemma_first_fields(text, count);
    lemma_front_unflavored(text, join(split(text, ':').take(count), ":"@).len() as int);
}

/// Leaving fields out in the middle brings in no flavor words.
proof fn lemma_gap_unflavored(text: Seq<char>)
    requires
        !is_flavored(text),
        split(text, ':').len() > 5,
    ensures
        !is_flavored(
            join(split(text, ':').take(3), ":"@) + ":::"@ + join(split(text, ':').skip(5), ":"@),
        ),
{
    reveal_strlit(":Flavor ");
    reveal_strlit(":::");
    let needle = ":Flavor "@;
    let fields = split(text, ':');
    let front = join(fields.take(3), ":"@);
    let tail = join(fields.skip(5), ":"@);
    let out = front + ":::"@ + tail;
    lemma_first_fields(text, 3);
    lemma_first_fields(text, 5);
    let cut = join(fields.take(5), ":"@).len() as int;
    if is_flavored(out) {
        let at = choose|at: int| occurs_at(out, needle, at);
        let found = out.subrange(at, at + 8);
        let start = front.len() as int;
        assert(out[at] == found[0]);
        assert(out[at + 1] == found[1]);
        if at + 8 <= start {
            assert(text.subrange(at, at + 8) =~= found);
            assert(occurs_at(text, needle, at));
        } else if at < start {
            assert(out[start] == ':');
            assert(out[start] == found[start - at]);
        } else if at < start + 2 {
            assert(out[at + 1] == ':');
        } else {
            let there = cut + (at - start - 2);
            assert forall|i: int| 0 <= i < 8 implies #[trigger] text[there + i] == found[i] by {
                assert(out[at + i] == found[i]);
                if at + i > start + 2 {
                    assert(out[at + i] == tail[at + i - start - 3]);
                    assert(tail[at + i - start - 3] == text[there + i]);
                }
            }
            assert(text.subrange(there, there + 8) =~= found);
            assert(occurs_at(text, needle, there));
        }
    }
}

proof fn lemma_reminders_unflavored(text: Seq<char>)
    requires
        !is_flavored(text),
    ensures
        !is_flavored(without_reminders(text)),
{
    let fields = split(text, ':');
    if fields.len() > 5 {
        lemma_fields_unflavored(text, 5);
        lemma_gap_unflavored(text);
    }
    if fields.len() > 3 {
        lemma_fields_unflavored(text, 4);
    }
    if fields.len() > 6 {
        lemma_fields_unflavored(text, 6);
    }
    reveal_strlit(":no Condition:");
    reveal_strlit(":no condition:");
    lemma_find(text, ":no Condition:"@);
    lemma_find(text, ":no condition:"@);
    if cut_at_marker(text, ":no Condition:"@) is Some {
        lemma_front_unflavored(text, find(text, ":no Condition:"@)->0 + 13);
    }
    if cut_at_marker(text, ":no condition:"@) is Some {
        lemma_front_unflavored(text, find(text, ":no condition:"@)->0 + 13);
    }
}

/// No field of what becomes of a keyword line holds flavor words.
pub proof fn law_no_flavor_words_remain(line: Seq<char>, field: int)
    requires
        starts_with(line, "K:"@),
        0 <= field < split(keyword_vocabulary(line), ':').len(),
    ensures
        !is_flavor(split(keyword_vocabulary(line), ':')[field]),
{
    let bare = flavorless(line);
    let plain = plain_vocabulary(bare);
    let out = keyword_vocabulary(line);
    lemma_flavorless(line);
    lemma_plain_bare(bare);
    reveal_strlit("K:DistinctColoredManaForX");
    reveal_strlit("Flavor ");
    reveal_strlit(":Flavor ");
    assert(!is_flavored(out)) by {
        if starts_with(plain, "K:Spend only colored mana on X."@) {
            if is_flavored(out) {
                let at = choose|at: int| occurs_at(out, ":Flavor "@, at);
                assert(out[at] == out.subrange(at, at + 8)[0]);
                assert(out[at + 1] == out.subrange(at, at + 8)[1]);
            }
        } else {
            lemma_reminders_unflavored(plain);
        }
    }
    if is_flavor(split(out, ':')[field]) {
        if field > 0 {
            let at = lemma_field_flavored(out, field);
        } else {
            lemma_reminders_start(plain);
            let first = split(out, ':')[0];
            lemma_find_char(out, ':');
            assert(first[0] == out[0]);
            assert(first[0] == first.subrange(0, 7)[0]);
        }
    }
}

/// What begins with `K` begins with it after the reminders went.
proof fn lemma_reminders_start(text: Seq<char>)
    requires
        text.len() > 0,
        text[0] == 'K',
    ensures
        without_reminders(text).len() > 0 ==> without_reminders(text)[0] == 'K',
{
    let fields = split(text, ':');
    lemma_find_char(text, ':');
    if fields.len() > 5 {
        lemma_first_fields(text, 5);
        lemma_first_fields(text, 3);
        assert(join(fields.take(3), ":"@).len() > 0) by {
            assert(fields.take(3)[0] == fields[0]);
            lemma_first_fields(text, 1);
        }
    }
    if fields.len() > 3 {
        lemma_first_fields(text, 4);
    }
    if fields.len() > 6 {
        lemma_first_fields(text, 6);
    }
    reveal_strlit(":no Condition:");
    reveal_strlit(":no condition:");
    lemma_find(text, ":no Condition:"@);
    lemma_find(text, ":no condition:"@);
}

} // verus!
