//! The vocabulary of keyword lines.

use vstd::prelude::*;

use crate::text::{
    append, append_str, chars_of, find, find_char, front, has_prefix, join, joined, owned_views,
    pieces, position_of, position_of_char, replace, replaced_str, split, starts_with, string_of,
    to_owned, views,
};

verus! {

/// The line with keywords in prose replaced by single words.
pub open spec fn plain_vocabulary(line: Seq<char>) -> Seq<char> {
    let t = replace(line, "First Strike"@, "FirstStrike"@);
    let t = replace(t, "Double Strike"@, "DoubleStrike"@);
    let t = replace(t, "Level up"@, "LevelUp"@);
    let t = replace(t, "Battle cry"@, "BattleCry"@);
    let t = replace(t, "Battle Cry"@, "BattleCry"@);
    let t = replace(t, "Start your engines!"@, "StartYourEngines"@);
    let t = replace(t, "Start your engines"@, "StartYourEngines"@);
    let t = replace(t, "Web-slinging"@, "WebSlinging"@);
    let t = replace(t, "Shaman's Trance"@, "SharedGraveyardCasting"@);
    let t = replace(t, "Protection from red"@, "Protection:Red"@);
    let t = replace(t, "Protection from blue"@, "Protection:Blue"@);
    let t = replace(t, "Protection from black"@, "Protection:Black"@);
    let t = replace(t, "Protection from white"@, "Protection:White"@);
    let t = replace(t, "Protection from green"@, "Protection:Green"@);
    let t = replace(t, "Protection from everything"@, "Protection:Everything"@);
    let t = replace(t, "Protection from each color"@, "Protection:EachColor"@);
    replace(
        t,
        "You draw cards from the bottom of your library instead of the top of your library."@,
        "DrawFromBottom"@,
    )
}

/// The fields that are not flavor words.
pub open spec fn without_flavor(fields: Seq<Seq<char>>) -> Seq<Seq<char>>
    decreases fields.len(),
{
    if fields.len() == 0 {
        Seq::empty()
    } else if starts_with(fields.last(), "Flavor "@) {
        without_flavor(fields.drop_last())
    } else {
        without_flavor(fields.drop_last()).push(fields.last())
    }
}

/// A keyword line without its flavor words; any other line as it is.
pub open spec fn flavorless(text: Seq<char>) -> Seq<char> {
    if starts_with(text, "K:"@) {
        join(without_flavor(split(text, ':')), ":"@)
    } else {
        text
    }
}

/// The line up to and without the last colon of the marker.
pub open spec fn cut_at_marker(text: Seq<char>, marker: Seq<char>) -> Option<Seq<char>> {
    match find(text, marker) {
        Some(at) => Some(text.take(at + marker.len() - 1)),
        None => None,
    }
}

/// A keyword line without the fields that only remind people of the rules.
pub open spec fn without_reminders(text: Seq<char>) -> Seq<char> {
    let fields = split(text, ':');
    let counter = starts_with(text, "K:etbCounter:"@);
    if counter && fields.len() > 5 {
        join(fields.take(5), ":"@)
    } else if starts_with(text, "K:Flashback:"@) && fields.len() > 3 && find_char(
        fields[3],
        '$',
    ) is Some {
        join(fields.take(4), ":"@)
    } else if starts_with(text, "K:Specialize:"@) && fields.len() > 5 {
        join(fields.take(3), ":"@) + ":::"@ + join(fields.skip(5), ":"@)
    } else if starts_with(text, "K:Equip:"@) && fields.len() > 6 {
        join(fields.take(6), ":"@)
    } else if counter && cut_at_marker(text, ":no Condition:"@) is Some {
        cut_at_marker(text, ":no Condition:"@)->0
    } else if counter && cut_at_marker(text, ":no condition:"@) is Some {
        cut_at_marker(text, ":no condition:"@)->0
    } else {
        text
    }
}

/// The line in the vocabulary of the rules alone. Flavor words go first, so that
/// nothing of them is taken for a keyword.
pub open spec fn keyword_vocabulary(line: Seq<char>) -> Seq<char> {
    let plain = plain_vocabulary(flavorless(line));
    if starts_with(plain, "K:Spend only colored mana on X."@) {
        "K:DistinctColoredManaForX"@
    } else {
        without_reminders(plain)
    }
}

fn with_plain_vocabulary(line: &[char]) -> (out: Vec<char>)
    ensures
        out@ == plain_vocabulary(line@),
{
    proof {
        reveal_strlit("First Strike");
        reveal_strlit("Double Strike");
        reveal_strlit("Level up");
        reveal_strlit("Battle cry");
        reveal_strlit("Battle Cry");
        reveal_strlit("Start your engines!");
        reveal_strlit("Start your engines");
        reveal_strlit("Web-slinging");
        reveal_strlit("Shaman's Trance");
        reveal_strlit("Protection from red");
        reveal_strlit("Protection from blue");
        reveal_strlit("Protection from black");
        reveal_strlit("Protection from white");
        reveal_strlit("Protection from green");
        reveal_strlit("Protection from everything");
        reveal_strlit("Protection from each color");
        reveal_strlit(
            "You draw cards from the bottom of your library instead of the top of your library.",
        );
    }
    let t = replaced_str(line, "First Strike", "FirstStrike");
    let t = replaced_str(t.as_slice(), "Double Strike", "DoubleStrike");
    let t = replaced_str(t.as_slice(), "Level up", "LevelUp");
    let t = replaced_str(t.as_slice(), "Battle cry", "BattleCry");
    let t = replaced_str(t.as_slice(), "Battle Cry", "BattleCry");
    let t = replaced_str(t.as_slice(), "Start your engines!", "StartYourEngines");
    let t = replaced_str(t.as_slice(), "Start your engines", "StartYourEngines");
    let t = replaced_str(t.as_slice(), "Web-slinging", "WebSlinging");
    let t = replaced_str(t.as_slice(), "Shaman's Trance", "SharedGraveyardCasting");
    let t = replaced_str(t.as_slice(), "Protection from red", "Protection:Red");
    let t = replaced_str(t.as_slice(), "Protection from blue", "Protection:Blue");
    let t = replaced_str(t.as_slice(), "Protection from black", "Protection:Black");
    let t = replaced_str(t.as_slice(), "Protection from white", "Protection:White");
    let t = replaced_str(t.as_slice(), "Protection from green", "Protection:Green");
    let t = replaced_str(t.as_slice(), "Protection from everything", "Protection:Everything");
    let t = replaced_str(t.as_slice(), "Protection from each color", "Protection:EachColor");
    replaced_str(
        t.as_slice(),
        "You draw cards from the bottom of your library instead of the top of your library.",
        "DrawFromBottom",
    )
}

/// Joins the fields from `from` to `to` with colons.
fn joined_fields(fields: &Vec<&[char]>, from: usize, to: usize) -> (out: Vec<char>)
    requires
        from <= to <= fields@.len(),
    ensures
        out@ == join(views(fields@).subrange(from as int, to as int), ":"@),
{
    let ghost all = views(fields@);
    let mut kept: Vec<Vec<char>> = Vec::new();
    let mut i: usize = from;
    while i < to
        invariant
            from <= i <= to <= fields@.len(),
            all == views(fields@),
            kept@.len() == i - from,
            forall|j: int| 0 <= j < i - from ==> #[trigger] kept@[j]@ == all[from + j],
        decreases to - i,
    {
        kept.push(to_owned(fields[i]));
        i += 1;
    }
    assert(owned_views(kept@) =~= all.subrange(from as int, to as int));
    joined(&kept, ":")
}

fn with_flavor_removed(text: &[char]) -> (out: Vec<char>)
    ensures
        out@ == flavorless(text@),
{
    if !has_prefix(text, "K:") {
        return to_owned(text);
    }
    let fields = pieces(text, ':');
    let ghost all = split(text@, ':');
    let mut kept: Vec<Vec<char>> = Vec::new();
    let mut i: usize = 0;
    assert(owned_views(kept@) =~= without_flavor(all.take(0)));
    while i < fields.len()
        invariant
            i <= fields@.len(),
            all == views(fields@),
            owned_views(kept@) == without_flavor(all.take(i as int)),
        decreases fields@.len() - i,
    {
        proof {
            assert(all.take(i + 1).drop_last() == all.take(i as int));
            assert(all.take(i + 1).last() == fields@[i as int]@);
        }
        if !has_prefix(fields[i], "Flavor ") {
            let ghost before = owned_views(kept@);
            let field = to_owned(fields[i]);
            kept.push(field);
            assert(owned_views(kept@) =~= before.push(field@));
        }
        i += 1;
    }
    assert(all.take(all.len() as int) == all);
    joined(&kept, ":")
}

fn with_reminders_removed(text: &[char]) -> (out: Vec<char>)
    ensures
        out@ == without_reminders(text@),
{
    let fields = pieces(text, ':');
    let ghost all = split(text@, ':');
    assert(all.len() == fields@.len());
    let counter = has_prefix(text, "K:etbCounter:");
    if counter && fields.len() > 5 {
        assert(all.subrange(0, 5) =~= all.take(5));
        return joined_fields(&fields, 0, 5);
    }
    if has_prefix(text, "K:Flashback:") && fields.len() > 3 {
        assert(all[3] == fields@[3]@);
        if position_of_char(fields[3], '$').is_some() {
            assert(all.subrange(0, 4) =~= all.take(4));
            return joined_fields(&fields, 0, 4);
        }
    }
    if has_prefix(text, "K:Specialize:") && fields.len() > 5 {
        assert(all.subrange(0, 3) =~= all.take(3));
        assert(all.subrange(5, all.len() as int) =~= all.skip(5));
        let mut out = joined_fields(&fields, 0, 3);
        append_str(&mut out, ":::");
        let tail = joined_fields(&fields, 5, fields.len());
        append(&mut out, tail.as_slice());
        return out;
    }
    if has_prefix(text, "K:Equip:") && fields.len() > 6 {
        assert(all.subrange(0, 6) =~= all.take(6));
        return joined_fields(&fields, 0, 6);
    }
    if counter {
        proof {
            reveal_strlit(":no Condition:");
            reveal_strlit(":no condition:");
        }
        let total: usize = text.len();
        if let Some(at) = position_of(text, ":no Condition:") {
            return to_owned(front(text, at + 13));
        }
        if let Some(at) = position_of(text, ":no condition:") {
            return to_owned(front(text, at + 13));
        }
    }
    to_owned(text)
}

/// Puts a line into the vocabulary of the rules: keywords in prose become
/// single words, and flavor words and reminders go.
pub fn normalize_keyword_vocabulary(line: &str) -> (out: String)
    ensures
        out@ == keyword_vocabulary(line@),
{
    let chars = chars_of(line);
    let bare = with_flavor_removed(chars.as_slice());
    let plain = with_plain_vocabulary(bare.as_slice());
    if has_prefix(plain.as_slice(), "K:Spend only colored mana on X.") {
        let word = chars_of("K:DistinctColoredManaForX");
        return string_of(word.as_slice());
    }
    let out = with_reminders_removed(plain.as_slice());
    string_of(out.as_slice())
}

} // verus!
