//! Which words keywords in prose become, and what goes from keyword lines.

use vstd::prelude::*;

use crate::keyword_laws::is_flavor;
use crate::keywords::{
    cut_at_marker, flavorless, keyword_vocabulary, plain_vocabulary, without_flavor, without_reminders,
};
use crate::parameter_laws::lemma_join_split;
use crate::tables::{lacks, lemma_split_join};
use crate::text::{
    find, join, join_tail, lemma_find, lemma_find_char, occurs_at, replace, split, starts_with,
};

verus! {

/// The keywords as they stand in prose.
pub open spec fn prose(at: int) -> Seq<char> {
    if at == 0 {
        "First Strike"@
    } else if at == 1 {
        "Double Strike"@
    } else if at == 2 {
        "Level up"@
    } else if at == 3 {
        "Battle cry"@
    } else if at == 4 {
        "Battle Cry"@
    } else if at == 5 {
        "Start your engines!"@
    } else if at == 6 {
        "Start your engines"@
    } else if at == 7 {
        "Web-slinging"@
    } else if at == 8 {
        "Shaman's Trance"@
    } else if at == 9 {
        "Protection from red"@
    } else if at == 10 {
        "Protection from blue"@
    } else if at == 11 {
        "Protection from black"@
    } else if at == 12 {
        "Protection from white"@
    } else if at == 13 {
        "Protection from green"@
    } else if at == 14 {
        "Protection from everything"@
    } else if at == 15 {
        "Protection from each color"@
    } else {
        "You draw cards from the bottom of your library instead of the top of your library."@
    }
}

/// The words that keywords in prose become.
pub open spec fn word(at: int) -> Seq<char> {
    if at == 0 {
        "FirstStrike"@
    } else if at == 1 {
        "DoubleStrike"@
    } else if at == 2 {
        "LevelUp"@
    } else if at == 3 {
        "BattleCry"@
    } else if at == 4 {
        "BattleCry"@
    } else if at == 5 {
        "StartYourEngines"@
    } else if at == 6 {
        "StartYourEngines"@
    } else if at == 7 {
        "WebSlinging"@
    } else if at == 8 {
        "SharedGraveyardCasting"@
    } else if at == 9 {
        "Protection:Red"@
    } else if at == 10 {
        "Protection:Blue"@
    } else if at == 11 {
        "Protection:Black"@
    } else if at == 12 {
        "Protection:White"@
    } else if at == 13 {
        "Protection:Green"@
    } else if at == 14 {
        "Protection:Everything"@
    } else if at == 15 {
        "Protection:EachColor"@
    } else {
        "DrawFromBottom"@
    }
}

/// Whether a character is an ASCII letter.
pub open spec fn is_letter(c: char) -> bool {
    'a' <= c <= 'z' || 'A' <= c <= 'Z'
}

/// Whether a text has no ASCII letters.
pub open spec fn no_letters(text: Seq<char>) -> bool {
    forall|i: int| 0 <= i < text.len() ==> !is_letter(#[trigger] text[i])
}

/// Whether no keyword in prose has the character.
pub open spec fn is_apart(c: char) -> bool {
    !is_letter(c) && c != ' ' && c != '!' && c != '-' && c != '\'' && c != '.'
}

/// Whether no keyword in prose stands in the text.
pub open spec fn holds_no_prose(text: Seq<char>) -> bool {
    forall|row: int, at: int| 0 <= row < 17 ==> !#[trigger] occurs_at(text, prose(row), at)
}

/// The text with the first `count` keywords replaced.
spec fn replaced_to(text: Seq<char>, count: int) -> Seq<char>
    decreases count,
{
    if count <= 0 {
        text
    } else {
        replace(replaced_to(text, count - 1), prose(count - 1), word(count - 1))
    }
}

proof fn lemma_plain_is(text: Seq<char>)
    ensures
        plain_vocabulary(text) == replaced_to(text, 17),
{
    assert(replaced_to(text, 0) == text);
    assert(replaced_to(text, 1) == replace(replaced_to(text, 0), prose(0), word(0)));
    assert(replaced_to(text, 2) == replace(replaced_to(text, 1), prose(1), word(1)));
    assert(replaced_to(text, 3) == replace(replaced_to(text, 2), prose(2), word(2)));
    assert(replaced_to(text, 4) == replace(replaced_to(text, 3), prose(3), word(3)));
    assert(replaced_to(text, 5) == replace(replaced_to(text, 4), prose(4), word(4)));
    assert(replaced_to(text, 6) == replace(replaced_to(text, 5), prose(5), word(5)));
    assert(replaced_to(text, 7) == replace(replaced_to(text, 6), prose(6), word(6)));
    assert(replaced_to(text, 8) == replace(replaced_to(text, 7), prose(7), word(7)));
    assert(replaced_to(text, 9) == replace(replaced_to(text, 8), prose(8), word(8)));
    assert(replaced_to(text, 10) == replace(replaced_to(text, 9), prose(9), word(9)));
    assert(replaced_to(text, 11) == replace(replaced_to(text, 10), prose(10), word(10)));
    assert(replaced_to(text, 12) == replace(replaced_to(text, 11), prose(11), word(11)));
    assert(replaced_to(text, 13) == replace(replaced_to(text, 12), prose(12), word(12)));
    assert(replaced_to(text, 14) == replace(replaced_to(text, 13), prose(13), word(13)));
    assert(replaced_to(text, 15) == replace(replaced_to(text, 14), prose(14), word(14)));
    assert(replaced_to(text, 16) == replace(replaced_to(text, 15), prose(15), word(15)));
    assert(replaced_to(text, 17) == replace(replaced_to(text, 16), prose(16), word(16)));
}

/// Where a pattern begins and ends, letters stand, but for one mark at the end.
spec fn is_wordy(pattern: Seq<char>) -> bool {
    &&& pattern.len() > 1
    &&& is_letter(pattern[0])
    &&& is_letter(pattern.last()) || ((pattern.last() == '!' || pattern.last() == '.') && is_letter(
        pattern[pattern.len() - 2],
    ))
}

proof fn lemma_prose_shape(row: int)
    requires
        0 <= row < 17,
    ensures
        is_wordy(prose(row)),
        forall|i: int| 0 <= i < prose(row).len() ==> !is_apart(#[trigger] prose(row)[i]),
{
    reveal_strlit("First Strike");
    reveal_strlit("Double Strike");
    reveal_strlit("Level up");
    reveal_strlit("Battle cry");
    reveal_strlit("Battle Cry");
    reveal_strlit("Start your engines!");
    reveal_strlit("Start your engines");
    reveal_strlit("Web-slinging");
    reveal_strlit("Shaman's Trance");
    reveal_strlit("Protection from red");
    reveal_strlit("Protection from blue");
    reveal_strlit("Protection from black");
    reveal_strlit("Protection from white");
    reveal_strlit("Protection from green");
    reveal_strlit("Protection from everything");
    reveal_strlit("Protection from each color");
    reveal_strlit("You draw cards from the bottom of your library instead of the top of your library.");
}

/// Whether the text has the pattern nowhere.
spec fn is_absent(text: Seq<char>, pattern: Seq<char>) -> bool {
    forall|at: int| !#[trigger] occurs_at(text, pattern, at)
}

proof fn lemma_letter_missing(text: Seq<char>, pattern: Seq<char>, place: int)
    requires
        0 <= place < pattern.len(),
        lacks(text, pattern[place]),
    ensures
        is_absent(text, pattern),
{
    assert forall|at: int| !#[trigger] occurs_at(text, pattern, at) by {
        if occurs_at(text, pattern, at) {
            assert(text.subrange(at, at + pattern.len())[place] == text[at + place]);
        }
    }
}

proof fn lemma_too_short(text: Seq<char>, pattern: Seq<char>)
    requires
        text.len() < pattern.len(),
    ensures
        is_absent(text, pattern),
{
}

proof fn lemma_absent_0(row: int)
    requires
        0 <= row < 17,
        row != 0,
    ensures
        row > 0 ==> is_absent(prose(row), prose(0)),
        row < 0 ==> is_absent(word(row), prose(0)),
{
    let pattern = "First Strike"@;
    reveal_strlit("First Strike");
    if row == 1 {
        reveal_strlit("Double Strike");
        lemma_letter_missing("Double Strike"@, pattern, 0);
    } else if row == 2 {
        reveal_strlit("Level up");
        lemma_too_short("Level up"@, pattern);
    } else if row == 3 {
        reveal_strlit("Battle cry");
        lemma_too_short("Battle cry"@, pattern);
    } else if row == 4 {
        reveal_strlit("Battle Cry");
        lemma_too_short("Battle Cry"@, pattern);
    } else if row == 5 {
        reveal_strlit("Start your engines!");
        lemma_letter_missing("Start your engines!"@, pattern, 0);
    } else if row == 6 {
        reveal_strlit("Start your engines");
        lemma_letter_missing("Start your engines"@, pattern, 0);
    } else if row == 7 {
        reveal_strlit("Web-slinging");
        lemma_letter_missing("Web-slinging"@, pattern, 0);
    } else if row == 8 {
        reveal_strlit("Shaman's Trance");
        lemma_letter_missing("Shaman's Trance"@, pattern, 0);
    } else if row == 9 {
        reveal_strlit("Protection from red");
        lemma_letter_missing("Protection from red"@, pattern, 0);
    } else if row == 10 {
        reveal_strlit("Protection from blue");
        lemma_letter_missing("Protection from blue"@, pattern, 0);
    } else if row == 11 {
        reveal_strlit("Protection from black");
        lemma_letter_missing("Protection from black"@, pattern, 0);
    } else if row == 12 {
        reveal_strlit("Protection from white");
        lemma_letter_missing("Protection from white"@, pattern, 0);
    } else if row == 13 {
        reveal_strlit("Protection from green");
        lemma_letter_missing("Protection from green"@, pattern, 0);
    } else if row == 14 {
        reveal_strlit("Protection from everything");
        lemma_letter_missing("Protection from everything"@, pattern, 0);
    } else if row == 15 {
        reveal_strlit("Protection from each color");
        lemma_letter_missing("Protection from each color"@, pattern, 0);
    } else if row == 16 {
        reveal_strlit("You draw cards from the bottom of your library instead of the top of your library.");
        lemma_letter_missing("You draw cards from the bottom of your library instead of the top of your library."@, pattern, 0);
    }
}

proof fn lemma_absent_1(row: int)
    requires
        0 <= row < 17,
        row != 1,
    ensures
        row > 1 ==> is_absent(prose(row), prose(1)),
        row < 1 ==> is_absent(word(row), prose(1)),
{
    let pattern = "Double Strike"@;
    reveal_strlit("Double Strike");
    if row == 0 {
        reveal_strlit("FirstStrike");
        lemma_too_short("FirstStrike"@, pattern);
    } else if row == 2 {
        reveal_strlit("Level up");
        lemma_too_short("Level up"@, pattern);
    } else if row == 3 {
        reveal_strlit("Battle cry");
        lemma_too_short("Battle cry"@, pattern);
    } else if row == 4 {
        reveal_strlit("Battle Cry");
        lemma_too_short("Battle Cry"@, pattern);
    } else if row == 5 {
        reveal_strlit("Start your engines!");
        lemma_letter_missing("Start your engines!"@, pattern, 0);
    } else if row == 6 {
        reveal_strlit("Start your engines");
        lemma_letter_missing("Start your engines"@, pattern, 0);
    } else if row == 7 {
        reveal_strlit("Web-slinging");
        lemma_too_short("Web-slinging"@, pattern);
    } else if row == 8 {
        reveal_strlit("Shaman's Trance");
        lemma_letter_missing("Shaman's Trance"@, pattern, 0);
    } else if row == 9 {
        reveal_strlit("Protection from red");
        lemma_letter_missing("Protection from red"@, pattern, 0);
    } else if row == 10 {
        reveal_strlit("Protection from blue");
        lemma_letter_missing("Protection from blue"@, pattern, 0);
    } else if row == 11 {
        reveal_strlit("Protection from black");
        lemma_letter_missing("Protection from black"@, pattern, 0);
    } else if row == 12 {
        reveal_strlit("Protection from white");
        lemma_letter_missing("Protection from white"@, pattern, 0);
    } else if row == 13 {
        reveal_strlit("Protection from green");
        lemma_letter_missing("Protection from green"@, pattern, 0);
    } else if row == 14 {
        reveal_strlit("Protection from everything");
        lemma_letter_missing("Protection from everything"@, pattern, 0);
    } else if row == 15 {
        reveal_strlit("Protection from each color");
        lemma_letter_missing("Protection from each color"@, pattern, 0);
    } else if row == 16 {
        reveal_strlit("You draw cards from the bottom of your library instead of the top of your library.");
        lemma_letter_missing("You draw cards from the bottom of your library instead of the top of your library."@, pattern, 0);
    }
}

proof fn lemma_absent_2(row: int)
    requires
        0 <= row < 17,
        row != 2,
    ensures
        row > 2 ==> is_absent(prose(row), prose(2)),
        row < 2 ==> is_absent(word(row), prose(2)),
{
    let pattern = "Level up"@;
    reveal_strlit("Level up");
    if row == 0 {
        reveal_strlit("FirstStrike");
        lemma_letter_missing("FirstStrike"@, pattern, 0);
    } else if row == 1 {
        reveal_strlit("DoubleStrike");
        lemma_letter_missing("DoubleStrike"@, pattern, 0);
    } else if row == 3 {
        reveal_strlit("Battle cry");
        lemma_letter_missing("Battle cry"@, pattern, 0);
    } else if row == 4 {
        reveal_strlit("Battle Cry");
        lemma_letter_missing("Battle Cry"@, pattern, 0);
    } else if row == 5 {
        reveal_strlit("Start your engines!");
        lemma_letter_missing("Start your engines!"@, pattern, 0);
    } else if row == 6 {
        reveal_strlit("Start your engines");
        lemma_letter_missing("Start your engines"@, pattern, 0);
    } else if row == 7 {
        reveal_strlit("Web-slinging");
        lemma_letter_missing("Web-slinging"@, pattern, 0);
    } else if row == 8 {
        reveal_strlit("Shaman's Trance");
        lemma_letter_missing("Shaman's Trance"@, pattern, 0);
    } else if row == 9 {
        reveal_strlit("Protection from red");
        lemma_letter_missing("Protection from red"@, pattern, 0);
    } else if row == 10 {
        reveal_strlit("Protection from blue");
        lemma_letter_missing("Protection from blue"@, pattern, 0);
    } else if row == 11 {
        reveal_strlit("Protection from black");
        lemma_letter_missing("Protection from black"@, pattern, 0);
    } else if row == 12 {
        reveal_strlit("Protection from white");
        lemma_letter_missing("Protection from white"@, pattern, 0);
    } else if row == 13 {
        reveal_strlit("Protection from green");
        lemma_letter_missing("Protection from green"@, pattern, 0);
    } else if row == 14 {
        reveal_strlit("Protection from everything");
        lemma_letter_missing("Protection from everything"@, pattern, 0);
    } else if row == 15 {
        reveal_strlit("Protection from each color");
        lemma_letter_missing("Protection from each color"@, pattern, 0);
    } else if row == 16 {
        reveal_strlit("You draw cards from the bottom of your library instead of the top of your library.");
        lemma_letter_missing("You draw cards from the bottom of your library instead of the top of your library."@, pattern, 0);
    }
}

proof fn lemma_absent_3(row: int)
    requires
        0 <= row < 17,
        row != 3,
    ensures
        row > 3 ==> is_absent(prose(row), prose(3)),
        row < 3 ==> is_absent(word(row), prose(3)),
{
    let pattern = "Battle cry"@;
    reveal_strlit("Battle cry");
    if row == 0 {
        reveal_strlit("FirstStrike");
        lemma_letter_missing("FirstStrike"@, pattern, 0);
    } else if row == 1 {
        reveal_strlit("DoubleStrike");
        lemma_letter_missing("DoubleStrike"@, pattern, 0);
    } else if row == 2 {
        reveal_strlit("LevelUp");
        lemma_too_short("LevelUp"@, pattern);
    } else if row == 4 {
        reveal_strlit("Battle Cry");
        lemma_letter_missing("Battle Cry"@, pattern, 7);
    } else if row == 5 {
        reveal_strlit("Start your engines!");
        lemma_letter_missing("Start your engines!"@, pattern, 0);
    } else if row == 6 {
        reveal_strlit("Start your engines");
        lemma_letter_missing("Start your engines"@, pattern, 0);
    } else if row == 7 {
        reveal_strlit("Web-slinging");
        lemma_letter_missing("Web-slinging"@, pattern, 0);
    } else if row == 8 {
        reveal_strlit("Shaman's Trance");
        lemma_letter_missing("Shaman's Trance"@, pattern, 0);
    } else if row == 9 {
        reveal_strlit("Protection from red");
        lemma_letter_missing("Protection from red"@, pattern, 0);
    } else if row == 10 {
        reveal_strlit("Protection from blue");
        lemma_letter_missing("Protection from blue"@, pattern, 0);
    } else if row == 11 {
        reveal_strlit("Protection from black");
        lemma_letter_missing("Protection from black"@, pattern, 0);
    } else if row == 12 {
        reveal_strlit("Protection from white");
        lemma_letter_missing("Protection from white"@, pattern, 0);
    } else if row == 13 {
        reveal_strlit("Protection from green");
        lemma_letter_missing("Protection from green"@, pattern, 0);
    } else if row == 14 {
        reveal_strlit("Protection from everything");
        lemma_letter_missing("Protection from everything"@, pattern, 0);
    } else if row == 15 {
        reveal_strlit("Protection from each color");
        lemma_letter_missing("Protection from each color"@, pattern, 0);
    } else if row == 16 {
        reveal_strlit("You draw cards from the bottom of your library instead of the top of your library.");
        lemma_letter_missing("You draw cards from the bottom of your library instead of the top of your library."@, pattern, 0);
    }
}

proof fn lemma_absent_4(row: int)
    requires
        0 <= row < 17,
        row != 4,
    ensures
        row > 4 ==> is_absent(prose(row), prose(4)),
        row < 4 ==> is_absent(word(row), prose(4)),
{
    let pattern = "Battle Cry"@;
    reveal_strlit("Battle Cry");
    if row == 0 {
        reveal_strlit("FirstStrike");
        lemma_letter_missing("FirstStrike"@, pattern, 0);
    } else if row == 1 {
        reveal_strlit("DoubleStrike");
        lemma_letter_missing("DoubleStrike"@, pattern, 0);
    } else if row == 2 {
        reveal_strlit("LevelUp");
        lemma_too_short("LevelUp"@, pattern);
    } else if row == 3 {
        reveal_strlit("BattleCry");
        lemma_too_short("BattleCry"@, pattern);
    } else if row == 5 {
        reveal_strlit("Start your engines!");
        lemma_letter_missing("Start your engines!"@, pattern, 0);
    } else if row == 6 {
        reveal_strlit("Start your engines");
        lemma_letter_missing("Start your engines"@, pattern, 0);
    } else if row == 7 {
        reveal_strlit("Web-slinging");
        lemma_letter_missing("Web-slinging"@, pattern, 0);
    } else if row == 8 {
        reveal_strlit("Shaman's Trance");
        lemma_letter_missing("Shaman's Trance"@, pattern, 0);
    } else if row == 9 {
        reveal_strlit("Protection from red");
        lemma_letter_missing("Protection from red"@, pattern, 0);
    } else if row == 10 {
        reveal_strlit("Protection from blue");
        lemma_letter_missing("Protection from blue"@, pattern, 0);
    } else if row == 11 {
        reveal_strlit("Protection from black");
        lemma_letter_missing("Protection from black"@, pattern, 0);
    } else if row == 12 {
        reveal_strlit("Protection from white");
        lemma_letter_missing("Protection from white"@, pattern, 0);
    } else if row == 13 {
        reveal_strlit("Protection from green");
        lemma_letter_missing("Protection from green"@, pattern, 0);
    } else if row == 14 {
        reveal_strlit("Protection from everything");
        lemma_letter_missing("Protection from everything"@, pattern, 0);
    } else if row == 15 {
        reveal_strlit("Protection from each color");
        lemma_letter_missing("Protection from each color"@, pattern, 0);
    } else if row == 16 {
        reveal_strlit("You draw cards from the bottom of your library instead of the top of your library.");
        lemma_letter_missing("You draw cards from the bottom of your library instead of the top of your library."@, pattern, 0);
    }
}

proof fn lemma_absent_5(row: int)
    requires
        0 <= row < 17,
        row != 5,
    ensures
        row > 5 ==> is_absent(prose(row), prose(5)),
        row < 5 ==> is_absent(word(row), prose(5)),
{
    let pattern = "Start your engines!"@;
    reveal_strlit("Start your engines!");
    if row == 0 {
        reveal_strlit("FirstStrike");
        lemma_too_short("FirstStrike"@, pattern);
    } else if row == 1 {
        reveal_strlit("DoubleStrike");
        lemma_too_short("DoubleStrike"@, pattern);
    } else if row == 2 {
        reveal_strlit("LevelUp");
        lemma_too_short("LevelUp"@, pattern);
    } else if row == 3 {
        reveal_strlit("BattleCry");
        lemma_too_short("BattleCry"@, pattern);
    } else if row == 4 {
        reveal_strlit("BattleCry");
        lemma_too_short("BattleCry"@, pattern);
    } else if row == 6 {
        reveal_strlit("Start your engines");
        lemma_too_short("Start your engines"@, pattern);
    } else if row == 7 {
        reveal_strlit("Web-slinging");
        lemma_too_short("Web-slinging"@, pattern);
    } else if row == 8 {
        reveal_strlit("Shaman's Trance");
        lemma_too_short("Shaman's Trance"@, pattern);
    } else if row == 9 {
        reveal_strlit("Protection from red");
        lemma_letter_missing("Protection from red"@, pattern, 0);
    } else if row == 10 {
        reveal_strlit("Protection from blue");
        lemma_letter_missing("Protection from blue"@, pattern, 0);
    } else if row == 11 {
        reveal_strlit("Protection from black");
        lemma_letter_missing("Protection from black"@, pattern, 0);
    } else if row == 12 {
        reveal_strlit("Protection from white");
        lemma_letter_missing("Protection from white"@, pattern, 0);
    } else if row == 13 {
        reveal_strlit("Protection from green");
        lemma_letter_missing("Protection from green"@, pattern, 0);
    } else if row == 14 {
        reveal_strlit("Protection from everything");
        lemma_letter_missing("Protection from everything"@, pattern, 0);
    } else if row == 15 {
        reveal_strlit("Protection from each color");
        lemma_letter_missing("Protection from each color"@, pattern, 0);
    } else if row == 16 {
        reveal_strlit("You draw cards from the bottom of your library instead of the top of your library.");
        lemma_letter_missing("You draw cards from the bottom of your library instead of the top of your library."@, pattern, 0);
    }
}

proof fn lemma_absent_6(row: int)
    requires
        0 <= row < 17,
        row != 6,
    ensures
        row > 6 ==> is_absent(prose(row), prose(6)),
        row < 6 ==> is_absent(word(row), prose(6)),
{
    let pattern = "Start your engines"@;
    reveal_strlit("Start your engines");
    if row == 0 {
        reveal_strlit("FirstStrike");
        lemma_too_short("FirstStrike"@, pattern);
    } else if row == 1 {
        reveal_strlit("DoubleStrike");
        lemma_too_short("DoubleStrike"@, pattern);
    } else if row == 2 {
        reveal_strlit("LevelUp");
        lemma_too_short("LevelUp"@, pattern);
    } else if row == 3 {
        reveal_strlit("BattleCry");
        lemma_too_short("BattleCry"@, pattern);
    } else if row == 4 {
        reveal_strlit("BattleCry");
        lemma_too_short("BattleCry"@, pattern);
    } else if row == 5 {
        reveal_strlit("StartYourEngines");
        lemma_too_short("StartYourEngines"@, pattern);
    } else if row == 7 {
        reveal_strlit("Web-slinging");
        lemma_too_short("Web-slinging"@, pattern);
    } else if row == 8 {
        reveal_strlit("Shaman's Trance");
        lemma_too_short("Shaman's Trance"@, pattern);
    } else if row == 9 {
        reveal_strlit("Protection from red");
        lemma_letter_missing("Protection from red"@, pattern, 0);
    } else if row == 10 {
        reveal_strlit("Protection from blue");
        lemma_letter_missing("Protection from blue"@, pattern, 0);
    } else if row == 11 {
        reveal_strlit("Protection from black");
        lemma_letter_missing("Protection from black"@, pattern, 0);
    } else if row == 12 {
        reveal_strlit("Protection from white");
        lemma_letter_missing("Protection from white"@, pattern, 0);
    } else if row == 13 {
        reveal_strlit("Protection from green");
        lemma_letter_missing("Protection from green"@, pattern, 0);
    } else if row == 14 {
        reveal_strlit("Protection from everything");
        lemma_letter_missing("Protection from everything"@, pattern, 0);
    } else if row == 15 {
        reveal_strlit("Protection from each color");
        lemma_letter_missing("Protection from each color"@, pattern, 0);
    } else if row == 16 {
        reveal_strlit("You draw cards from the bottom of your library instead of the top of your library.");
        lemma_letter_missing("You draw cards from the bottom of your library instead of the top of your library."@, pattern, 0);
    }
}

proof fn lemma_absent_7(row: int)
    requires
        0 <= row < 17,
        row != 7,
    ensures
        row > 7 ==> is_absent(prose(row), prose(7)),
        row < 7 ==> is_absent(word(row), prose(7)),
{
    let pattern = "Web-slinging"@;
    reveal_strlit("Web-slinging");
    if row == 0 {
        reveal_strlit("FirstStrike");
        lemma_too_short("FirstStrike"@, pattern);
    } else if row == 1 {
        reveal_strlit("DoubleStrike");
        lemma_letter_missing("DoubleStrike"@, pattern, 0);
    } else if row == 2 {
        reveal_strlit("LevelUp");
        lemma_too_short("LevelUp"@, pattern);
    } else if row == 3 {
        reveal_strlit("BattleCry");
        lemma_too_short("BattleCry"@, pattern);
    } else if row == 4 {
        reveal_strlit("BattleCry");
        lemma_too_short("BattleCry"@, pattern);
    } else if row == 5 {
        reveal_strlit("StartYourEngines");
        lemma_letter_missing("StartYourEngines"@, pattern, 0);
    } else if row == 6 {
        reveal_strlit("StartYourEngines");
        lemma_letter_missing("StartYourEngines"@, pattern, 0);
    } else if row == 8 {
        reveal_strlit("Shaman's Trance");
        lemma_letter_missing("Shaman's Trance"@, pattern, 0);
    } else if row == 9 {
        reveal_strlit("Protection from red");
        lemma_letter_missing("Protection from red"@, pattern, 0);
    } else if row == 10 {
        reveal_strlit("Protection from blue");
        lemma_letter_missing("Protection from blue"@, pattern, 0);
    } else if row == 11 {
        reveal_strlit("Protection from black");
        lemma_letter_missing("Protection from black"@, pattern, 0);
    } else if row == 12 {
        reveal_strlit("Protection from white");
        lemma_letter_missing("Protection from white"@, pattern, 0);
    } else if row == 13 {
        reveal_strlit("Protection from green");
        lemma_letter_missing("Protection from green"@, pattern, 0);
    } else if row == 14 {
        reveal_strlit("Protection from everything");
        lemma_letter_missing("Protection from everything"@, pattern, 0);
    } else if row == 15 {
        reveal_strlit("Protection from each color");
        lemma_letter_missing("Protection from each color"@, pattern, 0);
    } else if row == 16 {
        reveal_strlit("You draw cards from the bottom of your library instead of the top of your library.");
        lemma_letter_missing("You draw cards from the bottom of your library instead of the top of your library."@, pattern, 0);
    }
}

proof fn lemma_absent_8(row: int)
    requires
        0 <= row < 17,
        row != 8,
    ensures
        row > 8 ==> is_absent(prose(row), prose(8)),
        row < 8 ==> is_absent(word(row), prose(8)),
{
    let pattern = "Shaman's Trance"@;
    reveal_strlit("Shaman's Trance");
    if row == 0 {
        reveal_strlit("FirstStrike");
        lemma_too_short("FirstStrike"@, pattern);
    } else if row == 1 {
        reveal_strlit("DoubleStrike");
        lemma_too_short("DoubleStrike"@, pattern);
    } else if row == 2 {
        reveal_strlit("LevelUp");
        lemma_too_short("LevelUp"@, pattern);
    } else if row == 3 {
        reveal_strlit("BattleCry");
        lemma_too_short("BattleCry"@, pattern);
    } else if row == 4 {
        reveal_strlit("BattleCry");
        lemma_too_short("BattleCry"@, pattern);
    } else if row == 5 {
        reveal_strlit("StartYourEngines");
        lemma_letter_missing("StartYourEngines"@, pattern, 1);
    } else if row == 6 {
        reveal_strlit("StartYourEngines");
        lemma_letter_missing("StartYourEngines"@, pattern, 1);
    } else if row == 7 {
        reveal_strlit("WebSlinging");
        lemma_too_short("WebSlinging"@, pattern);
    } else if row == 9 {
        reveal_strlit("Protection from red");
        lemma_letter_missing("Protection from red"@, pattern, 0);
    } else if row == 10 {
        reveal_strlit("Protection from blue");
        lemma_letter_missing("Protection from blue"@, pattern, 0);
    } else if row == 11 {
        reveal_strlit("Protection from black");
        lemma_letter_missing("Protection from black"@, pattern, 0);
    } else if row == 12 {
        reveal_strlit("Protection from white");
        lemma_letter_missing("Protection from white"@, pattern, 0);
    } else if row == 13 {
        reveal_strlit("Protection from green");
        lemma_letter_missing("Protection from green"@, pattern, 0);
    } else if row == 14 {
        reveal_strlit("Protection from everything");
        lemma_letter_missing("Protection from everything"@, pattern, 0);
    } else if row == 15 {
        reveal_strlit("Protection from each color");
        lemma_letter_missing("Protection from each color"@, pattern, 0);
    } else if row == 16 {
        reveal_strlit("You draw cards from the bottom of your library instead of the top of your library.");
        lemma_letter_missing("You draw cards from the bottom of your library instead of the top of your library."@, pattern, 0);
    }
}

proof fn lemma_absent_9(row: int)
    requires
        0 <= row < 17,
        row != 9,
    ensures
        row > 9 ==> is_absent(prose(row), prose(9)),
        row < 9 ==> is_absent(word(row), prose(9)),
{
    let pattern = "Protection from red"@;
    reveal_strlit("Protection from red");
    if row == 0 {
        reveal_strlit("FirstStrike");
        lemma_too_short("FirstStrike"@, pattern);
    } else if row == 1 {
        reveal_strlit("DoubleStrike");
        lemma_too_short("DoubleStrike"@, pattern);
    } else if row == 2 {
        reveal_strlit("LevelUp");
        lemma_too_short("LevelUp"@, pattern);
    } else if row == 3 {
        reveal_strlit("BattleCry");
        lemma_too_short("BattleCry"@, pattern);
    } else if row == 4 {
        reveal_strlit("BattleCry");
        lemma_too_short("BattleCry"@, pattern);
    } else if row == 5 {
        reveal_strlit("StartYourEngines");
        lemma_too_short("StartYourEngines"@, pattern);
    } else if row == 6 {
        reveal_strlit("StartYourEngines");
        lemma_too_short("StartYourEngines"@, pattern);
    } else if row == 7 {
        reveal_strlit("WebSlinging");
        lemma_too_short("WebSlinging"@, pattern);
    } else if row == 8 {
        reveal_strlit("SharedGraveyardCasting");
        lemma_letter_missing("SharedGraveyardCasting"@, pattern, 0);
    } else if row == 10 {
        reveal_strlit("Protection from blue");
        lemma_letter_missing("Protection from blue"@, pattern, 18);
    } else if row == 11 {
        reveal_strlit("Protection from black");
        lemma_letter_missing("Protection from black"@, pattern, 18);
    } else if row == 12 {
        reveal_strlit("Protection from white");
        lemma_letter_missing("Protection from white"@, pattern, 18);
    } else if row == 13 {
        reveal_strlit("Protection from green");
        lemma_letter_missing("Protection from green"@, pattern, 18);
    } else if row == 14 {
        reveal_strlit("Protection from everything");
        lemma_letter_missing("Protection from everything"@, pattern, 18);
    } else if row == 15 {
        reveal_strlit("Protection from each color");
        lemma_letter_missing("Protection from each color"@, pattern, 18);
    } else if row == 16 {
        reveal_strlit("You draw cards from the bottom of your library instead of the top of your library.");
        lemma_letter_missing("You draw cards from the bottom of your library instead of the top of your library."@, pattern, 0);
    }
}

proof fn lemma_absent_10(row: int)
    requires
        0 <= row < 17,
        row != 10,
    ensures
        row > 10 ==> is_absent(prose(row), prose(10)),
        row < 10 ==> is_absent(word(row), prose(10)),
{
    let pattern = "Protection from blue"@;
    reveal_strlit("Protection from blue");
    if row == 0 {
        reveal_strlit("FirstStrike");
        lemma_too_short("FirstStrike"@, pattern);
    } else if row == 1 {
        reveal_strlit("DoubleStrike");
        lemma_too_short("DoubleStrike"@, pattern);
    } else if row == 2 {
        reveal_strlit("LevelUp");
        lemma_too_short("LevelUp"@, pattern);
    } else if row == 3 {
        reveal_strlit("BattleCry");
        lemma_too_short("BattleCry"@, pattern);
    } else if row == 4 {
        reveal_strlit("BattleCry");
        lemma_too_short("BattleCry"@, pattern);
    } else if row == 5 {
        reveal_strlit("StartYourEngines");
        lemma_too_short("StartYourEngines"@, pattern);
    } else if row == 6 {
        reveal_strlit("StartYourEngines");
        lemma_too_short("StartYourEngines"@, pattern);
    } else if row == 7 {
        reveal_strlit("WebSlinging");
        lemma_too_short("WebSlinging"@, pattern);
    } else if row == 8 {
        reveal_strlit("SharedGraveyardCasting");
        lemma_letter_missing("SharedGraveyardCasting"@, pattern, 0);
    } else if row == 9 {
        reveal_strlit("Protection:Red");
        lemma_too_short("Protection:Red"@, pattern);
    } else if row == 11 {
        reveal_strlit("Protection from black");
        lemma_letter_missing("Protection from black"@, pattern, 18);
    } else if row == 12 {
        reveal_strlit("Protection from white");
        lemma_letter_missing("Protection from white"@, pattern, 16);
    } else if row == 13 {
        reveal_strlit("Protection from green");
        lemma_letter_missing("Protection from green"@, pattern, 16);
    } else if row == 14 {
        reveal_strlit("Protection from everything");
        lemma_letter_missing("Protection from everything"@, pattern, 16);
    } else if row == 15 {
        reveal_strlit("Protection from each color");
        lemma_letter_missing("Protection from each color"@, pattern, 16);
    } else if row == 16 {
        reveal_strlit("You draw cards from the bottom of your library instead of the top of your library.");
        lemma_letter_missing("You draw cards from the bottom of your library instead of the top of your library."@, pattern, 0);
    }
}

proof fn lemma_absent_11(row: int)
    requires
        0 <= row < 17,
        row != 11,
    ensures
        row > 11 ==> is_absent(prose(row), prose(11)),
        row < 11 ==> is_absent(word(row), prose(11)),
{
    let pattern = "Protection from black"@;
    reveal_strlit("Protection from black");
    if row == 0 {
        reveal_strlit("FirstStrike");
        lemma_too_short("FirstStrike"@, pattern);
    } else if row == 1 {
        reveal_strlit("DoubleStrike");
        lemma_too_short("DoubleStrike"@, pattern);
    } else if row == 2 {
        reveal_strlit("LevelUp");
        lemma_too_short("LevelUp"@, pattern);
    } else if row == 3 {
        reveal_strlit("BattleCry");
        lemma_too_short("BattleCry"@, pattern);
    } else if row == 4 {
        reveal_strlit("BattleCry");
        lemma_too_short("BattleCry"@, pattern);
    } else if row == 5 {
        reveal_strlit("StartYourEngines");
        lemma_too_short("StartYourEngines"@, pattern);
    } else if row == 6 {
        reveal_strlit("StartYourEngines");
        lemma_too_short("StartYourEngines"@, pattern);
    } else if row == 7 {
        reveal_strlit("WebSlinging");
        lemma_too_short("WebSlinging"@, pattern);
    } else if row == 8 {
        reveal_strlit("SharedGraveyardCasting");
        lemma_letter_missing("SharedGraveyardCasting"@, pattern, 0);
    } else if row == 9 {
        reveal_strlit("Protection:Red");
        lemma_too_short("Protection:Red"@, pattern);
    } else if row == 10 {
        reveal_strlit("Protection:Blue");
        lemma_too_short("Protection:Blue"@, pattern);
    } else if row == 12 {
        reveal_strlit("Protection from white");
        lemma_letter_missing("Protection from white"@, pattern, 16);
    } else if row == 13 {
        reveal_strlit("Protection from green");
        lemma_letter_missing("Protection from green"@, pattern, 16);
    } else if row == 14 {
        reveal_strlit("Protection from everything");
        lemma_letter_missing("Protection from everything"@, pattern, 16);
    } else if row == 15 {
        reveal_strlit("Protection from each color");
        lemma_letter_missing("Protection from each color"@, pattern, 16);
    } else if row == 16 {
        reveal_strlit("You draw cards from the bottom of your library instead of the top of your library.");
        lemma_letter_missing("You draw cards from the bottom of your library instead of the top of your library."@, pattern, 0);
    }
}

proof fn lemma_absent_12(row: int)
    requires
        0 <= row < 17,
        row != 12,
    ensures
        row > 12 ==> is_absent(prose(row), prose(12)),
        row < 12 ==> is_absent(word(row), prose(12)),
{
    let pattern = "Protection from white"@;
    reveal_strlit("Protection from white");
    if row == 0 {
        reveal_strlit("FirstStrike");
        lemma_too_short("FirstStrike"@, pattern);
    } else if row == 1 {
        reveal_strlit("DoubleStrike");
        lemma_too_short("DoubleStrike"@, pattern);
    } else if row == 2 {
        reveal_strlit("LevelUp");
        lemma_too_short("LevelUp"@, pattern);
    } else if row == 3 {
        reveal_strlit("BattleCry");
        lemma_too_short("BattleCry"@, pattern);
    } else if row == 4 {
        reveal_strlit("BattleCry");
        lemma_too_short("BattleCry"@, pattern);
    } else if row == 5 {
        reveal_strlit("StartYourEngines");
        lemma_too_short("StartYourEngines"@, pattern);
    } else if row == 6 {
        reveal_strlit("StartYourEngines");
        lemma_too_short("StartYourEngines"@, pattern);
    } else if row == 7 {
        reveal_strlit("WebSlinging");
        lemma_too_short("WebSlinging"@, pattern);
    } else if row == 8 {
        reveal_strlit("SharedGraveyardCasting");
        lemma_letter_missing("SharedGraveyardCasting"@, pattern, 0);
    } else if row == 9 {
        reveal_strlit("Protection:Red");
        lemma_too_short("Protection:Red"@, pattern);
    } else if row == 10 {
        reveal_strlit("Protection:Blue");
        lemma_too_short("Protection:Blue"@, pattern);
    } else if row == 11 {
        reveal_strlit("Protection:Black");
        lemma_too_short("Protection:Black"@, pattern);
    } else if row == 13 {
        reveal_strlit("Protection from green");
        lemma_letter_missing("Protection from green"@, pattern, 16);
    } else if row == 14 {
        reveal_strlit("Protection from everything");
        lemma_letter_missing("Protection from everything"@, pattern, 16);
    } else if row == 15 {
        reveal_strlit("Protection from each color");
        lemma_letter_missing("Protection from each color"@, pattern, 16);
    } else if row == 16 {
        reveal_strlit("You draw cards from the bottom of your library instead of the top of your library.");
        lemma_letter_missing("You draw cards from the bottom of your library instead of the top of your library."@, pattern, 0);
    }
}

proof fn lemma_absent_13(row: int)
    requires
        0 <= row < 17,
        row != 13,
    ensures
        row > 13 ==> is_absent(prose(row), prose(13)),
        row < 13 ==> is_absent(word(row), prose(13)),
{
    let pattern = "Protection from green"@;
    reveal_strlit("Protection from green");
    if row == 0 {
        reveal_strlit("FirstStrike");
        lemma_too_short("FirstStrike"@, pattern);
    } else if row == 1 {
        reveal_strlit("DoubleStrike");
        lemma_too_short("DoubleStrike"@, pattern);
    } else if row == 2 {
        reveal_strlit("LevelUp");
        lemma_too_short("LevelUp"@, pattern);
    } else if row == 3 {
        reveal_strlit("BattleCry");
        lemma_too_short("BattleCry"@, pattern);
    } else if row == 4 {
        reveal_strlit("BattleCry");
        lemma_too_short("BattleCry"@, pattern);
    } else if row == 5 {
        reveal_strlit("StartYourEngines");
        lemma_too_short("StartYourEngines"@, pattern);
    } else if row == 6 {
        reveal_strlit("StartYourEngines");
        lemma_too_short("StartYourEngines"@, pattern);
    } else if row == 7 {
        reveal_strlit("WebSlinging");
        lemma_too_short("WebSlinging"@, pattern);
    } else if row == 8 {
        reveal_strlit("SharedGraveyardCasting");
        lemma_letter_missing("SharedGraveyardCasting"@, pattern, 0);
    } else if row == 9 {
        reveal_strlit("Protection:Red");
        lemma_too_short("Protection:Red"@, pattern);
    } else if row == 10 {
        reveal_strlit("Protection:Blue");
        lemma_too_short("Protection:Blue"@, pattern);
    } else if row == 11 {
        reveal_strlit("Protection:Black");
        lemma_too_short("Protection:Black"@, pattern);
    } else if row == 12 {
        reveal_strlit("Protection:White");
        lemma_too_short("Protection:White"@, pattern);
    } else if row == 14 {
        reveal_strlit("Protection from everything");
        let text = "Protection from everything"@;
        assert forall|at: int| !#[trigger] occurs_at(text, pattern, at) by {
            if occurs_at(text, pattern, at) {
                assert(text.subrange(at, at + 21)[0] == text[at]);
                assert(at == 0);
                assert(text.subrange(at, at + 21)[16] == text[16]);
            }
        }
    } else if row == 15 {
        reveal_strlit("Protection from each color");
        lemma_letter_missing("Protection from each color"@, pattern, 16);
    } else if row == 16 {
        reveal_strlit("You draw cards from the bottom of your library instead of the top of your library.");
        lemma_letter_missing("You draw cards from the bottom of your library instead of the top of your library."@, pattern, 0);
    }
}

proof fn lemma_absent_14(row: int)
    requires
        0 <= row < 17,
        row != 14,
    ensures
        row > 14 ==> is_absent(prose(row), prose(14)),
        row < 14 ==> is_absent(word(row), prose(14)),
{
    let pattern = "Protection from everything"@;
    reveal_strlit("Protection from everything");
    if row == 0 {
        reveal_strlit("FirstStrike");
        lemma_too_short("FirstStrike"@, pattern);
    } else if row == 1 {
        reveal_strlit("DoubleStrike");
        lemma_too_short("DoubleStrike"@, pattern);
    } else if row == 2 {
        reveal_strlit("LevelUp");
        lemma_too_short("LevelUp"@, pattern);
    } else if row == 3 {
        reveal_strlit("BattleCry");
        lemma_too_short("BattleCry"@, pattern);
    } else if row == 4 {
        reveal_strlit("BattleCry");
        lemma_too_short("BattleCry"@, pattern);
    } else if row == 5 {
        reveal_strlit("StartYourEngines");
        lemma_too_short("StartYourEngines"@, pattern);
    } else if row == 6 {
        reveal_strlit("StartYourEngines");
        lemma_too_short("StartYourEngines"@, pattern);
    } else if row == 7 {
        reveal_strlit("WebSlinging");
        lemma_too_short("WebSlinging"@, pattern);
    } else if row == 8 {
        reveal_strlit("SharedGraveyardCasting");
        lemma_too_short("SharedGraveyardCasting"@, pattern);
    } else if row == 9 {
        reveal_strlit("Protection:Red");
        lemma_too_short("Protection:Red"@, pattern);
    } else if row == 10 {
        reveal_strlit("Protection:Blue");
        lemma_too_short("Protection:Blue"@, pattern);
    } else if row == 11 {
        reveal_strlit("Protection:Black");
        lemma_too_short("Protection:Black"@, pattern);
    } else if row == 12 {
        reveal_strlit("Protection:White");
        lemma_too_short("Protection:White"@, pattern);
    } else if row == 13 {
        reveal_strlit("Protection:Green");
        lemma_too_short("Protection:Green"@, pattern);
    } else if row == 15 {
        reveal_strlit("Protection from each color");
        lemma_letter_missing("Protection from each color"@, pattern, 17);
    } else if row == 16 {
        reveal_strlit("You draw cards from the bottom of your library instead of the top of your library.");
        lemma_letter_missing("You draw cards from the bottom of your library instead of the top of your library."@, pattern, 0);
    }
}

proof fn lemma_absent_15(row: int)
    requires
        0 <= row < 17,
        row != 15,
    ensures
        row > 15 ==> is_absent(prose(row), prose(15)),
        row < 15 ==> is_absent(word(row), prose(15)),
{
    let pattern = "Protection from each color"@;
    reveal_strlit("Protection from each color");
    if row == 0 {
        reveal_strlit("FirstStrike");
        lemma_too_short("FirstStrike"@, pattern);
    } else if row == 1 {
        reveal_strlit("DoubleStrike");
        lemma_too_short("DoubleStrike"@, pattern);
    } else if row == 2 {
        reveal_strlit("LevelUp");
        lemma_too_short("LevelUp"@, pattern);
    } else if row == 3 {
        reveal_strlit("BattleCry");
        lemma_too_short("BattleCry"@, pattern);
    } else if row == 4 {
        reveal_strlit("BattleCry");
        lemma_too_short("BattleCry"@, pattern);
    } else if row == 5 {
        reveal_strlit("StartYourEngines");
        lemma_too_short("StartYourEngines"@, pattern);
    } else if row == 6 {
        reveal_strlit("StartYourEngines");
        lemma_too_short("StartYourEngines"@, pattern);
    } else if row == 7 {
        reveal_strlit("WebSlinging");
        lemma_too_short("WebSlinging"@, pattern);
    } else if row == 8 {
        reveal_strlit("SharedGraveyardCasting");
        lemma_too_short("SharedGraveyardCasting"@, pattern);
    } else if row == 9 {
        reveal_strlit("Protection:Red");
        lemma_too_short("Protection:Red"@, pattern);
    } else if row == 10 {
        reveal_strlit("Protection:Blue");
        lemma_too_short("Protection:Blue"@, pattern);
    } else if row == 11 {
        reveal_strlit("Protection:Black");
        lemma_too_short("Protection:Black"@, pattern);
    } else if row == 12 {
        reveal_strlit("Protection:White");
        lemma_too_short("Protection:White"@, pattern);
    } else if row == 13 {
        reveal_strlit("Protection:Green");
        lemma_too_short("Protection:Green"@, pattern);
    } else if row == 14 {
        reveal_strlit("Protection:Everything");
        lemma_too_short("Protection:Everything"@, pattern);
    } else if row == 16 {
        reveal_strlit("You draw cards from the bottom of your library instead of the top of your library.");
        lemma_letter_missing("You draw cards from the bottom of your library instead of the top of your library."@, pattern, 0);
    }
}

proof fn lemma_absent_16(row: int)
    requires
        0 <= row < 17,
        row != 16,
    ensures
        row > 16 ==> is_absent(prose(row), prose(16)),
        row < 16 ==> is_absent(word(row), prose(16)),
{
    let pattern = "You draw cards from the bottom of your library instead of the top of your library."@;
    reveal_strlit("You draw cards from the bottom of your library instead of the top of your library.");
    if row == 0 {
        reveal_strlit("FirstStrike");
        lemma_too_short("FirstStrike"@, pattern);
    } else if row == 1 {
        reveal_strlit("DoubleStrike");
        lemma_too_short("DoubleStrike"@, pattern);
    } else if row == 2 {
        reveal_strlit("LevelUp");
        lemma_too_short("LevelUp"@, pattern);
    } else if row == 3 {
        reveal_strlit("BattleCry");
        lemma_too_short("BattleCry"@, pattern);
    } else if row == 4 {
        reveal_strlit("BattleCry");
        lemma_too_short("BattleCry"@, pattern);
    } else if row == 5 {
        reveal_strlit("StartYourEngines");
        lemma_too_short("StartYourEngines"@, pattern);
    } else if row == 6 {
        reveal_strlit("StartYourEngines");
        lemma_too_short("StartYourEngines"@, pattern);
    } else if row == 7 {
        reveal_strlit("WebSlinging");
        lemma_too_short("WebSlinging"@, pattern);
    } else if row == 8 {
        reveal_strlit("SharedGraveyardCasting");
        lemma_too_short("SharedGraveyardCasting"@, pattern);
    } else if row == 9 {
        reveal_strlit("Protection:Red");
        lemma_too_short("Protection:Red"@, pattern);
    } else if row == 10 {
        reveal_strlit("Protection:Blue");
        lemma_too_short("Protection:Blue"@, pattern);
    } else if row == 11 {
        reveal_strlit("Protection:Black");
        lemma_too_short("Protection:Black"@, pattern);
    } else if row == 12 {
        reveal_strlit("Protection:White");
        lemma_too_short("Protection:White"@, pattern);
    } else if row == 13 {
        reveal_strlit("Protection:Green");
        lemma_too_short("Protection:Green"@, pattern);
    } else if row == 14 {
        reveal_strlit("Protection:Everything");
        lemma_too_short("Protection:Everything"@, pattern);
    } else if row == 15 {
        reveal_strlit("Protection:EachColor");
        lemma_too_short("Protection:EachColor"@, pattern);
    }
}

/// The text in which row `row` stands when row `step` is looked for has no
/// keyword of that row.
proof fn lemma_absent(step: int, row: int)
    requires
        0 <= step < 17,
        0 <= row < 17,
        row != step,
    ensures
        row > step ==> is_absent(prose(row), prose(step)),
        row < step ==> is_absent(word(row), prose(step)),
{
    if step == 0 {
        lemma_absent_0(row);
    } else if step == 1 {
        lemma_absent_1(row);
    } else if step == 2 {
        lemma_absent_2(row);
    } else if step == 3 {
        lemma_absent_3(row);
    } else if step == 4 {
        lemma_absent_4(row);
    } else if step == 5 {
        lemma_absent_5(row);
    } else if step == 6 {
        lemma_absent_6(row);
    } else if step == 7 {
        lemma_absent_7(row);
    } else if step == 8 {
        lemma_absent_8(row);
    } else if step == 9 {
        lemma_absent_9(row);
    } else if step == 10 {
        lemma_absent_10(row);
    } else if step == 11 {
        lemma_absent_11(row);
    } else if step == 12 {
        lemma_absent_12(row);
    } else if step == 13 {
        lemma_absent_13(row);
    } else if step == 14 {
        lemma_absent_14(row);
    } else if step == 15 {
        lemma_absent_15(row);
    } else if step == 16 {
        lemma_absent_16(row);
    }
}

/// Whether a mark stands first that can end a keyword.
pub open spec fn begins_with_mark(text: Seq<char>) -> bool {
    text.len() > 0 && (text[0] == '!' || text[0] == '.')
}

proof fn lemma_absent_between(
    before: Seq<char>,
    core: Seq<char>,
    after: Seq<char>,
    pattern: Seq<char>,
)
    requires
        no_letters(before),
        no_letters(after),
        !begins_with_mark(after),
        is_wordy(pattern),
        is_absent(core, pattern),
    ensures
        is_absent(before + core + after, pattern),
{
    let text = before + core + after;
    assert forall|at: int| !#[trigger] occurs_at(text, pattern, at) by {
        if occurs_at(text, pattern, at) {
            let found = text.subrange(at, at + pattern.len());
            let end = at + pattern.len();
            let left = before.len() as int;
            let right = left + core.len();
            assert(text[at] == found[0]);
            assert(text[end - 1] == found[pattern.len() - 1]);
            assert(text[end - 2] == found[pattern.len() - 2]);
            if at < left {
                assert(text[at] == before[at]);
            } else if at >= right {
                assert(text[at] == after[at - right]);
            } else if end <= right {
                assert(core.subrange(at - left, end - left) =~= found);
                assert(occurs_at(core, pattern, at - left));
            } else {
                assert(text[end - 1] == after[end - 1 - right]);
                if end - 2 >= right {
                    assert(text[end - 2] == after[end - 2 - right]);
                } else {
                    assert(text[end - 1] == after[0]);
                }
            }
        }
    }
}

proof fn lemma_replace_absent(text: Seq<char>, pattern: Seq<char>, by: Seq<char>)
    requires
        is_absent(text, pattern),
    ensures
        replace(text, pattern, by) == text,
{
    lemma_find(text, pattern);
}

/// One keyword between texts without letters is replaced by its word.
proof fn lemma_replace_between(
    before: Seq<char>,
    core: Seq<char>,
    after: Seq<char>,
    by: Seq<char>,
)
    requires
        no_letters(before),
        no_letters(after),
        is_wordy(core),
    ensures
        replace(before + core + after, core, by) == before + by + after,
{
    let text = before + core + after;
    let left = before.len() as int;
    lemma_find(text, core);
    assert(text.subrange(left, left + core.len()) =~= core);
    assert(occurs_at(text, core, left));
    let at = find(text, core)->0;
    if at < left {
        assert(text.subrange(at, at + core.len())[0] == text[at]);
        assert(text[at] == before[at]);
    }
    assert(at == left);
    assert(text.skip(at + core.len()) =~= after);
    assert(text.take(at) =~= before);
    assert forall|j: int| !#[trigger] occurs_at(after, core, j) by {
        if occurs_at(after, core, j) {
            assert(after.subrange(j, j + core.len())[0] == after[j]);
        }
    }
    lemma_replace_absent(after, core, by);
}

proof fn lemma_rows(before: Seq<char>, row: int, after: Seq<char>, count: int)
    requires
        no_letters(before),
        no_letters(after),
        !begins_with_mark(after),
        0 <= row < 17,
        0 <= count <= 17,
    ensures
        replaced_to(before + prose(row) + after, count) == before + (if count <= row {
            prose(row)
        } else {
            word(row)
        }) + after,
    decreases count,
{
    if count > 0 {
        let step = count - 1;
        lemma_rows(before, row, after, step);
        lemma_prose_shape(step);
        if step == row {
            lemma_replace_between(before, prose(row), after, word(row));
        } else {
            lemma_absent(step, row);
            let core = if step <= row {
                prose(row)
            } else {
                word(row)
            };
            lemma_absent_between(before, core, after, prose(step));
            lemma_replace_absent(before + core + after, prose(step), word(step));
        }
    }
}

proof fn lemma_replace_apart(
    left: Seq<char>,
    c: char,
    right: Seq<char>,
    pattern: Seq<char>,
    by: Seq<char>,
)
    requires
        pattern.len() > 0,
        lacks(pattern, c),
    ensures
        replace(left + seq![c] + right, pattern, by) == replace(left, pattern, by) + seq![c]
            + replace(right, pattern, by),
    decreases left.len(),
{
    let whole = left + seq![c] + right;
    let k = left.len() as int;
    let size = pattern.len() as int;
    lemma_find(left, pattern);
    lemma_find(right, pattern);
    lemma_find(whole, pattern);
    assert(whole[k] == c);
    assert forall|j: int| #[trigger] occurs_at(whole, pattern, j) implies occurs_at(left, pattern, j)
        || occurs_at(right, pattern, j - k - 1) by {
        let found = whole.subrange(j, j + size);
        if j + size <= k {
            assert(left.subrange(j, j + size) =~= found);
        } else if j > k {
            assert(right.subrange(j - k - 1, j - k - 1 + size) =~= found);
        } else {
            assert(whole[k] == found[k - j]);
        }
    }
    match find(left, pattern) {
        Some(at) => {
            assert(whole.subrange(at, at + size) =~= left.subrange(at, at + size));
            assert(occurs_at(whole, pattern, at));
            let first = find(whole, pattern)->0;
            assert(first == at) by {
                if first < at {
                    assert(occurs_at(whole, pattern, first));
                    assert(first - k - 1 < 0);
                }
            }
            let rest = left.skip(at + size);
            lemma_replace_apart(rest, c, right, pattern, by);
            assert(whole.skip(at + size) =~= rest + seq![c] + right);
            assert(whole.take(at) =~= left.take(at));
            assert(replace(whole, pattern, by) =~= replace(left, pattern, by) + seq![c] + replace(
                right,
                pattern,
                by,
            ));
        },
        None => {
            match find(right, pattern) {
                Some(at) => {
                    let there = k + 1 + at;
                    assert(whole.subrange(there, there + size) =~= right.subrange(at, at + size));
                    assert(occurs_at(whole, pattern, there));
                    let first = find(whole, pattern)->0;
                    assert(first == there) by {
                        if first < there {
                            assert(occurs_at(whole, pattern, first));
                            assert(!occurs_at(left, pattern, first));
                            assert(occurs_at(right, pattern, first - k - 1));
                        }
                    }
                    assert(whole.skip(there + size) =~= right.skip(at + size));
                    assert(whole.take(there) =~= left + seq![c] + right.take(at));
                    assert(replace(whole, pattern, by) =~= left + seq![c] + replace(
                        right,
                        pattern,
                        by,
                    ));
                },
                None => {
                    assert(is_absent(whole, pattern)) by {
                        assert forall|j: int| !#[trigger] occurs_at(whole, pattern, j) by {
                            if occurs_at(whole, pattern, j) {
                                if occurs_at(left, pattern, j) {
                                    assert(0 <= j);
                                } else {
                                    assert(occurs_at(right, pattern, j - k - 1));
                                }
                            }
                        }
                    }
                    lemma_replace_absent(whole, pattern, by);
                },
            }
        },
    }
}

proof fn lemma_rows_apart(left: Seq<char>, c: char, right: Seq<char>, count: int)
    requires
        is_apart(c),
        0 <= count <= 17,
    ensures
        replaced_to(left + seq![c] + right, count) == replaced_to(left, count) + seq![c]
            + replaced_to(right, count),
    decreases count,
{
    if count > 0 {
        lemma_rows_apart(left, c, right, count - 1);
        lemma_prose_shape(count - 1);
        let pattern = prose(count - 1);
        assert forall|i: int| 0 <= i < pattern.len() implies #[trigger] pattern[i] != c by {
            assert(!is_apart(pattern[i]));
        }
        lemma_replace_apart(
            replaced_to(left, count - 1),
            c,
            replaced_to(right, count - 1),
            pattern,
            word(count - 1),
        );
    }
}

proof fn lemma_rows_absent(text: Seq<char>, count: int)
    requires
        holds_no_prose(text),
        0 <= count <= 17,
    ensures
        replaced_to(text, count) == text,
    decreases count,
{
    if count > 0 {
        lemma_rows_absent(text, count - 1);
        assert(is_absent(text, prose(count - 1)));
        lemma_replace_absent(text, prose(count - 1), word(count - 1));
    }
}

proof fn lemma_unflavored(fields: Seq<Seq<char>>)
    requires
        forall|i: int| 0 <= i < fields.len() ==> !is_flavor(#[trigger] fields[i]),
    ensures
        without_flavor(fields) == fields,
    decreases fields.len(),
{
    if fields.len() > 0 {
        let front = fields.drop_last();
        assert forall|i: int| 0 <= i < front.len() implies !is_flavor(#[trigger] front[i]) by {
            assert(front[i] == fields[i]);
        }
        lemma_unflavored(front);
        assert(!is_flavor(fields[fields.len() - 1]));
        assert(front.push(fields.last()) =~= fields);
    } else {
        assert(without_flavor(fields) =~= fields);
    }
}

/// Whether no field of the line holds flavor words.
pub open spec fn is_plain_line(line: Seq<char>) -> bool {
    forall|i: int| 0 <= i < split(line, ':').len() ==> !is_flavor(#[trigger] split(line, ':')[i])
}

proof fn lemma_flavorless_stays(line: Seq<char>)
    requires
        is_plain_line(line),
    ensures
        flavorless(line) == line,
{
    reveal_strlit(":");
    lemma_unflavored(split(line, ':'));
    lemma_join_split(line, ':');
    assert(":"@ =~= seq![':']);
}

/// A line that neither begins with `K:` nor comes to, has no reminders.
proof fn lemma_no_reminders(text: Seq<char>)
    requires
        !starts_with(text, "K:"@),
    ensures
        without_reminders(text) == text,
        !starts_with(text, "K:Spend only colored mana on X."@),
{
    reveal_strlit("K:");
    reveal_strlit("K:etbCounter:");
    reveal_strlit("K:Flashback:");
    reveal_strlit("K:Specialize:");
    reveal_strlit("K:Equip:");
    reveal_strlit("K:Spend only colored mana on X.");
    assert forall|long: Seq<char>|
        long.len() >= 2 && long[0] == 'K' && long[1] == ':' implies !#[trigger] starts_with(
        text,
        long,
    ) by {
        if starts_with(text, long) {
            let count = long.len() as int;
            assert(text.subrange(0, count)[0] == text[0]);
            assert(text.subrange(0, count)[1] == text[1]);
            assert(text.subrange(0, 2) =~= "K:"@);
        }
    }
}

/// The word of a row begins with none of the keywords that have reminders.
proof fn lemma_no_reminders_word(row: int, rest: Seq<char>)
    requires
        0 <= row < 17,
    ensures
        without_reminders("K:"@ + word(row) + rest) == "K:"@ + word(row) + rest,
        !starts_with("K:"@ + word(row) + rest, "K:Spend only colored mana on X."@),
{
    let text = "K:"@ + word(row) + rest;
    reveal_strlit("K:");
    reveal_strlit("K:etbCounter:");
    reveal_strlit("K:Flashback:");
    reveal_strlit("K:Specialize:");
    reveal_strlit("K:Equip:");
    reveal_strlit("K:Spend only colored mana on X.");
    reveal_strlit("FirstStrike");
    reveal_strlit("DoubleStrike");
    reveal_strlit("LevelUp");
    reveal_strlit("BattleCry");
    reveal_strlit("StartYourEngines");
    reveal_strlit("WebSlinging");
    reveal_strlit("SharedGraveyardCasting");
    reveal_strlit("Protection:Red");
    reveal_strlit("Protection:Blue");
    reveal_strlit("Protection:Black");
    reveal_strlit("Protection:White");
    reveal_strlit("Protection:Green");
    reveal_strlit("Protection:Everything");
    reveal_strlit("Protection:EachColor");
    reveal_strlit("DrawFromBottom");
    let name = word(row);
    assert(name.len() >= 3);
    assert(text[2] == name[0]);
    assert(text[3] == name[1]);
    assert(text[4] == name[2]);
    assert(name[0] != 'e' && name[0] != 'E');
    assert(name[0] == 'F' ==> name[1] == 'i');
    assert(name[0] == 'S' ==> name[1] != 'p');
    if starts_with(text, "K:etbCounter:"@) {
        assert(text.subrange(0, 13)[2] == text[2]);
    }
    if starts_with(text, "K:Flashback:"@) {
        assert(text.subrange(0, 12)[2] == text[2]);
        assert(text.subrange(0, 12)[3] == text[3]);
    }
    if starts_with(text, "K:Specialize:"@) {
        assert(text.subrange(0, 13)[2] == text[2]);
        assert(text.subrange(0, 13)[3] == text[3]);
    }
    if starts_with(text, "K:Equip:"@) {
        assert(text.subrange(0, 8)[2] == text[2]);
    }
    if starts_with(text, "K:Spend only colored mana on X."@) {
        assert(text.subrange(0, 31)[2] == text[2]);
        assert(text.subrange(0, 31)[3] == text[3]);
    }
}

/// A keyword in prose becomes its word and no other, whatever fields follow on
/// the line.
pub proof fn law_keywords_become_their_words(row: int, rest: Seq<char>)
    requires
        0 <= row < 17,
        rest.len() == 0 || rest[0] == ':',
        holds_no_prose(rest),
        is_plain_line("K:"@ + prose(row) + rest),
    ensures
        keyword_vocabulary("K:"@ + prose(row) + rest) == "K:"@ + word(row) + rest,
{
    let line = "K:"@ + prose(row) + rest;
    let none = Seq::<char>::empty();
    lemma_flavorless_stays(line);
    lemma_plain_is(line);
    reveal_strlit("K:");
    let first = seq!['K'];
    let named = prose(row) + rest;
    assert(line =~= first + seq![':'] + named);
    lemma_rows_apart(first, ':', named, 17);
    assert(holds_no_prose(first)) by {
        assert forall|other: int, at: int| 0 <= other < 17 implies !#[trigger] occurs_at(
            first,
            prose(other),
            at,
        ) by {
            lemma_prose_shape(other);
        }
    }
    lemma_rows_absent(first, 17);
    lemma_rows(none, row, none, 17);
    assert(none + prose(row) + none =~= prose(row));
    assert(none + word(row) + none =~= word(row));
    if rest.len() > 0 {
        let tail = rest.drop_first();
        assert(rest =~= seq![':'] + tail);
        assert(named =~= prose(row) + seq![':'] + tail);
        assert forall|other: int, at: int| 0 <= other < 17 implies !#[trigger] occurs_at(
            tail,
            prose(other),
            at,
        ) by {
            if occurs_at(tail, prose(other), at) {
                let size = prose(other).len() as int;
                assert(rest.subrange(at + 1, at + 1 + size) =~= tail.subrange(at, at + size));
                assert(occurs_at(rest, prose(other), at + 1));
            }
        }
        lemma_rows_apart(prose(row), ':', tail, 17);
        lemma_rows_absent(tail, 17);
        assert(word(row) + seq![':'] + tail =~= word(row) + rest);
    } else {
        assert(named =~= prose(row));
        assert(word(row) + rest =~= word(row));
    }
    assert(plain_vocabulary(line) =~= "K:"@ + word(row) + rest);
    lemma_no_reminders_word(row, rest);
}

/// In any other line a keyword in prose becomes its word where it stands apart
/// from other letters.
pub proof fn law_keywords_become_words_everywhere(
    line: Seq<char>,
    joint: char,
    before: Seq<char>,
    row: int,
    after: Seq<char>,
)
    requires
        line.len() > 0,
        line[0] != 'K',
        holds_no_prose(line),
        is_apart(joint),
        no_letters(before),
        0 <= row < 17,
        no_letters(after),
        !begins_with_mark(after),
    ensures
        keyword_vocabulary(line + seq![joint] + (before + prose(row) + after)) == line
            + seq![joint] + (before + word(row) + after),
{
    let text = line + seq![joint] + (before + prose(row) + after);
    let out = line + seq![joint] + (before + word(row) + after);
    reveal_strlit("K:");
    assert(text[0] == line[0]);
    assert(!starts_with(text, "K:"@)) by {
        if starts_with(text, "K:"@) {
            assert(text.subrange(0, 2)[0] == text[0]);
        }
    }
    assert(flavorless(text) == text);
    lemma_plain_is(text);
    lemma_rows_apart(line, joint, before + prose(row) + after, 17);
    lemma_rows_absent(line, 17);
    lemma_rows(before, row, after, 17);
    assert(plain_vocabulary(text) == out);
    assert(out[0] == line[0]);
    assert(!starts_with(out, "K:"@)) by {
        if starts_with(out, "K:"@) {
            assert(out.subrange(0, 2)[0] == out[0]);
        }
    }
    lemma_no_reminders(out);
}

/// Different keywords in prose become different words, but for the spellings
/// of one keyword.
pub proof fn law_words_are_distinct(left: int, right: int)
    requires
        0 <= left < right < 17,
    ensures
        word(left) == word(right) <==> (left == 3 && right == 4) || (left == 5 && right == 6),
{
    reveal_strlit("FirstStrike");
    reveal_strlit("DoubleStrike");
    reveal_strlit("LevelUp");
    reveal_strlit("BattleCry");
    reveal_strlit("StartYourEngines");
    reveal_strlit("WebSlinging");
    reveal_strlit("SharedGraveyardCasting");
    reveal_strlit("Protection:Red");
    reveal_strlit("Protection:Blue");
    reveal_strlit("Protection:Black");
    reveal_strlit("Protection:White");
    reveal_strlit("Protection:Green");
    reveal_strlit("Protection:Everything");
    reveal_strlit("Protection:EachColor");
    reveal_strlit("DrawFromBottom");
    let a = word(left);
    let b = word(right);
    if a == b {
        assert(a.len() == b.len());
        assert(a[0] == b[0]);
        assert(a[a.len() - 1] == b[b.len() - 1]);
        assert(a[a.len() - 2] == b[b.len() - 2]);
    }
}

/// A line without keywords in prose and without flavor words stays as it reads,
/// but for the fields that only remind people of the rules: they go from the
/// lines of the keywords that have them, and everything before them stays.
pub proof fn law_reminders_go(fields: Seq<Seq<char>>)
    requires
        fields.len() >= 2,
        fields[0] == "K"@,
        forall|i: int|
            0 <= i < fields.len() ==> lacks(#[trigger] fields[i], ':') && !is_flavor(fields[i]),
        holds_no_prose(join(fields, ":"@)),
    ensures
        fields[1] == "etbCounter"@ && fields.len() > 5 ==> keyword_vocabulary(join(fields, ":"@))
            == join(fields.take(5), ":"@),
        fields[1] == "Flashback"@ && fields.len() > 3 && !lacks(fields[3], '$')
            ==> keyword_vocabulary(join(fields, ":"@)) == join(fields.take(4), ":"@),
        fields[1] == "Flashback"@ && 2 < fields.len() <= 3 ==> keyword_vocabulary(
            join(fields, ":"@),
        ) == join(fields, ":"@),
        fields[1] == "Flashback"@ && fields.len() > 3 && lacks(fields[3], '$')
            ==> keyword_vocabulary(join(fields, ":"@)) == join(fields, ":"@),
        fields[1] == "Specialize"@ && fields.len() > 5 ==> keyword_vocabulary(join(fields, ":"@))
            == join(fields.take(3), ":"@) + ":::"@ + join(fields.skip(5), ":"@),
        fields[1] == "Specialize"@ && 2 < fields.len() <= 5 ==> keyword_vocabulary(
            join(fields, ":"@),
        ) == join(fields, ":"@),
        fields[1] == "Equip"@ && fields.len() > 6 ==> keyword_vocabulary(join(fields, ":"@))
            == join(fields.take(6), ":"@),
        fields[1] == "Equip"@ && 2 < fields.len() <= 6 ==> keyword_vocabulary(join(fields, ":"@))
            == join(fields, ":"@),
        starts_with(fields[1], "Spend only colored mana on X."@) ==> keyword_vocabulary(
            join(fields, ":"@),
        ) == "K:DistinctColoredManaForX"@,
        fields[1] != "etbCounter"@ && fields[1] != "Flashback"@ && fields[1] != "Specialize"@
            && fields[1] != "Equip"@ && !starts_with(fields[1], "Spend only colored mana on X."@)
            ==> keyword_vocabulary(join(fields, ":"@)) == join(fields, ":"@),
{
    let line = join(fields, ":"@);
    reveal_strlit("K");
    reveal_strlit(":");
    assert(":"@ =~= seq![':']);
    lemma_split_join(fields, ':');
    assert(split(line, ':') == fields);
    lemma_flavorless_stays(line);
    lemma_plain_is(line);
    lemma_rows_absent(line, 17);
    let name = fields[1];
    let later = fields.drop_first();
    let last = later.drop_first();
    assert(later[0] == name);
    assert(line =~= "K"@ + (":"@ + name + join_tail(last, ":"@)));
    let rest = join_tail(last, ":"@);
    assert(rest.len() > 0 ==> rest[0] == ':') by {
        if last.len() > 0 {
            assert(rest == ":"@ + last[0] + join_tail(last.drop_first(), ":"@));
        }
    }
    assert((rest.len() > 0) == (fields.len() > 2)) by {
        if last.len() > 0 {
            assert(rest == ":"@ + last[0] + join_tail(last.drop_first(), ":"@));
        }
    }
    assert(lacks(fields[1], ':'));
    lemma_keyword_literals();
    lemma_keyword_name(name, rest, "etbCounter"@);
    lemma_keyword_name(name, rest, "Flashback"@);
    lemma_keyword_name(name, rest, "Specialize"@);
    lemma_keyword_name(name, rest, "Equip"@);
    reveal_strlit("K:");
    assert(line =~= "K:"@ + name + rest);
    if starts_with(name, "Spend only colored mana on X."@) {
        lemma_spend(name, rest);
    } else {
        lemma_not_spend(name, rest);
    }
    if fields.len() > 3 {
        lemma_find_char(fields[3], '$');
    }
}

proof fn lemma_counter_line(line: Seq<char>)
    requires
        starts_with(line, "K:etbCounter:"@),
        split(line, ':').len() <= 5,
        is_plain_line(line),
        holds_no_prose(line),
    ensures
        keyword_vocabulary(line) == match cut_at_marker(line, ":no Condition:"@) {
            Some(cut) => cut,
            None => match cut_at_marker(line, ":no condition:"@) {
                Some(cut) => cut,
                None => line,
            },
        },
{
    lemma_flavorless_stays(line);
    lemma_plain_is(line);
    lemma_rows_absent(line, 17);
    reveal_strlit("K:etbCounter:");
    reveal_strlit("K:Flashback:");
    reveal_strlit("K:Specialize:");
    reveal_strlit("K:Equip:");
    reveal_strlit("K:Spend only colored mana on X.");
    assert(line.subrange(0, 13)[2] == line[2]);
    if starts_with(line, "K:Flashback:"@) {
        assert(line.subrange(0, 12)[2] == line[2]);
    }
    if starts_with(line, "K:Specialize:"@) {
        assert(line.subrange(0, 13)[2] == line[2]);
    }
    if starts_with(line, "K:Equip:"@) {
        assert(line.subrange(0, 8)[2] == line[2]);
    }
    if starts_with(line, "K:Spend only colored mana on X."@) {
        assert(line.subrange(0, 31)[2] == line[2]);
    }
}

/// Whether a counter's line has few fields and nothing to replace.
pub open spec fn is_counter_line(line: Seq<char>) -> bool {
    &&& starts_with(line, "K:etbCounter:"@)
    &&& split(line, ':').len() <= 5
    &&& is_plain_line(line)
    &&& holds_no_prose(line)
}

/// What stands behind the words that there is no condition goes from a counter's
/// line, also where the line has few fields.
pub proof fn law_counters_keep_their_condition(before: Seq<char>, after: Seq<char>)
    requires
        is_counter_line(before + ":no Condition:"@ + after),
        forall|at: int|
            0 <= at < before.len() ==> !#[trigger] occurs_at(
                before + ":no Condition:"@ + after,
                ":no Condition:"@,
                at,
            ),
    ensures
        keyword_vocabulary(before + ":no Condition:"@ + after) == before + ":no Condition"@,
{
    reveal_strlit(":no Condition:");
    reveal_strlit(":no Condition");
    let count = before.len() as int;
    let line = before + ":no Condition:"@ + after;
    lemma_counter_line(line);
    lemma_find(line, ":no Condition:"@);
    lemma_find(line, ":no condition:"@);
    assert(line.subrange(count, count + 14) =~= ":no Condition:"@);
    assert(occurs_at(line, ":no Condition:"@, count));
    let found = find(line, ":no Condition:"@)->0;
    assert(found == count);
    assert(line.take(count + 13) =~= before + ":no Condition"@);
}

/// The words may also begin with a small letter.
pub proof fn law_counters_keep_their_small_condition(before: Seq<char>, after: Seq<char>)
    requires
        is_counter_line(before + ":no condition:"@ + after),
        forall|at: int|
            !#[trigger] occurs_at(before + ":no condition:"@ + after, ":no Condition:"@, at),
        forall|at: int|
            0 <= at < before.len() ==> !#[trigger] occurs_at(
                before + ":no condition:"@ + after,
                ":no condition:"@,
                at,
            ),
    ensures
        keyword_vocabulary(before + ":no condition:"@ + after) == before + ":no condition"@,
{
    reveal_strlit(":no condition:");
    reveal_strlit(":no condition");
    let count = before.len() as int;
    let line = before + ":no condition:"@ + after;
    lemma_counter_line(line);
    lemma_find(line, ":no Condition:"@);
    lemma_find(line, ":no condition:"@);
    assert(line.subrange(count, count + 14) =~= ":no condition:"@);
    assert(occurs_at(line, ":no condition:"@, count));
    let found = find(line, ":no condition:"@)->0;
    assert(found == count);
    assert(line.take(count + 13) =~= before + ":no condition"@);
}

/// Without these words a counter's line with few fields stays as it reads.
pub proof fn law_short_counters_stay(line: Seq<char>)
    requires
        is_counter_line(line),
        forall|at: int| !#[trigger] occurs_at(line, ":no Condition:"@, at),
        forall|at: int| !#[trigger] occurs_at(line, ":no condition:"@, at),
    ensures
        keyword_vocabulary(line) == line,
{
    lemma_counter_line(line);
    lemma_find(line, ":no Condition:"@);
    lemma_find(line, ":no condition:"@);
}

proof fn lemma_keyword_literals()
    ensures
        "K:etbCounter:"@ == "K:"@ + "etbCounter"@ + ":"@,
        "K:Flashback:"@ == "K:"@ + "Flashback"@ + ":"@,
        "K:Specialize:"@ == "K:"@ + "Specialize"@ + ":"@,
        "K:Equip:"@ == "K:"@ + "Equip"@ + ":"@,
        "K:Spend only colored mana on X."@ == "K:"@ + "Spend only colored mana on X."@,
        lacks("etbCounter"@, ':'),
        lacks("Flashback"@, ':'),
        lacks("Specialize"@, ':'),
        lacks("Equip"@, ':'),
        lacks("Spend only colored mana on X."@, ':'),
        "etbCounter"@ != "Flashback"@,
        "etbCounter"@ != "Specialize"@,
        "etbCounter"@ != "Equip"@,
        "Flashback"@ != "Specialize"@,
        "Flashback"@ != "Equip"@,
        "Specialize"@ != "Equip"@,
        !starts_with("etbCounter"@, "Spend only colored mana on X."@),
        !starts_with("Flashback"@, "Spend only colored mana on X."@),
        !starts_with("Specialize"@, "Spend only colored mana on X."@),
        !starts_with("Equip"@, "Spend only colored mana on X."@),
{
    reveal_strlit("K:");
    reveal_strlit(":");
    reveal_strlit("etbCounter");
    reveal_strlit("Flashback");
    reveal_strlit("Specialize");
    reveal_strlit("Equip");
    reveal_strlit("Spend only colored mana on X.");
    reveal_strlit("K:etbCounter:");
    reveal_strlit("K:Flashback:");
    reveal_strlit("K:Specialize:");
    reveal_strlit("K:Equip:");
    reveal_strlit("K:Spend only colored mana on X.");
    assert("K:etbCounter:"@ =~= "K:"@ + "etbCounter"@ + ":"@);
    assert("K:Flashback:"@ =~= "K:"@ + "Flashback"@ + ":"@);
    assert("K:Specialize:"@ =~= "K:"@ + "Specialize"@ + ":"@);
    assert("K:Equip:"@ =~= "K:"@ + "Equip"@ + ":"@);
    assert("K:Spend only colored mana on X."@ =~= "K:"@ + "Spend only colored mana on X."@);
    assert("etbCounter"@[0] != "Specialize"@[0]);
}

/// A line begins with a keyword and a colon where its first field is the
/// keyword and another one follows.
proof fn lemma_keyword_name(name: Seq<char>, rest: Seq<char>, keyword: Seq<char>)
    requires
        lacks(name, ':'),
        lacks(keyword, ':'),
        rest.len() == 0 || rest[0] == ':',
    ensures
        starts_with("K:"@ + name + rest, "K:"@ + keyword + ":"@) <==> name == keyword && rest.len()
            > 0,
{
    reveal_strlit("K:");
    reveal_strlit(":");
    let line = "K:"@ + name + rest;
    let start = "K:"@ + keyword + ":"@;
    let size = keyword.len() as int;
    if name == keyword && rest.len() > 0 {
        assert(line.subrange(0, start.len() as int) =~= start);
    }
    if starts_with(line, start) {
        let front = line.subrange(0, start.len() as int);
        assert(line[size + 2] == front[size + 2]);
        if name.len() < size {
            let at = name.len() as int + 2;
            assert(line[at] == front[at]);
            assert(front[at] == keyword[at - 2]);
            assert(line[at] == rest[0]);
        } else if name.len() > size {
            assert(line[size + 2] == name[size]);
        } else {
            assert forall|i: int| 0 <= i < size implies name[i] == keyword[i] by {
                assert(line[i + 2] == front[i + 2]);
            }
            assert(name =~= keyword);
        }
    }
}

proof fn lemma_spend(name: Seq<char>, rest: Seq<char>)
    requires
        starts_with(name, "Spend only colored mana on X."@),
    ensures
        starts_with("K:"@ + name + rest, "K:Spend only colored mana on X."@),
{
    lemma_keyword_literals();
    reveal_strlit("K:");
    let word = "Spend only colored mana on X."@;
    let size = word.len() as int;
    let line = "K:"@ + name + rest;
    assert(line.subrange(0, size + 2) =~= "K:"@ + name.subrange(0, size));
}

proof fn lemma_not_spend(name: Seq<char>, rest: Seq<char>)
    requires
        !starts_with(name, "Spend only colored mana on X."@),
        rest.len() == 0 || rest[0] == ':',
    ensures
        !starts_with("K:"@ + name + rest, "K:Spend only colored mana on X."@),
{
    lemma_keyword_literals();
    reveal_strlit("K:");
    let word = "Spend only colored mana on X."@;
    let size = word.len() as int;
    let line = "K:"@ + name + rest;
    if starts_with(line, "K:"@ + word) {
        let front = line.subrange(0, size + 2);
        if name.len() < size {
            let at = name.len() as int + 2;
            assert(line[at] == front[at]);
            assert(front[at] == word[at - 2]);
            assert(line[at] == rest[0]);
        } else {
            assert(name.subrange(0, size) =~= word) by {
                assert forall|i: int| 0 <= i < size implies name[i] == word[i] by {
                    assert(line[i + 2] == front[i + 2]);
                }
            }
        }
    }
}

} // verus!
