//! Cards as the public card data describes them, and the color identity that
//! follows from a description.

use std::collections::BTreeSet;

use vstd::prelude::*;
use vstd::utf8::encode_utf8;

use crate::letters::unicode_alphabetic;
use crate::order::{byte_count, lemma_byte_count};
use crate::script::optional_view;
use crate::text::{
    append_str, chars_of, front, halves, owned_views, pieces, reads, rest, split, split_once,
    string_of, views,
};
use crate::uuids::Uuid;
use crate::words::{words, words_of, Gap};

verus! {

broadcast use vstd::std_specs::btree::group_btree_axioms;

/// One face of a card.
#[derive(Debug, Default)]
pub struct ScryfallFace {
    pub name: String,
    pub printed_name: Option<String>,
    pub oracle_text: Option<String>,
    pub mana_cost: String,
    pub type_line: String,
    pub colors: Vec<String>,
    pub color_indicator: Option<Vec<String>>,
}

/// One printing of a card.
#[derive(Debug, Default)]
pub struct ScryfallCard {
    pub oracle_id: Option<Uuid>,
    pub name: String,
    pub printed_name: Option<String>,
    pub oracle_text: Option<String>,
    pub mana_cost: String,
    pub type_line: String,
    pub lang: String,
    pub layout: String,
    pub color_identity: Vec<String>,
    pub colors: Vec<String>,
    pub color_indicator: Option<Vec<String>>,
    pub card_faces: Vec<ScryfallFace>,
    pub set_id: Uuid,
    pub set: String,
    pub released_at: String,
}

/// `text` outside parentheses, when `depth` of them are open.
pub open spec fn outside_parentheses(text: Seq<char>, depth: nat) -> Seq<char>
    decreases text.len(),
{
    if text.len() == 0 {
        Seq::empty()
    } else if text[0] == '(' {
        outside_parentheses(text.drop_first(), depth + 1)
    } else if text[0] == ')' && depth > 0 {
        outside_parentheses(text.drop_first(), (depth - 1) as nat)
    } else if depth == 0 {
        seq![text[0]] + outside_parentheses(text.drop_first(), depth)
    } else {
        outside_parentheses(text.drop_first(), depth)
    }
}

/// Whether the symbol that `tail` begins with, up to `}`, has the color among
/// its parts.
pub open spec fn symbol_has(tail: Seq<char>, color: char) -> bool {
    match split_once(tail, '}') {
        Some((symbol, _)) => split(symbol, '/').contains(seq![color]),
        None => false,
    }
}

/// Whether `text` holds a mana symbol of the color.
pub open spec fn has_symbol(text: Seq<char>, color: char) -> bool {
    exists|i: int| 1 <= i < split(text, '{').len() && symbol_has(#[trigger] split(text, '{')[i], color)
}

/// The five colors' letters.
pub open spec fn is_color_letter(byte: u8) -> bool {
    byte == 87 || byte == 85 || byte == 66 || byte == 82 || byte == 71
}

/// The letters of the colors whose symbols stand in `text`.
pub open spec fn symbol_letters(text: Seq<char>) -> Set<u8> {
    Set::new(|byte: u8| is_color_letter(byte) && has_symbol(text, byte as char))
}

/// The first bytes of the texts.
pub open spec fn first_bytes(colors: Seq<String>) -> Set<u8> {
    Set::new(
        |byte: u8|
            exists|i: int|
                0 <= i < colors.len() && (#[trigger] colors[i])@.len() > 0 && encode_utf8(
                    colors[i]@,
                )[0] == byte,
    )
}

/// The color letters that a card or a face has an explicit source for: its
/// mana cost, its rules text outside reminders, its colors or its color
/// indicator.
pub open spec fn explicit_letters(
    mana_cost: Seq<char>,
    oracle_text: Option<Seq<char>>,
    colors: Seq<String>,
    color_indicator: Option<Seq<String>>,
) -> Set<u8> {
    symbol_letters(mana_cost).union(
        match oracle_text {
            Some(text) => symbol_letters(outside_parentheses(text, 0)),
            None => Set::empty(),
        },
    ).union(first_bytes(colors)).union(
        match color_indicator {
            Some(indicator) => first_bytes(indicator),
            None => Set::empty(),
        },
    )
}

/// The optional list.
pub open spec fn list_of(list: Option<Vec<String>>) -> Option<Seq<String>> {
    match list {
        Some(list) => Some(list@),
        None => None,
    }
}

/// The explicit letters of a face.
pub open spec fn face_letters(face: ScryfallFace) -> Set<u8> {
    explicit_letters(
        face.mana_cost@,
        optional_view(face.oracle_text),
        face.colors@,
        list_of(face.color_indicator),
    )
}

/// The explicit letters of a card and of its faces.
pub open spec fn card_letters(card: ScryfallCard) -> Set<u8> {
    Set::new(
        |byte: u8|
            {
                ||| explicit_letters(
                    card.mana_cost@,
                    optional_view(card.oracle_text),
                    card.colors@,
                    list_of(card.color_indicator),
                ).contains(byte)
                ||| exists|i: int|
                    0 <= i < card.card_faces@.len() && face_letters(
                        #[trigger] card.card_faces@[i],
                    ).contains(byte)
            },
    )
}

/// `word` without the characters at its ends that are no letters.
pub open spec fn letters_start(word: Seq<char>) -> Seq<char>
    decreases word.len(),
{
    if word.len() > 0 && !unicode_alphabetic(word[0]) {
        letters_start(word.drop_first())
    } else {
        word
    }
}

pub open spec fn letters_end(word: Seq<char>) -> Seq<char>
    decreases word.len(),
{
    if word.len() > 0 && !unicode_alphabetic(word.last()) {
        letters_end(word.drop_last())
    } else {
        word
    }
}

/// Whether the type line has the word, whatever stands around its letters.
pub open spec fn type_line_has(type_line: Seq<char>, wanted: Seq<char>) -> bool {
    exists|i: int|
        0 <= i < words(type_line, Gap::WhiteSpace).len() && letters_end(
            letters_start(#[trigger] words(type_line, Gap::WhiteSpace)[i]),
        ) == wanted
}

/// Whether the type line of the card or of one of its faces has the word.
pub open spec fn card_has_type(card: ScryfallCard, wanted: Seq<char>) -> bool {
    ||| type_line_has(card.type_line@, wanted)
    ||| exists|i: int|
        0 <= i < card.card_faces@.len() && type_line_has(
            (#[trigger] card.card_faces@[i]).type_line@,
            wanted,
        )
}

/// The basic land type of a color.
pub open spec fn basic_land_type(color: Seq<char>) -> Option<Seq<char>> {
    if color == "W"@ {
        Some("Plains"@)
    } else if color == "U"@ {
        Some("Island"@)
    } else if color == "B"@ {
        Some("Swamp"@)
    } else if color == "R"@ {
        Some("Mountain"@)
    } else if color == "G"@ {
        Some("Forest"@)
    } else {
        None
    }
}

/// Whether the card has the basic land type of the color.
pub open spec fn has_land_type(card: ScryfallCard, color: Seq<char>) -> bool {
    match basic_land_type(color) {
        Some(land) => card_has_type(card, land),
        None => false,
    }
}

/// Whether the list holds the text.
pub open spec fn lists(list: Seq<String>, wanted: Seq<char>) -> bool {
    exists|i: int| 0 <= i < list.len() && (#[trigger] list[i])@ == wanted
}

/// Whether the color belongs to the card's color identity: it is in the
/// combined identity, and has an explicit source or no basic land type that
/// would account for it.
pub open spec fn in_identity(card: ScryfallCard, color: Seq<char>, letter: u8) -> bool {
    &&& lists(card.color_identity@, color)
    &&& card_letters(card).contains(letter) || !has_land_type(card, color)
}

/// The color's text if the color belongs to the identity.
pub open spec fn identity_part(card: ScryfallCard, color: Seq<char>, letter: u8) -> Seq<char> {
    if in_identity(card, color, letter) {
        color
    } else {
        Seq::empty()
    }
}

/// The color identity of a card, its colors in the order W, U, B, R, G.
pub open spec fn color_identity_of(card: ScryfallCard) -> Seq<char> {
    identity_part(card, "W"@, 87) + identity_part(card, "U"@, 85) + identity_part(card, "B"@, 66)
        + identity_part(card, "R"@, 82) + identity_part(card, "G"@, 71)
}

/// Removes the text in parentheses.
pub fn strip_parenthetical_text(text: &str) -> (out: String)
    ensures
        out@ == outside_parentheses(text@, 0),
{
    let chars = chars_of(text);
    let mut out: Vec<char> = Vec::new();
    let mut depth: usize = 0;
    let mut i: usize = 0;
    assert(chars@.skip(0) == chars@);
    while i < chars.len()
        invariant
            i <= chars@.len(),
            depth <= i,
            chars@ == text@,
            out@ + outside_parentheses(chars@.skip(i as int), depth as nat) == outside_parentheses(
                text@,
                0,
            ),
        decreases chars@.len() - i,
    {
        let ghost tail = chars@.skip(i as int);
        let ghost before = out@;
        let ghost open = depth as nat;
        proof {
            assert(tail[0] == chars@[i as int]);
            assert(tail.drop_first() == chars@.skip(i + 1));
        }
        let c = chars[i];
        if c == '(' {
            depth += 1;
        } else if c == ')' && depth > 0 {
            depth -= 1;
        } else if depth == 0 {
            out.push(c);
            assert(before + (seq![c] + outside_parentheses(tail.drop_first(), open)) =~= out@
                + outside_parentheses(tail.drop_first(), open));
        }
        i += 1;
    }
    string_of(out.as_slice())
}

/// Whether the symbol that `tail` begins with has the color.
fn has_part(tail: &[char], color: char) -> (res: bool)
    ensures
        res == symbol_has(tail@, color),
{
    match halves(tail, '}') {
        Some((symbol, _)) => {
            let parts = pieces(symbol, '/');
            let ghost all = split(symbol@, '/');
            let mut i: usize = 0;
            while i < parts.len()
                invariant
                    i <= parts@.len(),
                    all == views(parts@),
                    symbol_has(tail@, color) == all.contains(seq![color]),
                    forall|j: int| 0 <= j < i ==> all[j] != seq![color],
                decreases parts@.len() - i,
            {
                assert(all[i as int] == parts@[i as int]@);
                if parts[i].len() == 1 && parts[i][0] == color {
                    assert(all[i as int] =~= seq![color]);
                    return true;
                }
                assert(all[i as int] != seq![color]);
                i += 1;
            }
            false
        },
        None => false,
    }
}

/// Whether the text holds a mana symbol of the color.
fn holds_symbol(text: &[char], color: char) -> (res: bool)
    ensures
        res == has_symbol(text@, color),
{
    let tails = pieces(text, '{');
    let ghost all = split(text@, '{');
    let mut i: usize = 1;
    while i < tails.len()
        invariant
            1 <= i,
            all == views(tails@),
            all == split(text@, '{'),
            forall|j: int| 1 <= j < i && j < all.len() ==> !symbol_has(#[trigger] all[j], color),
        decreases tails@.len() - i,
    {
        assert(all[i as int] == tails@[i as int]@);
        if has_part(tails[i], color) {
            return true;
        }
        i += 1;
    }
    false
}

/// Adds the letters of the colors whose mana symbols stand in the text.
pub fn collect_mana_symbol_colors(text: &str, colors: &mut BTreeSet<u8>)
    ensures
        final(colors)@ == old(colors)@.union(symbol_letters(text@)),
{
    let chars = chars_of(text);
    let text_chars = chars.as_slice();
    if holds_symbol(text_chars, 'W') {
        colors.insert(87);
    }
    if holds_symbol(text_chars, 'U') {
        colors.insert(85);
    }
    if holds_symbol(text_chars, 'B') {
        colors.insert(66);
    }
    if holds_symbol(text_chars, 'R') {
        colors.insert(82);
    }
    if holds_symbol(text_chars, 'G') {
        colors.insert(71);
    }
    assert(colors@ =~= old(colors)@.union(symbol_letters(text@)));
}

/// Adds the first byte of each text.
fn collect_first_bytes(list: &[String], bytes: &mut BTreeSet<u8>)
    ensures
        final(bytes)@ == old(bytes)@.union(first_bytes(list@)),
{
    let ghost start = bytes@;
    let mut i: usize = 0;
    assert(bytes@ =~= start.union(first_bytes(list@.take(0))));
    while i < list.len()
        invariant
            i <= list@.len(),
            bytes@ == start.union(first_bytes(list@.take(i as int))),
        decreases list@.len() - i,
    {
        let ghost before = bytes@;
        let ghost earlier = list@.take(i as int);
        let ghost later = list@.take(i + 1);
        let encoded = list[i].as_str().as_bytes();
        proof {
            lemma_byte_count(list@[i as int]@);
        }
        if encoded.len() > 0 {
            bytes.insert(encoded[0]);
        }
        proof {
            let text = list@[i as int]@;
            assert(encoded@ == encode_utf8(text));
            lemma_encoding_not_empty(text);
            assert forall|byte: u8| bytes@.contains(byte) == start.union(
                first_bytes(later),
            ).contains(byte) by {
                if first_bytes(earlier).contains(byte) {
                    let j = choose|j: int|
                        0 <= j < earlier.len() && (#[trigger] earlier[j])@.len() > 0 && encode_utf8(
                            earlier[j]@,
                        )[0] == byte;
                    assert(later[j] == earlier[j]);
                }
                if first_bytes(later).contains(byte) {
                    let j = choose|j: int|
                        0 <= j < later.len() && (#[trigger] later[j])@.len() > 0 && encode_utf8(
                            later[j]@,
                        )[0] == byte;
                    if j < i {
                        assert(earlier[j] == later[j]);
                    }
                }
                assert(later[i as int] == list@[i as int]);
            }
            assert(bytes@ =~= start.union(first_bytes(later)));
        }
        i += 1;
    }
    assert(list@.take(list@.len() as int) == list@);
}

proof fn lemma_encoding_not_empty(text: Seq<char>)
    ensures
        (encode_utf8(text).len() > 0) == (text.len() > 0),
{
    lemma_byte_count(text);
    if text.len() > 0 {
        assert(byte_count(text) > 0);
    }
}

/// The optional text.
pub open spec fn str_view(text: Option<&str>) -> Option<Seq<char>> {
    match text {
        Some(text) => Some(text@),
        None => None,
    }
}

/// The optional list.
pub open spec fn slice_view(list: Option<&[String]>) -> Option<Seq<String>> {
    match list {
        Some(list) => Some(list@),
        None => None,
    }
}

/// Adds the color letters that a card or a face has an explicit source for.
pub fn collect_explicit_identity_sources(
    mana_cost: &str,
    oracle_text: Option<&str>,
    colors: &[String],
    color_indicator: Option<&[String]>,
    explicit: &mut BTreeSet<u8>,
)
    ensures
        final(explicit)@ == old(explicit)@.union(
            explicit_letters(
                mana_cost@,
                str_view(oracle_text),
                colors@,
                slice_view(color_indicator),
            ),
        ),
{
    collect_mana_symbol_colors(mana_cost, explicit);
    if let Some(text) = oracle_text {
        let without_reminder = strip_parenthetical_text(text);
        collect_mana_symbol_colors(without_reminder.as_str(), explicit);
    }
    collect_first_bytes(colors, explicit);
    if let Some(indicator) = color_indicator {
        collect_first_bytes(indicator, explicit);
    }
    assert(explicit@ =~= old(explicit)@.union(
        explicit_letters(
            mana_cost@,
            str_view(oracle_text),
            colors@,
            slice_view(color_indicator),
        ),
    ));
}

/// Drops what is no letter at the ends of a word.
fn letters_of<'a>(word: &'a [char]) -> (out: &'a [char])
    ensures
        out@ == letters_end(letters_start(word@)),
{
    let mut from: usize = 0;
    assert(word@.skip(0) == word@);
    while from < word.len() && !word[from].is_alphabetic()
        invariant
            from <= word@.len(),
            letters_start(word@) == letters_start(word@.skip(from as int)),
        decreases word@.len() - from,
    {
        assert(word@.skip(from as int).drop_first() == word@.skip(from + 1));
        from += 1;
    }
    let body = rest(word, from);
    let mut count: usize = body.len();
    assert(body@.take(count as int) == body@);
    while count > 0 && !body[count - 1].is_alphabetic()
        invariant
            count <= body@.len(),
            letters_end(body@) == letters_end(body@.take(count as int)),
        decreases count,
    {
        assert(body@.take(count as int).drop_last() == body@.take(count - 1));
        count -= 1;
    }
    front(body, count)
}

/// Whether the type line has the word.
fn has_type_word(type_line: &str, wanted: &str) -> (res: bool)
    ensures
        res == type_line_has(type_line@, wanted@),
{
    let chars = chars_of(type_line);
    let list = words_of(chars.as_slice(), Gap::WhiteSpace);
    let ghost all = words(type_line@, Gap::WhiteSpace);
    let mut i: usize = 0;
    while i < list.len()
        invariant
            i <= list@.len(),
            all == owned_views(list@),
            all == words(type_line@, Gap::WhiteSpace),
            forall|j: int|
                0 <= j < i ==> letters_end(letters_start(#[trigger] all[j])) != wanted@,
        decreases list@.len() - i,
    {
        assert(all[i as int] == list@[i as int]@);
        if reads(letters_of(list[i].as_slice()), wanted) {
            return true;
        }
        i += 1;
    }
    false
}

/// Whether the card or one of its faces has the basic land type of the color.
pub fn has_basic_land_type(card: &ScryfallCard, color: &str) -> (res: bool)
    ensures
        res == has_land_type(*card, color@),
{
    let chars = chars_of(color);
    let letter = chars.as_slice();
    let land = if reads(letter, "W") {
        "Plains"
    } else if reads(letter, "U") {
        "Island"
    } else if reads(letter, "B") {
        "Swamp"
    } else if reads(letter, "R") {
        "Mountain"
    } else if reads(letter, "G") {
        "Forest"
    } else {
        return false;
    };
    if has_type_word(card.type_line.as_str(), land) {
        return true;
    }
    let mut i: usize = 0;
    while i < card.card_faces.len()
        invariant
            i <= card.card_faces@.len(),
            basic_land_type(color@) == Some(land@),
            !type_line_has(card.type_line@, land@),
            forall|j: int|
                0 <= j < i ==> !type_line_has(
                    (#[trigger] card.card_faces@[j]).type_line@,
                    land@,
                ),
        decreases card.card_faces@.len() - i,
    {
        if has_type_word(card.card_faces[i].type_line.as_str(), land) {
            return true;
        }
        i += 1;
    }
    false
}

/// Whether the list holds the text.
fn listed(list: &Vec<String>, wanted: &str) -> (res: bool)
    ensures
        res == lists(list@, wanted@),
{
    let mut i: usize = 0;
    while i < list.len()
        invariant
            i <= list@.len(),
            forall|j: int| 0 <= j < i ==> (#[trigger] list@[j])@ != wanted@,
        decreases list@.len() - i,
    {
        let chars = chars_of(list[i].as_str());
        if reads(chars.as_slice(), wanted) {
            return true;
        }
        i += 1;
    }
    false
}

/// The optional string as a slice.
pub(crate) fn as_text(text: &Option<String>) -> (out: Option<&str>)
    ensures
        str_view(out) == optional_view(*text),
{
    match text {
        Some(text) => Some(text.as_str()),
        None => None,
    }
}

/// The optional list as a slice.
fn as_list(list: &Option<Vec<String>>) -> (out: Option<&[String]>)
    ensures
        slice_view(out) == list_of(*list),
{
    match list {
        Some(list) => Some(list.as_slice()),
        None => None,
    }
}

/// Appends the color if it belongs to the identity.
fn append_color(
    out: &mut Vec<char>,
    card: &ScryfallCard,
    color: &str,
    letter: u8,
    explicit: &BTreeSet<u8>,
)
    requires
        explicit@ == card_letters(*card),
    ensures
        final(out)@ == old(out)@ + identity_part(*card, color@, letter),
{
    if listed(&card.color_identity, color) && (explicit.contains(&letter) || !has_basic_land_type(
        card,
        color,
    )) {
        append_str(out, color);
    } else {
        assert(out@ =~= old(out)@ + Seq::<char>::empty());
    }
}

/// The color identity of a card, without the colors that only a basic land
/// type accounts for.
pub fn commander_color_identity(card: &ScryfallCard) -> (out: String)
    ensures
        out@ == color_identity_of(*card),
{
    let mut explicit: BTreeSet<u8> = BTreeSet::new();
    collect_explicit_identity_sources(
        card.mana_cost.as_str(),
        as_text(&card.oracle_text),
        card.colors.as_slice(),
        as_list(&card.color_indicator),
        &mut explicit,
    );
    let ghost own = explicit@;
    let mut i: usize = 0;
    while i < card.card_faces.len()
        invariant
            i <= card.card_faces@.len(),
            own == explicit_letters(
                card.mana_cost@,
                optional_view(card.oracle_text),
                card.colors@,
                list_of(card.color_indicator),
            ),
            forall|byte: u8| #[trigger]
                explicit@.contains(byte) <==> own.contains(byte) || exists|j: int|
                    0 <= j < i && face_letters(#[trigger] card.card_faces@[j]).contains(byte),
        decreases card.card_faces@.len() - i,
    {
        let face = &card.card_faces[i];
        let ghost before = explicit@;
        collect_explicit_identity_sources(
            face.mana_cost.as_str(),
            as_text(&face.oracle_text),
            face.colors.as_slice(),
            as_list(&face.color_indicator),
            &mut explicit,
        );
        proof {
            let letters = face_letters(card.card_faces@[i as int]);
            assert(explicit@ == before.union(letters));
            assert forall|byte: u8| #[trigger] explicit@.contains(byte) <==> own.contains(byte)
                || exists|j: int|
                0 <= j < i + 1 && face_letters(#[trigger] card.card_faces@[j]).contains(byte) by {
                assert(explicit@.contains(byte) == (before.contains(byte) || letters.contains(
                    byte,
                )));
                if letters.contains(byte) {
                    assert(face_letters(card.card_faces@[i as int]).contains(byte));
                }
            }
        }
        i += 1;
    }
    assert(explicit@ =~= card_letters(*card));
    let mut out: Vec<char> = Vec::new();
    append_color(&mut out, card, "W", 87, &explicit);
    append_color(&mut out, card, "U", 85, &explicit);
    append_color(&mut out, card, "B", 66, &explicit);
    append_color(&mut out, card, "R", 82, &explicit);
    append_color(&mut out, card, "G", 71, &explicit);
    string_of(out.as_slice())
}

} // verus!
