//! What tells cards of one name apart: their rules text, and the costs and
//! types of their faces.

use vstd::prelude::*;

use crate::letters::{
    append_upper, ascii_lowercase, lowercase, to_ascii_lowercase, unicode_alphanumeric,
    unicode_lowercase, unicode_upper,
};
use crate::script::{field_values, top_level_values};
use crate::scryfall::{ScryfallCard, ScryfallFace};
use crate::text::{
    chars_of, reads, join, joined, lines, owned_views, replace, replaced_str, string_of, string_views,
};
use crate::words::{words, words_of, Gap};

verus! {

/// The cost and the types of one face, in a common spelling.
#[derive(Debug, Eq, Ord, PartialEq, PartialOrd)]
pub struct FaceSignature {
    pub mana_cost: String,
    pub type_line: String,
}

/// The costs and the types of all faces of a card.
#[derive(Debug, Eq, Ord, PartialEq, PartialOrd)]
pub struct CardSignature(pub Vec<FaceSignature>);

impl View for FaceSignature {
    type V = (Seq<char>, Seq<char>);

    open spec fn view(&self) -> (Seq<char>, Seq<char>) {
        (self.mana_cost@, self.type_line@)
    }
}

impl View for CardSignature {
    type V = Seq<(Seq<char>, Seq<char>)>;

    open spec fn view(&self) -> Seq<(Seq<char>, Seq<char>)> {
        Seq::new(self.0@.len(), |i: int| self.0@[i]@)
    }
}

/// Rules text with `\n` escapes read as line feeds and every run of white
/// space as one space.
pub open spec fn oracle_text_of(text: Seq<char>) -> Seq<char> {
    join(words(replace(text, "\\n"@, "\n"@), Gap::WhiteSpace), " "@)
}

/// The letters, digits and slashes of a cost, in uppercase.
pub open spec fn cost_symbols(value: Seq<char>) -> Seq<char>
    decreases value.len(),
{
    if value.len() == 0 {
        Seq::empty()
    } else {
        let earlier = cost_symbols(value.drop_last());
        if unicode_alphanumeric(value.last()) || value.last() == '/' {
            earlier + unicode_upper(value.last())
        } else {
            earlier
        }
    }
}

/// A mana cost in a common spelling; `no cost` is the empty cost.
pub open spec fn mana_cost_of(value: Seq<char>) -> Seq<char> {
    if ascii_lowercase(value) == "no cost"@ {
        Seq::empty()
    } else {
        cost_symbols(value)
    }
}

/// The texts in lowercase.
pub open spec fn lowercase_words(parts: Seq<Seq<char>>) -> Seq<Seq<char>> {
    Seq::new(parts.len(), |i: int| unicode_lowercase(parts[i]))
}

/// The lowercase words of a type line.
pub open spec fn type_line_of(value: Seq<char>) -> Seq<char> {
    join(lowercase_words(words(value, Gap::NotAlphanumeric)), " "@)
}

/// The signature of one face.
pub open spec fn face_signature(mana_cost: Seq<char>, type_line: Seq<char>) -> (
    Seq<char>,
    Seq<char>,
) {
    (mana_cost_of(mana_cost), type_line_of(type_line))
}

/// The signature of a card: that of its faces, or that of the card itself
/// where it has none.
pub open spec fn card_signature(card: ScryfallCard) -> Seq<(Seq<char>, Seq<char>)> {
    if card.card_faces@.len() == 0 {
        seq![face_signature(card.mana_cost@, card.type_line@)]
    } else {
        Seq::new(
            card.card_faces@.len(),
            |i: int| face_signature(card.card_faces@[i].mana_cost@, card.card_faces@[i].type_line@),
        )
    }
}

/// The signature of a script, where every cost has its types.
pub open spec fn script_signature(script: Seq<char>) -> Option<Seq<(Seq<char>, Seq<char>)>> {
    let costs = field_values(lines(script), "ManaCost"@);
    let types = field_values(lines(script), "Types"@);
    if costs.len() == 0 || costs.len() != types.len() {
        None
    } else {
        Some(Seq::new(costs.len(), |i: int| face_signature(costs[i], types[i])))
    }
}

/// The optional signature as costs and types.
pub open spec fn signature_view(signature: Option<CardSignature>) -> Option<
    Seq<(Seq<char>, Seq<char>)>,
> {
    match signature {
        Some(signature) => Some(signature@),
        None => None,
    }
}

/// Rules text in a common spelling.
pub fn normalize_oracle_text(text: &str) -> (out: String)
    ensures
        out@ == oracle_text_of(text@),
{
    let chars = chars_of(text);
    proof {
        reveal_strlit("\\n");
    }
    let unescaped = replaced_str(chars.as_slice(), "\\n", "\n");
    let parts = words_of(unescaped.as_slice(), Gap::WhiteSpace);
    let out = joined(&parts, " ");
    string_of(out.as_slice())
}

/// A mana cost in a common spelling.
pub fn normalize_mana_cost(value: &str) -> (out: String)
    ensures
        out@ == mana_cost_of(value@),
{
    let chars = chars_of(value);
    let lowered = to_ascii_lowercase(chars.as_slice());
    if reads(lowered.as_slice(), "no cost") {
        return String::new();
    }
    let mut out: Vec<char> = Vec::new();
    let mut i: usize = 0;
    while i < chars.len()
        invariant
            i <= chars@.len(),
            out@ == cost_symbols(chars@.take(i as int)),
        decreases chars@.len() - i,
    {
        assert(chars@.take(i + 1).drop_last() == chars@.take(i as int));
        if chars[i].is_alphanumeric() || chars[i] == '/' {
            append_upper(&mut out, chars[i]);
        }
        i += 1;
    }
    assert(chars@.take(chars@.len() as int) == chars@);
    string_of(out.as_slice())
}

/// A type line in a common spelling.
pub fn normalize_type_line(value: &str) -> (out: String)
    ensures
        out@ == type_line_of(value@),
{
    let chars = chars_of(value);
    let parts = words_of(chars.as_slice(), Gap::NotAlphanumeric);
    let ghost all = words(value@, Gap::NotAlphanumeric);
    let mut lowered: Vec<Vec<char>> = Vec::new();
    let mut i: usize = 0;
    while i < parts.len()
        invariant
            i <= parts@.len(),
            all == owned_views(parts@),
            owned_views(lowered@) == lowercase_words(all.take(i as int)),
        decreases parts@.len() - i,
    {
        let ghost before = owned_views(lowered@);
        let part = string_of(parts[i].as_slice());
        let word = chars_of(lowercase(part.as_str()).as_str());
        lowered.push(word);
        proof {
            assert(owned_views(lowered@) =~= before.push(word@));
            assert(lowercase_words(all.take(i + 1)) =~= before.push(word@));
        }
        i += 1;
    }
    assert(all.take(all.len() as int) == all);
    let out = joined(&lowered, " ");
    string_of(out.as_slice())
}

/// The signature of a face of a card.
pub fn scryfall_face_signature(face: &ScryfallFace) -> (out: FaceSignature)
    ensures
        out@ == face_signature(face.mana_cost@, face.type_line@),
{
    FaceSignature {
        mana_cost: normalize_mana_cost(face.mana_cost.as_str()),
        type_line: normalize_type_line(face.type_line.as_str()),
    }
}

/// The signature of a card.
pub fn scryfall_card_signature(card: &ScryfallCard) -> (out: CardSignature)
    ensures
        out@ == card_signature(*card),
{
    let mut faces: Vec<FaceSignature> = Vec::new();
    if card.card_faces.len() == 0 {
        faces.push(
            FaceSignature {
                mana_cost: normalize_mana_cost(card.mana_cost.as_str()),
                type_line: normalize_type_line(card.type_line.as_str()),
            },
        );
        let out = CardSignature(faces);
        assert(out@ =~= card_signature(*card));
        return out;
    }
    let mut i: usize = 0;
    while i < card.card_faces.len()
        invariant
            i <= card.card_faces@.len(),
            faces@.len() == i,
            forall|j: int|
                0 <= j < i ==> (#[trigger] faces@[j])@ == face_signature(
                    card.card_faces@[j].mana_cost@,
                    card.card_faces@[j].type_line@,
                ),
        decreases card.card_faces@.len() - i,
    {
        faces.push(scryfall_face_signature(&card.card_faces[i]));
        i += 1;
    }
    let out = CardSignature(faces);
    assert(out@ =~= card_signature(*card));
    out
}

/// The signature of a script: the cost and the types of each of its faces.
pub fn forge_script_signature(script: &str) -> (res: Option<CardSignature>)
    ensures
        signature_view(res) == script_signature(script@),
{
    let costs = top_level_values(script, "ManaCost");
    let types = top_level_values(script, "Types");
    let ghost cost_texts = field_values(lines(script@), "ManaCost"@);
    let ghost type_texts = field_values(lines(script@), "Types"@);
    assert(string_views(costs@).len() == costs@.len());
    assert(string_views(types@).len() == types@.len());
    if costs.len() == 0 || costs.len() != types.len() {
        return None;
    }
    let mut faces: Vec<FaceSignature> = Vec::new();
    let mut i: usize = 0;
    while i < costs.len()
        invariant
            i <= costs@.len(),
            costs@.len() == types@.len(),
            cost_texts == string_views(costs@),
            type_texts == string_views(types@),
            faces@.len() == i,
            forall|j: int|
                0 <= j < i ==> (#[trigger] faces@[j])@ == face_signature(
                    cost_texts[j],
                    type_texts[j],
                ),
        decreases costs@.len() - i,
    {
        assert(cost_texts[i as int] == costs@[i as int]@);
        assert(type_texts[i as int] == types@[i as int]@);
        faces.push(
            FaceSignature {
                mana_cost: normalize_mana_cost(costs[i].as_str()),
                type_line: normalize_type_line(types[i].as_str()),
            },
        );
        i += 1;
    }
    let out = CardSignature(faces);
    assert(out@ =~= script_signature(script@)->0);
    Some(out)
}

impl CardSignature {
    /// Whether both signatures have the same costs and types.
    pub(crate) fn matches(&self, other: &CardSignature) -> (res: bool)
        ensures
            res == (self@ == other@),
    {
        if self.0.len() != other.0.len() {
            assert(self@.len() != other@.len());
            return false;
        }
        let mut i: usize = 0;
        while i < self.0.len()
            invariant
                i <= self.0@.len(),
                self.0@.len() == other.0@.len(),
                forall|j: int| 0 <= j < i ==> self@[j] == other@[j],
            decreases self.0@.len() - i,
        {
            let cost = chars_of(self.0[i].mana_cost.as_str());
            let types = chars_of(self.0[i].type_line.as_str());
            if !reads(cost.as_slice(), other.0[i].mana_cost.as_str()) || !reads(
                types.as_slice(),
                other.0[i].type_line.as_str(),
            ) {
                assert(self@[i as int] != other@[i as int]);
                return false;
            }
            i += 1;
        }
        assert(self@ =~= other@);
        true
    }

    /// A copy of the signature.
    pub(crate) fn copied(&self) -> (out: CardSignature)
        ensures
            out@ == self@,
    {
        let mut faces: Vec<FaceSignature> = Vec::new();
        let mut i: usize = 0;
        while i < self.0.len()
            invariant
                i <= self.0@.len(),
                faces@.len() == i,
                forall|j: int| 0 <= j < i ==> (#[trigger] faces@[j])@ == self@[j],
            decreases self.0@.len() - i,
        {
            faces.push(
                FaceSignature {
                    mana_cost: self.0[i].mana_cost.clone(),
                    type_line: self.0[i].type_line.clone(),
                },
            );
            i += 1;
        }
        let out = CardSignature(faces);
        assert(out@ =~= self@);
        out
    }
}

} // verus!
