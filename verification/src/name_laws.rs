//! Which printings count, what is kept of them, and which identity a script
//! stands for.

use vstd::prelude::*;

use crate::anonymity::is_trimmed;
use crate::names::{
    bears, candidates_for, resolved, seen_with_signature, seen_with_text, with_both_names,
    with_card, with_faces, Evidence, Names,
};
use crate::script::{first_value, optional_view};
use crate::scryfall::{color_identity_of, ScryfallCard, ScryfallFace};
use crate::segment_laws::{is_blank, law_white_space_is_trimmed};
use crate::signatures::{card_signature, face_signature, oracle_text_of, script_signature};
use crate::text::trim;

verus! {

/// Whether a printing is none of a card with a script: one in another language,
/// one without an identity, or a token, an emblem or a piece of art.
pub open spec fn is_passed_over(card: ScryfallCard) -> bool {
    ||| card.lang@ != "en"@
    ||| card.oracle_id is None
    ||| card.layout@ == "art_series"@
    ||| card.layout@ == "double_faced_token"@
    ||| card.layout@ == "emblem"@
    ||| card.layout@ == "front_card"@
    ||| card.layout@ == "token"@
}

/// Whether a table has the identity under the name, with the rules text and the
/// signature among what is known of it.
pub open spec fn vouches(
    table: Map<Seq<char>, Map<u128, Evidence>>,
    name: Seq<char>,
    id: u128,
    text: Option<Seq<char>>,
    signature: Seq<(Seq<char>, Seq<char>)>,
) -> bool {
    &&& bears(table, name, id)
    &&& table[trim(name)][id].signatures.contains(signature)
    &&& text matches Some(text) ==> table[trim(name)][id].oracle_texts.contains(
        oracle_text_of(text),
    )
}

/// Printings that are passed over change nothing.
pub proof fn law_other_printings_change_nothing(names: Names, card: ScryfallCard)
    requires
        is_passed_over(card),
    ensures
        with_card(names, card) == names,
{
}

proof fn lemma_both_names(
    table: Map<Seq<char>, Map<u128, Evidence>>,
    name: Seq<char>,
    printed: Option<Seq<char>>,
    id: u128,
    text: Option<Seq<char>>,
    signature: Seq<(Seq<char>, Seq<char>)>,
)
    ensures
        ({
            let out = with_both_names(table, name, printed, id, text, signature);
            &&& vouches(out, name, id, text, signature)
            &&& printed matches Some(other) ==> vouches(out, other, id, text, signature)
        }),
{
}

proof fn lemma_face_vouched(
    table: Map<Seq<char>, Map<u128, Evidence>>,
    faces: Seq<ScryfallFace>,
    id: u128,
    at: int,
)
    requires
        0 <= at < faces.len(),
    ensures
        ({
            let out = with_faces(table, faces, id);
            let face = faces[at];
            let text = optional_view(face.oracle_text);
            let signature = seq![face_signature(face.mana_cost@, face.type_line@)];
            &&& vouches(out, face.name@, id, text, signature)
            &&& face.printed_name matches Some(printed) ==> vouches(
                out,
                printed@,
                id,
                text,
                signature,
            )
        }),
    decreases faces.len(),
{
    let face = faces.last();
    let before = with_faces(table, faces.drop_last(), id);
    if at < faces.len() - 1 {
        lemma_face_vouched(table, faces.drop_last(), id, at);
        let known = faces[at];
        assert(faces.drop_last()[at] == known);
    } else {
        lemma_both_names(
            before,
            face.name@,
            optional_view(face.printed_name),
            id,
            optional_view(face.oracle_text),
            seq![face_signature(face.mana_cost@, face.type_line@)],
        );
    }
}

/// Every other printing is kept with its rules text and its signature: under
/// the names of the card, and each face under the names of the face.
pub proof fn law_printings_are_kept(names: Names, card: ScryfallCard, face: int)
    requires
        !is_passed_over(card),
    ensures
        ({
            let index = with_card(names, card);
            let id = (card.oracle_id->0).0;
            let text = optional_view(card.oracle_text);
            &&& vouches(index.whole_cards, card.name@, id, text, card_signature(card))
            &&& card.printed_name matches Some(printed) ==> vouches(
                index.whole_cards,
                printed@,
                id,
                text,
                card_signature(card),
            )
            &&& 0 <= face < card.card_faces@.len() ==> {
                let seen = card.card_faces@[face];
                let signature = seq![face_signature(seen.mana_cost@, seen.type_line@)];
                &&& vouches(
                    index.faces,
                    seen.name@,
                    id,
                    optional_view(seen.oracle_text),
                    signature,
                )
                &&& seen.printed_name matches Some(printed) ==> vouches(
                    index.faces,
                    printed@,
                    id,
                    optional_view(seen.oracle_text),
                    signature,
                )
            }
        }),
{
    let id = (card.oracle_id->0).0;
    lemma_both_names(
        names.whole_cards,
        card.name@,
        optional_view(card.printed_name),
        id,
        optional_view(card.oracle_text),
        card_signature(card),
    );
    if 0 <= face < card.card_faces@.len() {
        lemma_face_vouched(names.faces, card.card_faces@, id, face);
    }
}

/// The first printing of an identity that counts settles its colors.
pub proof fn law_first_printings_settle_colors(names: Names, card: ScryfallCard)
    requires
        !is_passed_over(card),
    ensures
        ({
            let id = (card.oracle_id->0).0;
            let colors = with_card(names, card).color_identities;
            &&& colors.dom().contains(id)
            &&& colors[id] == if names.color_identities.dom().contains(id) {
                names.color_identities[id]
            } else {
                color_identity_of(card)
            }
            &&& forall|other: u128|
                other != id ==> colors.dom().contains(other)
                    == names.color_identities.dom().contains(other) && #[trigger] colors[other]
                    == names.color_identities[other]
        }),
{
}

/// A name is looked up among the whole cards, and among the faces where no
/// whole card has it. White space around it does not matter.
pub proof fn law_whole_cards_go_first(
    names: Names,
    before: Seq<char>,
    name: Seq<char>,
    after: Seq<char>,
)
    requires
        is_blank(before),
        is_trimmed(name),
        is_blank(after),
    ensures
        names.whole_cards.dom().contains(name) ==> candidates_for(names, before + name + after)
            == Some(names.whole_cards[name]),
        !names.whole_cards.dom().contains(name) && names.faces.dom().contains(name)
            ==> candidates_for(names, before + name + after) == Some(names.faces[name]),
        !names.whole_cards.dom().contains(name) && !names.faces.dom().contains(name)
            ==> candidates_for(names, before + name + after) is None,
{
    law_white_space_is_trimmed(before, name, after);
}

/// Whether the identity is the only one of the candidates that was seen with
/// the rules text.
pub open spec fn is_only_with_text(
    candidates: Map<u128, Evidence>,
    id: u128,
    text: Seq<char>,
) -> bool {
    &&& candidates.dom().contains(id)
    &&& candidates[id].oracle_texts.contains(text)
    &&& forall|other: u128|
        other != id && candidates.dom().contains(other) ==> !(
        #[trigger] candidates[other]).oracle_texts.contains(text)
}

/// Whether the identity is the only one of the candidates that was seen with
/// the signature.
pub open spec fn is_only_with_signature(
    candidates: Map<u128, Evidence>,
    id: u128,
    signature: Seq<(Seq<char>, Seq<char>)>,
) -> bool {
    &&& candidates.dom().contains(id)
    &&& candidates[id].signatures.contains(signature)
    &&& forall|other: u128|
        other != id && candidates.dom().contains(other) ==> !(
        #[trigger] candidates[other]).signatures.contains(signature)
}

proof fn lemma_one(set: Set<u128>, id: u128)
    requires
        set.finite(),
        set.contains(id),
        forall|other: u128| other != id ==> !#[trigger] set.contains(other),
    ensures
        set == set![id],
        set.len() == 1,
{
    assert(set =~= set![id]);
}

proof fn lemma_is_one(set: Set<u128>) -> (id: u128)
    requires
        set.finite(),
        set.len() == 1,
    ensures
        set.contains(id),
        forall|other: u128| other != id ==> !#[trigger] set.contains(other),
{
    let id = set.choose();
    assert(set.contains(id)) by {
        if !exists|other: u128| set.contains(other) {
            assert(set =~= Set::empty());
        }
    }
    assert forall|other: u128| other != id implies !#[trigger] set.contains(other) by {
        if set.contains(other) {
            assert(set.remove(id).contains(other));
            assert(set.remove(id).len() == 0);
            assert(set.remove(id) =~= Set::empty());
        }
    }
    id
}

/// The only bearer of a name is the one, whatever the script says.
pub proof fn law_only_bearers_are_taken(
    script: Seq<char>,
    candidates: Map<u128, Evidence>,
    id: u128,
)
    requires
        candidates.dom() == set![id],
    ensures
        resolved(script, candidates) == Some(set![id]),
{
    assert(set![id].len() == 1);
}

/// Among several bearers the rules text decides, and the costs and types where
/// the rules text does not. Without rules text nothing is decided.
pub proof fn law_evidence_decides(script: Seq<char>, candidates: Map<u128, Evidence>, id: u128)
    requires
        candidates.dom().finite(),
        candidates.dom().len() > 1,
    ensures
        match first_value(script, "Oracle"@) {
            None => resolved(script, candidates) is None,
            Some(oracle) => {
                let text = oracle_text_of(oracle);
                let signature = script_signature(script);
                &&& oracle == "<Unsupported Variant>"@ ==> resolved(script, candidates) == Some(
                    candidates.dom(),
                )
                &&& oracle != "<Unsupported Variant>"@ && is_only_with_text(candidates, id, text)
                    ==> resolved(script, candidates) == Some(set![id])
                &&& oracle != "<Unsupported Variant>"@ && (forall|other: u128|
                    !#[trigger] is_only_with_text(candidates, other, text)) ==> {
                    &&& signature is Some && is_only_with_signature(
                        candidates,
                        id,
                        signature->0,
                    ) ==> resolved(script, candidates) == Some(set![id])
                    &&& signature is None ==> resolved(script, candidates) is None
                    &&& signature is Some && (forall|other: u128|
                        !#[trigger] is_only_with_signature(
                            candidates,
                            other,
                            signature->0,
                        )) ==> resolved(
                        script,
                        candidates,
                    ) is None
                }
            },
        },
{
    if let Some(oracle) = first_value(script, "Oracle"@) {
        let text = oracle_text_of(oracle);
        let by_text = seen_with_text(candidates, text);
        assert(by_text.finite());
        if is_only_with_text(candidates, id, text) {
            assert forall|other: u128| other != id implies !#[trigger] by_text.contains(other) by {
                if candidates.dom().contains(other) {
                    assert(!candidates[other].oracle_texts.contains(text));
                }
            }
            lemma_one(by_text, id);
        }
        if by_text.len() == 1 {
            let one = lemma_is_one(by_text);
            assert forall|other: u128|
                other != one && candidates.dom().contains(other) implies !(
            #[trigger] candidates[other]).oracle_texts.contains(text) by {
                assert(!by_text.contains(other));
            }
            assert(is_only_with_text(candidates, one, text));
        }
        if let Some(faces) = script_signature(script) {
            let by_signature = seen_with_signature(candidates, faces);
            assert(by_signature.finite());
            if is_only_with_signature(candidates, id, faces) {
                assert forall|other: u128| other != id implies !#[trigger] by_signature.contains(
                    other,
                ) by {
                    if candidates.dom().contains(other) {
                        assert(!candidates[other].signatures.contains(faces));
                    }
                }
                lemma_one(by_signature, id);
            }
            if by_signature.len() == 1 {
                let one = lemma_is_one(by_signature);
                assert forall|other: u128|
                    other != one && candidates.dom().contains(other) implies !(
                #[trigger] candidates[other]).signatures.contains(faces) by {
                    assert(!by_signature.contains(other));
                }
                assert(is_only_with_signature(candidates, one, faces));
            }
        }
    }
}

} // verus!
