//! Sets as the card data describes them: their identity and when they came
//! out.

use vstd::prelude::*;

use crate::letters::{ascii_lowercase, to_ascii_lowercase};
use crate::maps::TextMap;
use crate::order::{lemma_text_less_irreflexive, lemma_text_less_transitive, less, text_less};
use crate::scryfall::ScryfallCard;
use crate::text::{chars_of, string_of};
use crate::uuids::Uuid;

verus! {

/// What is known of a set.
#[derive(Debug)]
pub struct SetMetadata {
    pub set_id: Uuid,
    pub publisher_code: String,
    pub released_at: String,
}

/// What is known of a set, as a number and texts.
#[verifier::ext_equal]
pub struct SetInfo {
    pub set_id: u128,
    pub code: Seq<char>,
    pub released_at: Seq<char>,
}

impl View for SetMetadata {
    type V = SetInfo;

    open spec fn view(&self) -> SetInfo {
        SetInfo {
            set_id: self.set_id.0,
            code: self.publisher_code@,
            released_at: self.released_at@,
        }
    }
}

/// What is known of the sets, by their codes.
pub open spec fn sets_view(table: TextMap<SetMetadata>) -> Map<Seq<char>, SetInfo> {
    table@.map_values(|set: SetMetadata| set@)
}

/// A set code that stands for two different sets.
#[derive(Debug)]
pub struct ConflictingSet {
    pub code: String,
}

/// The sets after one more printing. A printing of a known set may bring its
/// release forward; one with another set ID is a conflict.
pub open spec fn with_printing(sets: Map<Seq<char>, SetInfo>, card: ScryfallCard) -> Result<
    Map<Seq<char>, SetInfo>,
    Seq<char>,
> {
    let code = ascii_lowercase(card.set@);
    let seen = SetInfo { set_id: card.set_id.0, code, released_at: card.released_at@ };
    if !sets.dom().contains(code) {
        Ok(sets.insert(code, seen))
    } else if sets[code].set_id != seen.set_id {
        Err(code)
    } else if text_less(seen.released_at, sets[code].released_at) {
        Ok(sets.insert(code, SetInfo { released_at: seen.released_at, ..sets[code] }))
    } else {
        Ok(sets)
    }
}

/// The sets of the printings, or the code of the first conflict.
pub open spec fn sets_of(cards: Seq<ScryfallCard>) -> Result<Map<Seq<char>, SetInfo>, Seq<char>>
    decreases cards.len(),
{
    if cards.len() == 0 {
        Ok(Map::empty())
    } else {
        match sets_of(cards.drop_last()) {
            Err(code) => Err(code),
            Ok(sets) => with_printing(sets, cards.last()),
        }
    }
}

proof fn lemma_first_conflict(cards: Seq<ScryfallCard>, count: int)
    requires
        0 <= count <= cards.len(),
        sets_of(cards.take(count)) is Err,
    ensures
        sets_of(cards) == sets_of(cards.take(count)),
    decreases cards.len(),
{
    if count == cards.len() {
        assert(cards.take(count) =~= cards);
    } else {
        assert(cards.drop_last().take(count) =~= cards.take(count));
        lemma_first_conflict(cards.drop_last(), count);
    }
}

/// Every printing's set is known under its code, with its set ID and with a
/// release that is no later than the printing's; the release is that of one
/// of the printings.
pub proof fn law_sets_come_out_with_their_first_printing(cards: Seq<ScryfallCard>, at: int)
    requires
        sets_of(cards) is Ok,
        0 <= at < cards.len(),
    ensures
        ({
            let sets = sets_of(cards)->Ok_0;
            let code = ascii_lowercase(cards[at].set@);
            &&& sets.dom().contains(code)
            &&& sets[code].code == code
            &&& sets[code].set_id == cards[at].set_id.0
            &&& !text_less(cards[at].released_at@, sets[code].released_at)
            &&& exists|first: int|
                0 <= first < cards.len() && ascii_lowercase((#[trigger] cards[first]).set@) == code
                    && cards[first].released_at@ == sets[code].released_at
        }),
    decreases cards.len(),
{
    let earlier = cards.drop_last();
    let before = sets_of(earlier)->Ok_0;
    let sets = sets_of(cards)->Ok_0;
    let code = ascii_lowercase(cards[at].set@);
    let last = cards.last();
    let last_code = ascii_lowercase(last.set@);
    lemma_text_less_irreflexive(last.released_at@);
    if at < earlier.len() {
        law_sets_come_out_with_their_first_printing(earlier, at);
        assert(earlier[at] == cards[at]);
        let first = choose|first: int|
            0 <= first < earlier.len() && ascii_lowercase((#[trigger] earlier[first]).set@) == code
                && earlier[first].released_at@ == before[code].released_at;
        assert(earlier[first] == cards[first]);
        if last_code == code && text_less(last.released_at@, before[code].released_at) {
            assert(cards[cards.len() - 1] == last);
            if text_less(cards[at].released_at@, last.released_at@) {
                lemma_text_less_transitive(
                    cards[at].released_at@,
                    last.released_at@,
                    before[code].released_at,
                );
            }
        } else {
            assert(sets[code] == before[code]);
            assert(ascii_lowercase(cards[first].set@) == code);
        }
    } else if before.dom().contains(code) {
        lemma_known_set(earlier, code);
        let known = choose|i: int|
            0 <= i < earlier.len() && ascii_lowercase((#[trigger] earlier[i]).set@) == code;
        law_sets_come_out_with_their_first_printing(earlier, known);
        let first = choose|first: int|
            0 <= first < earlier.len() && ascii_lowercase((#[trigger] earlier[first]).set@) == code
                && earlier[first].released_at@ == before[code].released_at;
        assert(earlier[first] == cards[first]);
        assert(cards[cards.len() - 1] == last);
    } else {
        assert(cards[cards.len() - 1] == last);
    }
}

proof fn lemma_known_set(cards: Seq<ScryfallCard>, code: Seq<char>)
    requires
        sets_of(cards) is Ok,
        sets_of(cards)->Ok_0.dom().contains(code),
    ensures
        exists|i: int|
            0 <= i < cards.len() && ascii_lowercase((#[trigger] cards[i]).set@) == code,
    decreases cards.len(),
{
    let earlier = cards.drop_last();
    if cards.len() > 0 {
        if sets_of(earlier)->Ok_0.dom().contains(code) {
            lemma_known_set(earlier, code);
            let i = choose|i: int|
                0 <= i < earlier.len() && ascii_lowercase((#[trigger] earlier[i]).set@) == code;
            assert(cards[i] == earlier[i]);
        } else {
            assert(cards[cards.len() - 1] == cards.last());
        }
    }
}

/// Records the set of one more printing.
pub fn record_set(by_code: &mut TextMap<SetMetadata>, card: &ScryfallCard) -> (res: Result<
    (),
    ConflictingSet,
>)
    ensures
        match res {
            Ok(_) => with_printing(sets_view(*old(by_code)), *card) == Ok::<
                Map<Seq<char>, SetInfo>,
                Seq<char>,
            >(sets_view(*final(by_code))),
            Err(conflict) => with_printing(sets_view(*old(by_code)), *card) == Err::<
                Map<Seq<char>, SetInfo>,
                Seq<char>,
            >(conflict.code@),
        },
{
    let ghost before = sets_view(*by_code);
    let ghost start = by_code@;
    let set_chars = chars_of(card.set.as_str());
    let code = string_of(to_ascii_lowercase(set_chars.as_slice()).as_slice());
    let held: Option<bool> = match by_code.get(code.as_str()) {
        None => None,
        Some(known) => {
            assert(before[code@] == known@);
            if known.set_id != card.set_id {
                return Err(ConflictingSet { code });
            }
            let printed = chars_of(card.released_at.as_str());
            let release = chars_of(known.released_at.as_str());
            Some(less(printed.as_slice(), release.as_slice()))
        },
    };
    match held {
        None => {
            let set = SetMetadata {
                set_id: card.set_id,
                publisher_code: code.clone(),
                released_at: card.released_at.clone(),
            };
            let ghost view = set@;
            by_code.insert(code, set);
            assert(sets_view(*by_code) =~= before.insert(code@, view));
        },
        Some(earlier) => {
            if earlier {
                match by_code.remove(code.as_str()) {
                    Some(known) => {
                        let set = SetMetadata {
                            set_id: known.set_id,
                            publisher_code: known.publisher_code,
                            released_at: card.released_at.clone(),
                        };
                        let ghost view = set@;
                        by_code.insert(code, set);
                        assert(sets_view(*by_code) =~= before.insert(code@, view));
                    },
                    None => {},
                }
            }
        },
    }
    Ok(())
}

/// The sets of the printings. A rolling set has printings of several dates;
/// its earliest one counts.
pub fn load_set_metadata(cards: &[ScryfallCard]) -> (res: Result<
    TextMap<SetMetadata>,
    ConflictingSet,
>)
    ensures
        match res {
            Ok(table) => sets_of(cards@) == Ok::<Map<Seq<char>, SetInfo>, Seq<char>>(
                sets_view(table),
            ),
            Err(conflict) => sets_of(cards@) == Err::<Map<Seq<char>, SetInfo>, Seq<char>>(
                conflict.code@,
            ),
        },
{
    let mut by_code: TextMap<SetMetadata> = TextMap::new();
    let mut i: usize = 0;
    proof {
        assert(sets_view(by_code) =~= Map::empty());
        assert(cards@.take(0) =~= Seq::empty());
    }
    while i < cards.len()
        invariant
            i <= cards@.len(),
            sets_of(cards@.take(i as int)) == Ok::<Map<Seq<char>, SetInfo>, Seq<char>>(
                sets_view(by_code),
            ),
        decreases cards@.len() - i,
    {
        assert(cards@.take(i + 1).drop_last() =~= cards@.take(i as int));
        match record_set(&mut by_code, &cards[i]) {
            Ok(_) => {},
            Err(conflict) => {
                proof {
                    lemma_first_conflict(cards@, i + 1);
                }
                return Err(conflict);
            },
        }
        i += 1;
    }
    assert(cards@.take(cards@.len() as int) =~= cards@);
    Ok(by_code)
}

} // verus!
