//! What holds of the registry of anonymous set IDs from run to run.

use vstd::prelude::*;

use crate::letters::is_ascii_uppercase;
use crate::maps::{in_text_order, is_text_order};
use crate::numerals::{all_digits, decimal, is_digit, lemma_decimal, unsigned_digits};
use crate::order::{
    lemma_text_less_irreflexive, lemma_text_less_total, lemma_text_less_transitive, text_less,
};
use crate::registry::{
    assigned, assigned_sets, assignment_of, assignments_of, by_release, has_anonymous_id, has_set,
    needed_codes, next_of, next_ordinals, numbered, placed, registry_of, registry_row,
    registry_rows, released_before, unassigned, Numbering, RegistryLineProblem, RegistryProblem,
    SET_REGISTRY_HEADER,
};
use crate::set_ids::{
    law_set_ids_are_distinct, lemma_readable_length, lemma_set_id_bounds, lemma_suffix, set_id,
    set_id_of, suffix, year_of, SetIdError,
};
use crate::sets::SetInfo;
use crate::source_catalog::Card;
use crate::tables::{fits_line, lacks, lemma_lines_unlines};
use crate::text::{lemma_find_char_is, unlines};
use crate::uuids::{hyphenated_text, law_hyphenated_reads_back, lemma_hyphenated_chars};

verus! {

pub proof fn lemma_numbered_extends(start: Numbering, sets: Seq<SetInfo>)
    requires
        numbered(start, sets) is Ok,
    ensures
        ({
            let end = numbered(start, sets)->Ok_0;
            &&& end.assignments.len() == start.assignments.len() + sets.len()
            &&& end.assignments.take(start.assignments.len() as int) == start.assignments
            &&& forall|i: int|
                0 <= i < sets.len() ==> (#[trigger] end.assignments[start.assignments.len() + i]).1
                    == sets[i].set_id
        }),
    decreases sets.len(),
{
    let end = numbered(start, sets)->Ok_0;
    if sets.len() == 0 {
        assert(start.assignments.take(start.assignments.len() as int) =~= start.assignments);
    } else {
        lemma_numbered_extends(start, sets.drop_last());
        let earlier = numbered(start, sets.drop_last())->Ok_0;
        assert(end.assignments.take(start.assignments.len() as int)
            =~= earlier.assignments.take(start.assignments.len() as int));
        assert forall|i: int| 0 <= i < sets.len() implies (
        #[trigger] end.assignments[start.assignments.len() + i]).1 == sets[i].set_id by {
            if i < sets.len() - 1 {
                assert(end.assignments[start.assignments.len() + i]
                    == earlier.assignments[start.assignments.len() + i]);
                assert(sets.drop_last()[i] == sets[i]);
            }
        }
    }
}

/// The assignments that there were stay where they were; new ones follow them.
pub proof fn law_assignments_never_move(
    cards: Seq<Card>,
    sets: Map<Seq<char>, SetInfo>,
    assignments: Seq<(Seq<char>, u128)>,
)
    requires
        assigned(cards, sets, assignments) is Ok,
    ensures
        assigned(cards, sets, assignments)->Ok_0.len() >= assignments.len(),
        assigned(cards, sets, assignments)->Ok_0.take(assignments.len() as int) == assignments,
{
    let codes = in_text_order(needed_codes(cards));
    let new_sets = unassigned(codes, sets, assigned_sets(assignments))->Ok_0;
    let next = next_ordinals(assignments)->Ok_0;
    lemma_numbered_extends(Numbering { next, assignments }, by_release(new_sets));
}

/// A set ID that reads as a year and an ordinal was made from them.
proof fn lemma_reads_as_made(year: nat, ordinal: nat)
    requires
        set_id_of(set_id(year, ordinal)) is Ok,
    ensures
        set_id_of(set_id(year, ordinal)) == Ok::<(nat, nat), SetIdError>((year, ordinal)),
{
    let text = set_id(year, ordinal);
    let digits = decimal(year);
    let letters = suffix(ordinal);
    lemma_decimal(year);
    lemma_suffix(ordinal);
    if digits.len() < 4 {
        let at = digits.len() as int;
        assert(text[at] == letters[0]);
        assert(is_ascii_uppercase(letters[0]));
        let front = text.take(4);
        assert(front[at] == letters[0]);
        if at == 0 {
        } else {
            assert(is_digit(digits[0]));
            assert(front[0] == digits[0]);
            assert(unsigned_digits(front) == front);
        }
        assert(!is_digit(front[at]));
        assert(!all_digits(front));
    } else if digits.len() > 4 {
        assert(text.skip(4)[0] == digits[4]);
        assert(is_digit(digits[4]));
        assert(!is_ascii_uppercase(text.skip(4)[0]));
    } else {
        assert(text.take(4) =~= digits);
        assert(text.skip(4) =~= letters);
    }
}

/// Whether the ID, if it was made from a year and an ordinal, uses an ordinal
/// that is taken.
spec fn uses_taken(id: Seq<char>, next: Map<u16, nat>) -> bool {
    forall|year: u16, ordinal: nat|
        id == #[trigger] set_id(year as nat, ordinal) ==> ordinal < next_of(next, year)
}

proof fn lemma_next_covers(assignments: Seq<(Seq<char>, u128)>, at: int)
    requires
        next_ordinals(assignments) is Ok,
        0 <= at < assignments.len(),
    ensures
        uses_taken(assignments[at].0, next_ordinals(assignments)->Ok_0),
    decreases assignments.len(),
{
    let next = next_ordinals(assignments)->Ok_0;
    let before = next_ordinals(assignments.drop_last())->Ok_0;
    let (last_year, last_ordinal) = set_id_of(assignments.last().0)->Ok_0;
    lemma_set_id_bounds(assignments.last().0);
    if at < assignments.len() - 1 {
        lemma_next_covers(assignments.drop_last(), at);
        assert(assignments.drop_last()[at] == assignments[at]);
        assert forall|year: u16, ordinal: nat|
            assignments[at].0 == #[trigger] set_id(year as nat, ordinal) implies ordinal < next_of(
            next,
            year,
        ) by {
            assert(ordinal < next_of(before, year));
        }
    } else {
        assert forall|year: u16, ordinal: nat|
            assignments[at].0 == #[trigger] set_id(year as nat, ordinal) implies ordinal < next_of(
            next,
            year,
        ) by {
            lemma_reads_as_made(year as nat, ordinal);
        }
    }
}

proof fn lemma_numbered_distinct(start: Numbering, sets: Seq<SetInfo>)
    requires
        numbered(start, sets) is Ok,
        forall|i: int|
            0 <= i < start.assignments.len() ==> uses_taken(
                (#[trigger] start.assignments[i]).0,
                start.next,
            ),
    ensures
        ({
            let end = numbered(start, sets)->Ok_0;
            &&& forall|i: int|
                0 <= i < end.assignments.len() ==> uses_taken(
                    (#[trigger] end.assignments[i]).0,
                    end.next,
                )
            &&& forall|i: int, j: int|
                0 <= i < j && start.assignments.len() <= j < end.assignments.len() ==> (
                #[trigger] end.assignments[i]).0 != (#[trigger] end.assignments[j]).0
        }),
    decreases sets.len(),
{
    if sets.len() > 0 {
        lemma_numbered_distinct(start, sets.drop_last());
        lemma_numbered_extends(start, sets.drop_last());
        let earlier = numbered(start, sets.drop_last())->Ok_0;
        let end = numbered(start, sets)->Ok_0;
        let year = year_of(sets.last().released_at)->Ok_0;
        let ordinal = next_of(earlier.next, year as u16);
        let id = set_id(year, ordinal);
        assert(year <= u16::MAX);
        assert(id == set_id((year as u16) as nat, ordinal));
        assert forall|i: int| 0 <= i < end.assignments.len() implies uses_taken(
            (#[trigger] end.assignments[i]).0,
            end.next,
        ) by {
            let held = end.assignments[i].0;
            assert forall|other: u16, count: nat|
                held == #[trigger] set_id(other as nat, count) implies count < next_of(
                end.next,
                other,
            ) by {
                if i < earlier.assignments.len() {
                    assert(earlier.assignments[i] == end.assignments[i]);
                    assert(uses_taken(earlier.assignments[i].0, earlier.next));
                    assert(count < next_of(earlier.next, other));
                } else {
                    law_set_ids_are_distinct(year, ordinal, other as nat, count);
                }
            }
        }
        assert forall|i: int, j: int|
            0 <= i < j && start.assignments.len() <= j < end.assignments.len() implies (
        #[trigger] end.assignments[i]).0 != (#[trigger] end.assignments[j]).0 by {
            assert(earlier.assignments[i] == end.assignments[i]);
            if j < earlier.assignments.len() {
                assert(earlier.assignments[j] == end.assignments[j]);
            } else {
                assert(uses_taken(earlier.assignments[i].0, earlier.next));
            }
        }
    }
}

/// A new anonymous ID differs from every ID that was given before it.
pub proof fn law_new_set_ids_are_new(
    cards: Seq<Card>,
    sets: Map<Seq<char>, SetInfo>,
    assignments: Seq<(Seq<char>, u128)>,
    earlier: int,
    later: int,
)
    requires
        assigned(cards, sets, assignments) is Ok,
        0 <= earlier < later < assigned(cards, sets, assignments)->Ok_0.len(),
        assignments.len() <= later,
    ensures
        assigned(cards, sets, assignments)->Ok_0[earlier].0 != assigned(
            cards,
            sets,
            assignments,
        )->Ok_0[later].0,
{
    let codes = in_text_order(needed_codes(cards));
    let new_sets = unassigned(codes, sets, assigned_sets(assignments))->Ok_0;
    let next = next_ordinals(assignments)->Ok_0;
    assert forall|i: int| 0 <= i < assignments.len() implies uses_taken(
        (#[trigger] assignments[i]).0,
        next,
    ) by {
        lemma_next_covers(assignments, i);
    }
    lemma_numbered_distinct(Numbering { next, assignments }, by_release(new_sets));
}

/// The list with a text put in its place.
spec fn with_text(list: Seq<Seq<char>>, text: Seq<char>) -> Seq<Seq<char>>
    decreases list.len(),
{
    if list.len() == 0 {
        seq![text]
    } else if list.last() == text {
        list
    } else if text_less(text, list.last()) {
        with_text(list.drop_last(), text).push(list.last())
    } else {
        list.push(text)
    }
}

proof fn lemma_with_text(list: Seq<Seq<char>>, text: Seq<char>)
    requires
        forall|i: int, j: int|
            0 <= i < j < list.len() ==> text_less(#[trigger] list[i], #[trigger] list[j]),
    ensures
        is_text_order(with_text(list, text), list.to_set().insert(text)),
    decreases list.len(),
{
    let out = with_text(list, text);
    let keys = list.to_set().insert(text);
    if list.len() == 0 {
        assert(out.to_set() =~= keys) by {
            assert(out[0] == text);
        }
    } else if list.last() == text {
        assert(list[list.len() - 1] == text);
        assert(out.to_set() =~= keys);
    } else if text_less(text, list.last()) {
        let front = list.drop_last();
        let last = list.last();
        assert forall|i: int, j: int| 0 <= i < j < front.len() implies text_less(
            #[trigger] front[i],
            #[trigger] front[j],
        ) by {
            assert(text_less(list[i], list[j]));
        }
        lemma_with_text(front, text);
        let inner = with_text(front, text);
        assert forall|key: Seq<char>| out.to_set().contains(key) == keys.contains(key) by {
            if out.contains(key) {
                let i = choose|i: int| 0 <= i < out.len() && out[i] == key;
                if i < inner.len() {
                    assert(inner[i] == key);
                    assert(inner.to_set().contains(key));
                    if key != text {
                        assert(front.to_set().contains(key));
                        let k = choose|k: int| 0 <= k < front.len() && front[k] == key;
                        assert(list[k] == key);
                    }
                } else {
                    assert(list[list.len() - 1] == key);
                }
            }
            if keys.contains(key) {
                if key == last {
                    assert(out[inner.len() as int] == key);
                } else {
                    if key != text {
                        let k = choose|k: int| 0 <= k < list.len() && list[k] == key;
                        assert(front[k] == key);
                        assert(front.to_set().contains(key));
                    }
                    assert(inner.to_set().contains(key));
                    let i = choose|i: int| 0 <= i < inner.len() && inner[i] == key;
                    assert(out[i] == key);
                }
            }
        }
        assert(out.to_set() =~= keys);
        assert forall|i: int, j: int| 0 <= i < j < out.len() implies text_less(
            #[trigger] out[i],
            #[trigger] out[j],
        ) by {
            if j < inner.len() {
                assert(text_less(inner[i], inner[j]));
            } else {
                assert(inner.to_set().contains(inner[i]));
                if inner[i] != text {
                    assert(front.to_set().contains(inner[i]));
                    let k = choose|k: int| 0 <= k < front.len() && front[k] == inner[i];
                    assert(text_less(list[k], list[list.len() - 1]));
                }
            }
        }
    } else {
        let last = list.last();
        lemma_text_less_total(text, last);
        assert forall|key: Seq<char>| out.to_set().contains(key) == keys.contains(key) by {
            if keys.contains(key) {
                if key == text {
                    assert(out[list.len() as int] == key);
                } else {
                    let k = choose|k: int| 0 <= k < list.len() && list[k] == key;
                    assert(out[k] == key);
                }
            }
            if out.contains(key) {
                let i = choose|i: int| 0 <= i < out.len() && out[i] == key;
                if i < list.len() {
                    assert(list[i] == key);
                }
            }
        }
        assert(out.to_set() =~= keys);
        assert forall|i: int, j: int| 0 <= i < j < out.len() implies text_less(
            #[trigger] out[i],
            #[trigger] out[j],
        ) by {
            if j == list.len() && i < list.len() - 1 {
                lemma_text_less_transitive(list[i], last, text);
            }
        }
    }
}

/// The needed codes can be put in order.
pub proof fn lemma_codes_in_order(cards: Seq<Card>)
    ensures
        is_text_order(in_text_order(needed_codes(cards)), needed_codes(cards)),
    decreases cards.len(),
{
    if cards.len() == 0 {
        let none = Seq::<Seq<char>>::empty();
        assert(none.to_set() =~= Set::empty());
        assert(is_text_order(none, needed_codes(cards)));
    } else {
        lemma_codes_in_order(cards.drop_last());
        let earlier = in_text_order(needed_codes(cards.drop_last()));
        lemma_with_text(earlier, cards.last().set_code);
        assert(is_text_order(
            with_text(earlier, cards.last().set_code),
            needed_codes(cards),
        ));
    }
}

proof fn lemma_needed(cards: Seq<Card>, at: int)
    requires
        0 <= at < cards.len(),
    ensures
        needed_codes(cards).contains(cards[at].set_code),
    decreases cards.len(),
{
    if at < cards.len() - 1 {
        lemma_needed(cards.drop_last(), at);
        assert(cards.drop_last()[at] == cards[at]);
    }
}

proof fn lemma_unassigned_covers(
    codes: Seq<Seq<char>>,
    sets: Map<Seq<char>, SetInfo>,
    known: Set<u128>,
    at: int,
)
    requires
        unassigned(codes, sets, known) is Ok,
        0 <= at < codes.len(),
    ensures
        sets.dom().contains(codes[at]),
        known.contains(sets[codes[at]].set_id) || unassigned(codes, sets, known)->Ok_0.contains(
            sets[codes[at]],
        ),
    decreases codes.len(),
{
    let all = unassigned(codes, sets, known)->Ok_0;
    let earlier = unassigned(codes.drop_last(), sets, known)->Ok_0;
    if at < codes.len() - 1 {
        lemma_unassigned_covers(codes.drop_last(), sets, known, at);
        let set = sets[codes[at]];
        assert(codes.drop_last()[at] == codes[at]);
        if earlier.contains(set) {
            let i = choose|i: int| 0 <= i < earlier.len() && earlier[i] == set;
            assert(all[i] == set);
        }
    } else if !known.contains(sets[codes[at]].set_id) {
        assert(all[earlier.len() as int] == sets[codes[at]]);
    }
}

proof fn lemma_placed(list: Seq<SetInfo>, set: SetInfo)
    ensures
        placed(list, set).len() == list.len() + 1,
        placed(list, set).contains(set),
        forall|other: SetInfo| #[trigger] list.contains(other) ==> placed(list, set).contains(
            other,
        ),
    decreases list.len(),
{
    let out = placed(list, set);
    if list.len() > 0 && released_before(set, list.last()) {
        let front = list.drop_last();
        let inner = placed(front, set);
        lemma_placed(front, set);
        let i = choose|i: int| 0 <= i < inner.len() && inner[i] == set;
        assert(out[i] == set);
        assert forall|other: SetInfo| #[trigger] list.contains(other) implies out.contains(
            other,
        ) by {
            let k = choose|k: int| 0 <= k < list.len() && list[k] == other;
            if k < front.len() {
                assert(front[k] == other);
                assert(front.contains(other));
                let m = choose|m: int| 0 <= m < inner.len() && inner[m] == other;
                assert(out[m] == other);
            } else {
                assert(out[inner.len() as int] == other);
            }
        }
    } else {
        assert(out[list.len() as int] == set);
        assert forall|other: SetInfo| #[trigger] list.contains(other) implies out.contains(
            other,
        ) by {
            let k = choose|k: int| 0 <= k < list.len() && list[k] == other;
            assert(out[k] == other);
        }
    }
}

proof fn lemma_by_release(list: Seq<SetInfo>)
    ensures
        by_release(list).len() == list.len(),
        forall|set: SetInfo| #[trigger] list.contains(set) ==> by_release(list).contains(set),
    decreases list.len(),
{
    if list.len() > 0 {
        let front = list.drop_last();
        lemma_by_release(front);
        lemma_placed(by_release(front), list.last());
        assert forall|set: SetInfo| #[trigger] list.contains(set) implies by_release(
            list,
        ).contains(set) by {
            let k = choose|k: int| 0 <= k < list.len() && list[k] == set;
            if k < front.len() {
                assert(front[k] == set);
                assert(front.contains(set));
                assert(by_release(front).contains(set));
            }
        }
    }
}

/// Whether no set comes after one that was released later.
pub open spec fn in_release_order(list: Seq<SetInfo>) -> bool {
    forall|i: int, j: int|
        0 <= i < j < list.len() ==> !released_before(#[trigger] list[j], #[trigger] list[i])
}

proof fn lemma_release_chain(a: SetInfo, b: SetInfo, c: SetInfo)
    requires
        released_before(a, b),
        !released_before(c, b),
    ensures
        released_before(a, c),
{
    lemma_text_less_total(b.released_at, c.released_at);
    lemma_text_less_total(b.code, c.code);
    if text_less(b.released_at, c.released_at) {
        if text_less(a.released_at, b.released_at) {
            lemma_text_less_transitive(a.released_at, b.released_at, c.released_at);
        }
    } else if b.released_at == c.released_at {
        if a.released_at == b.released_at && text_less(b.code, c.code) && text_less(
            a.code,
            b.code,
        ) {
            lemma_text_less_transitive(a.code, b.code, c.code);
        }
    }
}

proof fn lemma_release_irreflexive(a: SetInfo, b: SetInfo)
    requires
        released_before(a, b),
    ensures
        !released_before(b, a),
{
    lemma_text_less_irreflexive(a.released_at);
    lemma_text_less_irreflexive(a.code);
    if text_less(a.released_at, b.released_at) && text_less(b.released_at, a.released_at) {
        lemma_text_less_transitive(a.released_at, b.released_at, a.released_at);
    }
    if text_less(a.code, b.code) && text_less(b.code, a.code) {
        lemma_text_less_transitive(a.code, b.code, a.code);
    }
}

proof fn lemma_placed_in_order(list: Seq<SetInfo>, set: SetInfo)
    requires
        in_release_order(list),
    ensures
        in_release_order(placed(list, set)),
        forall|i: int|
            0 <= i < placed(list, set).len() ==> #[trigger] placed(list, set)[i] == set
                || list.contains(placed(list, set)[i]),
    decreases list.len(),
{
    let out = placed(list, set);
    if list.len() > 0 && released_before(set, list.last()) {
        let front = list.drop_last();
        let last = list.last();
        let inner = placed(front, set);
        assert(in_release_order(front)) by {
            assert forall|i: int, j: int| 0 <= i < j < front.len() implies !released_before(
                #[trigger] front[j],
                #[trigger] front[i],
            ) by {
                assert(!released_before(list[j], list[i]));
            }
        }
        lemma_placed_in_order(front, set);
        assert forall|i: int| 0 <= i < out.len() implies #[trigger] out[i] == set || list.contains(
            out[i],
        ) by {
            if i < inner.len() {
                assert(out[i] == inner[i]);
                if inner[i] != set {
                    let k = choose|k: int| 0 <= k < front.len() && front[k] == inner[i];
                    assert(list[k] == out[i]);
                }
            } else {
                assert(list[list.len() - 1] == out[i]);
            }
        }
        assert forall|i: int, j: int| 0 <= i < j < out.len() implies !released_before(
            #[trigger] out[j],
            #[trigger] out[i],
        ) by {
            if j < inner.len() {
                assert(out[i] == inner[i] && out[j] == inner[j]);
            } else {
                assert(out[i] == inner[i]);
                if inner[i] == set {
                    lemma_release_irreflexive(set, last);
                } else {
                    let k = choose|k: int| 0 <= k < front.len() && front[k] == inner[i];
                    assert(!released_before(list[list.len() - 1], list[k]));
                }
            }
        }
    } else {
        assert forall|i: int| 0 <= i < out.len() implies #[trigger] out[i] == set || list.contains(
            out[i],
        ) by {
            if i < list.len() {
                assert(list[i] == out[i]);
            }
        }
        assert forall|i: int, j: int| 0 <= i < j < out.len() implies !released_before(
            #[trigger] out[j],
            #[trigger] out[i],
        ) by {
            if j < list.len() {
                assert(!released_before(list[j], list[i]));
            } else if released_before(set, list[i]) {
                let last = list.last();
                if i < list.len() - 1 {
                    assert(!released_before(list[list.len() - 1], list[i]));
                    lemma_release_chain(set, list[i], last);
                }
            }
        }
    }
}

/// New anonymous IDs are given in the order of the sets' release, and sets of
/// one day in the order of their codes.
pub proof fn law_new_sets_are_numbered_by_release(new_sets: Seq<SetInfo>)
    ensures
        in_release_order(by_release(new_sets)),
        by_release(new_sets).len() == new_sets.len(),
        forall|set: SetInfo| #[trigger]
            new_sets.contains(set) ==> by_release(new_sets).contains(set),
    decreases new_sets.len(),
{
    lemma_by_release(new_sets);
    if new_sets.len() > 0 {
        law_new_sets_are_numbered_by_release(new_sets.drop_last());
        lemma_placed_in_order(by_release(new_sets.drop_last()), new_sets.last());
    }
}

/// Every card's first set is known and has an anonymous ID afterwards.
pub proof fn law_every_needed_set_is_assigned(
    cards: Seq<Card>,
    sets: Map<Seq<char>, SetInfo>,
    assignments: Seq<(Seq<char>, u128)>,
    at: int,
)
    requires
        assigned(cards, sets, assignments) is Ok,
        0 <= at < cards.len(),
    ensures
        sets.dom().contains(cards[at].set_code),
        has_set(assigned(cards, sets, assignments)->Ok_0, sets[cards[at].set_code].set_id),
{
    let codes = in_text_order(needed_codes(cards));
    let known = assigned_sets(assignments);
    let new_sets = unassigned(codes, sets, known)->Ok_0;
    let next = next_ordinals(assignments)->Ok_0;
    let start = Numbering { next, assignments };
    let ordered = by_release(new_sets);
    let out = assigned(cards, sets, assignments)->Ok_0;
    let code = cards[at].set_code;
    lemma_codes_in_order(cards);
    lemma_needed(cards, at);
    assert(codes.to_set().contains(code));
    let place = choose|i: int| 0 <= i < codes.len() && codes[i] == code;
    lemma_unassigned_covers(codes, sets, known, place);
    lemma_numbered_extends(start, ordered);
    let set = sets[code];
    if known.contains(set.set_id) {
        let i = choose|i: int|
            0 <= i < assignments.len() && (#[trigger] assignments[i]).1 == set.set_id;
        assert(out.take(assignments.len() as int)[i] == assignments[i]);
        assert(out[i].1 == set.set_id);
    } else {
        lemma_by_release(new_sets);
        assert(ordered.contains(set));
        let i = choose|i: int| 0 <= i < ordered.len() && ordered[i] == set;
        assert(out[assignments.len() + i].1 == set.set_id);
    }
}

proof fn lemma_nothing_unassigned(
    codes: Seq<Seq<char>>,
    sets: Map<Seq<char>, SetInfo>,
    known: Set<u128>,
)
    requires
        forall|i: int|
            0 <= i < codes.len() ==> sets.dom().contains(#[trigger] codes[i]) && known.contains(
                sets[codes[i]].set_id,
            ),
    ensures
        unassigned(codes, sets, known) == Ok::<Seq<SetInfo>, Seq<char>>(Seq::empty()),
    decreases codes.len(),
{
    if codes.len() > 0 {
        let front = codes.drop_last();
        assert forall|i: int| 0 <= i < front.len() implies sets.dom().contains(#[trigger] front[i])
            && known.contains(sets[front[i]].set_id) by {
            assert(front[i] == codes[i]);
        }
        lemma_nothing_unassigned(front, sets, known);
        assert(codes[codes.len() - 1] == codes.last());
    }
}

/// A second run on the outcome of a first one changes nothing, where all its
/// anonymous IDs can be read.
pub proof fn law_assigning_again_changes_nothing(
    cards: Seq<Card>,
    sets: Map<Seq<char>, SetInfo>,
    assignments: Seq<(Seq<char>, u128)>,
)
    requires
        assigned(cards, sets, assignments) is Ok,
        next_ordinals(assigned(cards, sets, assignments)->Ok_0) is Ok,
    ensures
        assigned(cards, sets, assigned(cards, sets, assignments)->Ok_0) == assigned(
            cards,
            sets,
            assignments,
        ),
{
    let out = assigned(cards, sets, assignments)->Ok_0;
    let codes = in_text_order(needed_codes(cards));
    lemma_codes_in_order(cards);
    assert forall|i: int| 0 <= i < codes.len() implies sets.dom().contains(#[trigger] codes[i])
        && assigned_sets(out).contains(sets[codes[i]].set_id) by {
        assert(codes.to_set().contains(codes[i]));
        lemma_needed_from(cards, codes[i]);
        let at = choose|at: int|
            0 <= at < cards.len() && (#[trigger] cards[at]).set_code == codes[i];
        law_every_needed_set_is_assigned(cards, sets, assignments, at);
    }
    lemma_nothing_unassigned(codes, sets, assigned_sets(out));
    assert(by_release(Seq::empty()) =~= Seq::empty());
}

proof fn lemma_needed_from(cards: Seq<Card>, code: Seq<char>)
    requires
        needed_codes(cards).contains(code),
    ensures
        exists|at: int| 0 <= at < cards.len() && (#[trigger] cards[at]).set_code == code,
    decreases cards.len(),
{
    if cards.len() > 0 {
        if cards.last().set_code == code {
            assert(cards[cards.len() - 1].set_code == code);
        } else {
            lemma_needed_from(cards.drop_last(), code);
            let at = choose|at: int|
                0 <= at < cards.len() - 1 && (#[trigger] cards.drop_last()[at]).set_code == code;
            assert(cards[at].set_code == code);
        }
    }
}

/// The characters of a set ID that can be read are digits, a plus sign or
/// uppercase letters.
pub proof fn lemma_set_id_chars(id: Seq<char>)
    requires
        set_id_of(id) is Ok,
    ensures
        id.len() >= 5,
        forall|i: int|
            0 <= i < id.len() ==> (is_digit(#[trigger] id[i]) || id[i] == '+'
                || is_ascii_uppercase(id[i])),
        is_ascii_uppercase(id.last()),
{
    lemma_readable_length(id);
    let year = id.take(4);
    let letters = id.skip(4);
    assert forall|i: int| 0 <= i < id.len() implies (is_digit(#[trigger] id[i]) || id[i] == '+'
        || is_ascii_uppercase(id[i])) by {
        if i < 4 {
            assert(year[i] == id[i]);
            if year[0] == '+' {
                if i > 0 {
                    assert(is_digit(unsigned_digits(year)[i - 1]));
                }
            } else {
                assert(is_digit(unsigned_digits(year)[i]));
            }
        } else {
            assert(is_ascii_uppercase(letters[i - 4]));
        }
    }
    assert(is_ascii_uppercase(letters[letters.len() - 1]));
}

/// Whether no anonymous ID and no set stands twice.
pub open spec fn all_distinct(assignments: Seq<(Seq<char>, u128)>) -> bool {
    forall|i: int, j: int|
        0 <= i < j < assignments.len() ==> (#[trigger] assignments[i]).0 != (
        #[trigger] assignments[j]).0 && assignments[i].1 != assignments[j].1
}

/// A registry that was written reads back as the same assignments, where no
/// anonymous ID and no set stands twice.
pub proof fn law_registries_read_back(assignments: Seq<(Seq<char>, u128)>)
    requires
        registry_rows(assignments) is Ok,
        all_distinct(assignments),
    ensures
        registry_of(unlines(registry_rows(assignments)->Ok_0)) == Ok::<
            Seq<(Seq<char>, u128)>,
            RegistryProblem,
        >(assignments),
{
    let rows = registry_rows(assignments)->Ok_0;
    lemma_registry_rows(assignments);
    reveal_strlit("#anonymous_set_id\tscryfall_set_id");
    assert(fits_line(rows[0])) by {
        assert(lacks(rows[0], '\n'));
    }
    lemma_lines_unlines(rows);
}

proof fn lemma_registry_rows(assignments: Seq<(Seq<char>, u128)>)
    requires
        registry_rows(assignments) is Ok,
        all_distinct(assignments),
    ensures
        ({
            let rows = registry_rows(assignments)->Ok_0;
            &&& rows.len() == assignments.len() + 1
            &&& rows[0] == SET_REGISTRY_HEADER@
            &&& forall|i: int| 1 <= i < rows.len() ==> fits_line(#[trigger] rows[i])
            &&& assignments_of(rows.drop_first()) == Ok::<
                Seq<(Seq<char>, u128)>,
                RegistryProblem,
            >(assignments)
        }),
    decreases assignments.len(),
{
    let rows = registry_rows(assignments)->Ok_0;
    if assignments.len() == 0 {
        assert(rows.drop_first() =~= Seq::empty());
        assert(assignments =~= Seq::empty());
    } else {
        let earlier = assignments.drop_last();
        assert(all_distinct(earlier)) by {
            assert forall|i: int, j: int| 0 <= i < j < earlier.len() implies (
            #[trigger] earlier[i]).0 != (#[trigger] earlier[j]).0 && earlier[i].1
                != earlier[j].1 by {
                assert(assignments[i].0 != assignments[j].0);
            }
        }
        lemma_registry_rows(earlier);
        let (id, set) = assignments.last();
        let row = registry_row((id, set));
        lemma_set_id_chars(id);
        lemma_hyphenated_chars(set as nat);
        law_hyphenated_reads_back(set);
        let form = hyphenated_text(set as nat);
        let tab = id.len() as int;
        assert(row[tab] == '\t');
        assert forall|j: int| 0 <= j < tab implies row[j] != '\t' by {
            assert(row[j] == id[j]);
        }
        lemma_find_char_is(row, '\t', tab);
        assert(row.take(tab) =~= id);
        assert(row.skip(tab + 1) =~= form);
        assert(fits_line(row)) by {
            assert forall|i: int| 0 <= i < row.len() implies #[trigger] row[i] != '\n' by {
                if i < tab {
                    assert(row[i] == id[i]);
                } else if i > tab {
                    assert(row[i] == form[i - tab - 1]);
                }
            }
            assert(row.last() == form[35]);
        }
        assert(!has_anonymous_id(earlier, id)) by {
            assert forall|i: int| 0 <= i < earlier.len() implies (#[trigger] earlier[i]).0 != id by {
                assert(assignments[i].0 != assignments[assignments.len() - 1].0);
            }
        }
        assert(!has_set(earlier, set)) by {
            assert forall|i: int| 0 <= i < earlier.len() implies (#[trigger] earlier[i]).1 != set by {
                assert(assignments[i].0 != assignments[assignments.len() - 1].0);
            }
        }
        assert(assignment_of(row, earlier) == Ok::<(Seq<char>, u128), RegistryLineProblem>(
            (id, set),
        ));
        let before = registry_rows(earlier)->Ok_0;
        assert(rows =~= before.push(row));
        assert(rows.drop_first().drop_last() =~= before.drop_first());
        assert(rows.drop_first().last() == row);
        assert(earlier.push((id, set)) =~= assignments);
        assert forall|i: int| 1 <= i < rows.len() implies fits_line(#[trigger] rows[i]) by {
            if i < before.len() {
                assert(rows[i] == before[i]);
            }
        }
    }
}

} // verus!
