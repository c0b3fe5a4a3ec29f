//! Which sets get new anonymous IDs, in which order, and which IDs they get.

use vstd::prelude::*;

use crate::maps::in_text_order;
use crate::order::{lemma_text_less_irreflexive, lemma_text_less_total, text_less};
use crate::registry::{
    assigned, assigned_sets, by_release, has_set, needed_codes, next_of, next_ordinals, numbered,
    placed, released_before, unassigned, Numbering,
};
use crate::registry_laws::{
    all_distinct, law_assigning_again_changes_nothing, law_new_set_ids_are_new,
    law_new_sets_are_numbered_by_release, lemma_codes_in_order, lemma_numbered_extends,
};
use crate::set_ids::{law_set_ids_read_back, lemma_set_id_bounds, set_id, set_id_of, year_of};
use crate::sets::SetInfo;
use crate::source_catalog::Card;

verus! {

/// The sets that get a new anonymous ID, in the order in which they get it.
pub open spec fn new_sets(
    cards: Seq<Card>,
    sets: Map<Seq<char>, SetInfo>,
    assignments: Seq<(Seq<char>, u128)>,
) -> Seq<SetInfo> {
    by_release(
        unassigned(
            in_text_order(needed_codes(cards)),
            sets,
            assigned_sets(assignments),
        )->Ok_0,
    )
}

/// Whether the set is that of one of the cards.
pub open spec fn is_needed(cards: Seq<Card>, sets: Map<Seq<char>, SetInfo>, set: u128) -> bool {
    exists|i: int|
        0 <= i < cards.len() && sets.dom().contains((#[trigger] cards[i]).set_code)
            && sets[cards[i].set_code].set_id == set
}

proof fn lemma_needed_card(cards: Seq<Card>, code: Seq<char>) -> (at: int)
    requires
        needed_codes(cards).contains(code),
    ensures
        0 <= at < cards.len(),
        cards[at].set_code == code,
    decreases cards.len(),
{
    if cards.last().set_code == code {
        cards.len() - 1
    } else {
        let at = lemma_needed_card(cards.drop_last(), code);
        assert(cards.drop_last()[at] == cards[at]);
        at
    }
}

/// An unassigned set stands under one of the codes and has no assignment.
proof fn lemma_unassigned_member(
    codes: Seq<Seq<char>>,
    sets: Map<Seq<char>, SetInfo>,
    known: Set<u128>,
    at: int,
) -> (place: int)
    requires
        unassigned(codes, sets, known) is Ok,
        0 <= at < unassigned(codes, sets, known)->Ok_0.len(),
    ensures
        at <= place < codes.len(),
        sets.dom().contains(codes[place]),
        sets[codes[place]] == unassigned(codes, sets, known)->Ok_0[at],
        !known.contains(sets[codes[place]].set_id),
    decreases codes.len(),
{
    let earlier = unassigned(codes.drop_last(), sets, known)->Ok_0;
    if at < earlier.len() {
        let place = lemma_unassigned_member(codes.drop_last(), sets, known, at);
        assert(codes.drop_last()[place] == codes[place]);
        place
    } else {
        lemma_unassigned_count(codes.drop_last(), sets, known);
        codes.len() - 1
    }
}

proof fn lemma_unassigned_count(
    codes: Seq<Seq<char>>,
    sets: Map<Seq<char>, SetInfo>,
    known: Set<u128>,
)
    requires
        unassigned(codes, sets, known) is Ok,
    ensures
        unassigned(codes, sets, known)->Ok_0.len() <= codes.len(),
    decreases codes.len(),
{
    if codes.len() > 0 {
        lemma_unassigned_count(codes.drop_last(), sets, known);
    }
}

/// Whether no two of the sets are one.
spec fn distinct_infos(list: Seq<SetInfo>) -> bool {
    forall|i: int, j: int|
        0 <= i < j < list.len() ==> (#[trigger] list[i]).set_id != (#[trigger] list[j]).set_id
}

proof fn lemma_placed_members(list: Seq<SetInfo>, set: SetInfo)
    ensures
        placed(list, set).len() == list.len() + 1,
        forall|i: int|
            0 <= i < placed(list, set).len() ==> #[trigger] placed(list, set)[i] == set
                || list.contains(placed(list, set)[i]),
        distinct_infos(list) && (forall|i: int|
            0 <= i < list.len() ==> (#[trigger] list[i]).set_id != set.set_id) ==> distinct_infos(
            placed(list, set),
        ),
    decreases list.len(),
{
    let out = placed(list, set);
    let fresh = distinct_infos(list) && (forall|i: int|
        0 <= i < list.len() ==> (#[trigger] list[i]).set_id != set.set_id);
    if list.len() > 0 && released_before(set, list.last()) {
        let front = list.drop_last();
        let inner = placed(front, set);
        lemma_placed_members(front, set);
        assert forall|i: int| 0 <= i < out.len() implies #[trigger] out[i] == set || list.contains(
            out[i],
        ) by {
            if i < inner.len() {
                assert(out[i] == inner[i]);
                if inner[i] != set {
                    let k = choose|k: int| 0 <= k < front.len() && front[k] == inner[i];
                    assert(list[k] == out[i]);
                }
            } else {
                assert(list[list.len() - 1] == out[i]);
            }
        }
        if fresh {
            assert(distinct_infos(front)) by {
                assert forall|i: int, j: int| 0 <= i < j < front.len() implies (
                #[trigger] front[i]).set_id != (#[trigger] front[j]).set_id by {
                    assert(list[i].set_id != list[j].set_id);
                }
            }
            assert forall|i: int| 0 <= i < front.len() implies (#[trigger] front[i]).set_id
                != set.set_id by {
                assert(front[i] == list[i]);
            }
            assert forall|i: int, j: int| 0 <= i < j < out.len() implies (
            #[trigger] out[i]).set_id != (#[trigger] out[j]).set_id by {
                assert(out[i] == inner[i]);
                if j < inner.len() {
                    assert(out[j] == inner[j]);
                } else {
                    assert(out[j] == list[list.len() - 1]);
                    if inner[i] != set {
                        let k = choose|k: int| 0 <= k < front.len() && front[k] == inner[i];
                        assert(list[k].set_id != list[list.len() - 1].set_id);
                    }
                }
            }
        }
    } else {
        assert forall|i: int| 0 <= i < out.len() implies #[trigger] out[i] == set || list.contains(
            out[i],
        ) by {
            if i < list.len() {
                assert(list[i] == out[i]);
            }
        }
    }
}

/// Putting sets in the order of their release adds none and loses none.
proof fn lemma_by_release_members(list: Seq<SetInfo>)
    ensures
        by_release(list).len() == list.len(),
        forall|i: int|
            0 <= i < by_release(list).len() ==> list.contains(#[trigger] by_release(list)[i]),
        distinct_infos(list) ==> distinct_infos(by_release(list)),
    decreases list.len(),
{
    if list.len() > 0 {
        let front = list.drop_last();
        let set = list.last();
        let earlier = by_release(front);
        let out = by_release(list);
        lemma_by_release_members(front);
        lemma_placed_members(earlier, set);
        assert forall|i: int| 0 <= i < out.len() implies list.contains(#[trigger] out[i]) by {
            if out[i] == set {
                assert(list[list.len() - 1] == out[i]);
            } else {
                let k = choose|k: int| 0 <= k < earlier.len() && earlier[k] == out[i];
                let m = choose|m: int| 0 <= m < front.len() && front[m] == earlier[k];
                assert(list[m] == out[i]);
            }
        }
        if distinct_infos(list) {
            assert forall|i: int, j: int| 0 <= i < j < front.len() implies (
            #[trigger] front[i]).set_id != (#[trigger] front[j]).set_id by {
                assert(list[i].set_id != list[j].set_id);
            }
            assert forall|i: int| 0 <= i < earlier.len() implies (#[trigger] earlier[i]).set_id
                != set.set_id by {
                let k = choose|k: int| 0 <= k < front.len() && front[k] == earlier[i];
                assert(list[k].set_id != list[list.len() - 1].set_id);
            }
        }
    }
}

/// What the outcome of a run adds to the assignments that there were.
proof fn lemma_added(
    cards: Seq<Card>,
    sets: Map<Seq<char>, SetInfo>,
    assignments: Seq<(Seq<char>, u128)>,
)
    requires
        assigned(cards, sets, assignments) is Ok,
    ensures
        ({
            let out = assigned(cards, sets, assignments)->Ok_0;
            let order = new_sets(cards, sets, assignments);
            &&& out.len() == assignments.len() + order.len()
            &&& out.take(assignments.len() as int) == assignments
            &&& forall|i: int|
                0 <= i < order.len() ==> (#[trigger] out[assignments.len() + i]).1
                    == order[i].set_id
        }),
{
    let next = next_ordinals(assignments)->Ok_0;
    lemma_numbered_extends(
        Numbering { next, assignments },
        new_sets(cards, sets, assignments),
    );
}

/// Every new assignment is the set of one of the cards, and that set had none
/// before.
pub proof fn law_only_needed_sets_are_assigned(
    cards: Seq<Card>,
    sets: Map<Seq<char>, SetInfo>,
    assignments: Seq<(Seq<char>, u128)>,
    at: int,
)
    requires
        assigned(cards, sets, assignments) is Ok,
        assignments.len() <= at < assigned(cards, sets, assignments)->Ok_0.len(),
    ensures
        is_needed(cards, sets, assigned(cards, sets, assignments)->Ok_0[at].1),
        !has_set(assignments, assigned(cards, sets, assignments)->Ok_0[at].1),
{
    let codes = in_text_order(needed_codes(cards));
    let known = assigned_sets(assignments);
    let list = unassigned(codes, sets, known)->Ok_0;
    let order = new_sets(cards, sets, assignments);
    let i = at - assignments.len();
    let out = assigned(cards, sets, assignments)->Ok_0;
    lemma_added(cards, sets, assignments);
    assert(out[assignments.len() + i].1 == order[i].set_id);
    lemma_by_release_members(list);
    assert(list.contains(order[i]));
    let k = choose|k: int| 0 <= k < list.len() && list[k] == order[i];
    let place = lemma_unassigned_member(codes, sets, known, k);
    lemma_codes_in_order(cards);
    assert(codes.to_set().contains(codes[place]));
    let card = lemma_needed_card(cards, codes[place]);
    assert(sets.dom().contains(cards[card].set_code));
}

/// Whether different codes stand for different sets.
pub open spec fn distinct_sets(sets: Map<Seq<char>, SetInfo>) -> bool {
    forall|left: Seq<char>, right: Seq<char>|
        #![trigger sets.dom().contains(left), sets.dom().contains(right)]
        sets.dom().contains(left) && sets.dom().contains(right) && left != right
            ==> sets[left].set_id != sets[right].set_id
}

/// Whether every set stands under its own code.
pub open spec fn own_codes(sets: Map<Seq<char>, SetInfo>) -> bool {
    forall|code: Seq<char>| #[trigger] sets.dom().contains(code) ==> sets[code].code == code
}

proof fn lemma_unassigned_distinct(
    codes: Seq<Seq<char>>,
    sets: Map<Seq<char>, SetInfo>,
    known: Set<u128>,
)
    requires
        unassigned(codes, sets, known) is Ok,
        distinct_sets(sets),
        codes.no_duplicates(),
    ensures
        distinct_infos(unassigned(codes, sets, known)->Ok_0),
    decreases codes.len(),
{
    if codes.len() > 0 {
        let front = codes.drop_last();
        let earlier = unassigned(front, sets, known)->Ok_0;
        let all = unassigned(codes, sets, known)->Ok_0;
        assert(front.no_duplicates()) by {
            assert forall|i: int, j: int|
                0 <= i < front.len() && 0 <= j < front.len() && i != j implies front[i]
                != front[j] by {
                assert(codes[i] != codes[j]);
            }
        }
        lemma_unassigned_distinct(front, sets, known);
        assert forall|i: int, j: int| 0 <= i < j < all.len() implies (#[trigger] all[i]).set_id
            != (#[trigger] all[j]).set_id by {
            assert(all[i] == earlier[i]);
            if j < earlier.len() {
                assert(all[j] == earlier[j]);
            } else {
                let place = lemma_unassigned_member(front, sets, known, i);
                assert(front[place] == codes[place]);
                assert(codes[place] != codes[codes.len() - 1]);
                assert(sets.dom().contains(codes[place]));
                assert(sets.dom().contains(codes.last()));
            }
        }
    }
}

proof fn lemma_codes_distinct(cards: Seq<Card>)
    ensures
        in_text_order(needed_codes(cards)).no_duplicates(),
{
    let codes = in_text_order(needed_codes(cards));
    lemma_codes_in_order(cards);
    assert forall|i: int, j: int|
        0 <= i < codes.len() && 0 <= j < codes.len() && i != j implies codes[i] != codes[j] by {
        if i < j {
            assert(text_less(codes[i], codes[j]));
        } else {
            assert(text_less(codes[j], codes[i]));
        }
        lemma_text_less_irreflexive(codes[i]);
    }
}

proof fn lemma_new_sets_distinct(
    cards: Seq<Card>,
    sets: Map<Seq<char>, SetInfo>,
    assignments: Seq<(Seq<char>, u128)>,
)
    requires
        assigned(cards, sets, assignments) is Ok,
        distinct_sets(sets),
    ensures
        distinct_infos(new_sets(cards, sets, assignments)),
{
    let codes = in_text_order(needed_codes(cards));
    let known = assigned_sets(assignments);
    lemma_codes_distinct(cards);
    lemma_unassigned_distinct(codes, sets, known);
    lemma_by_release_members(unassigned(codes, sets, known)->Ok_0);
}

/// Where no anonymous ID and no set stood twice, none does afterwards, as long
/// as different codes stand for different sets.
pub proof fn law_assignments_stay_distinct(
    cards: Seq<Card>,
    sets: Map<Seq<char>, SetInfo>,
    assignments: Seq<(Seq<char>, u128)>,
)
    requires
        assigned(cards, sets, assignments) is Ok,
        distinct_sets(sets),
        all_distinct(assignments),
    ensures
        all_distinct(assigned(cards, sets, assignments)->Ok_0),
{
    let out = assigned(cards, sets, assignments)->Ok_0;
    let order = new_sets(cards, sets, assignments);
    let start = assignments.len() as int;
    lemma_added(cards, sets, assignments);
    lemma_new_sets_distinct(cards, sets, assignments);
    assert forall|i: int, j: int| 0 <= i < j < out.len() implies (#[trigger] out[i]).0 != (
    #[trigger] out[j]).0 && out[i].1 != out[j].1 by {
        if j < start {
            assert(out.take(start)[i] == out[i]);
            assert(out.take(start)[j] == out[j]);
            assert(assignments[i].0 != assignments[j].0);
        } else {
            law_new_set_ids_are_new(cards, sets, assignments, i, j);
            assert(out[start + (j - start)].1 == order[j - start].set_id);
            if i < start {
                assert(out.take(start)[i] == out[i]);
                law_only_needed_sets_are_assigned(cards, sets, assignments, j);
                assert(assignments[i].1 == out[i].1);
            } else {
                assert(out[start + (i - start)].1 == order[i - start].set_id);
                assert(order[i - start].set_id != order[j - start].set_id);
            }
        }
    }
}

/// New assignments come in the order of the sets' release, and sets of one day
/// in the order of their codes, as long as every set stands under its own code
/// and different codes stand for different sets.
pub proof fn law_new_assignments_are_in_release_order(
    cards: Seq<Card>,
    sets: Map<Seq<char>, SetInfo>,
    assignments: Seq<(Seq<char>, u128)>,
    first: int,
    second: int,
)
    requires
        assigned(cards, sets, assignments) is Ok,
        distinct_sets(sets),
        own_codes(sets),
        0 <= first < second < new_sets(cards, sets, assignments).len(),
    ensures
        ({
            let out = assigned(cards, sets, assignments)->Ok_0;
            let order = new_sets(cards, sets, assignments);
            &&& out.len() == assignments.len() + order.len()
            &&& out[assignments.len() + first].1 == order[first].set_id
            &&& out[assignments.len() + second].1 == order[second].set_id
            &&& released_before(order[first], order[second])
        }),
{
    let codes = in_text_order(needed_codes(cards));
    let known = assigned_sets(assignments);
    let list = unassigned(codes, sets, known)->Ok_0;
    let order = new_sets(cards, sets, assignments);
    lemma_added(cards, sets, assignments);
    lemma_new_sets_distinct(cards, sets, assignments);
    law_new_sets_are_numbered_by_release(list);
    lemma_by_release_members(list);
    assert(!released_before(order[second], order[first]));
    assert(order[first].set_id != order[second].set_id);
    assert(list.contains(order[first]));
    assert(list.contains(order[second]));
    let i = choose|i: int| 0 <= i < list.len() && list[i] == order[first];
    let j = choose|j: int| 0 <= j < list.len() && list[j] == order[second];
    let left = lemma_unassigned_member(codes, sets, known, i);
    let right = lemma_unassigned_member(codes, sets, known, j);
    assert(order[first].code == codes[left]);
    assert(order[second].code == codes[right]);
    lemma_text_less_total(order[first].released_at, order[second].released_at);
    lemma_text_less_total(order[first].code, order[second].code);
}

/// The first free ordinal of a year: one more than the greatest that the
/// assignments use, or zero where they use none.
pub open spec fn is_first_free(
    assignments: Seq<(Seq<char>, u128)>,
    year: nat,
    ordinal: nat,
) -> bool {
    &&& forall|i: int|
        0 <= i < assignments.len() && (set_id_of((#[trigger] assignments[i]).0)->Ok_0).0 == year
            ==> (set_id_of(assignments[i].0)->Ok_0).1 < ordinal
    &&& ordinal > 0 ==> exists|i: int|
        0 <= i < assignments.len() && (set_id_of((#[trigger] assignments[i]).0)->Ok_0).0 == year
            && (set_id_of(assignments[i].0)->Ok_0).1 + 1 == ordinal
}

/// The number of sets that were released in the year.
pub open spec fn released_in(sets: Seq<SetInfo>, year: nat) -> nat
    decreases sets.len(),
{
    if sets.len() == 0 {
        0
    } else {
        released_in(sets.drop_last(), year) + (if year_of(sets.last().released_at)->Ok_0 == year {
            1nat
        } else {
            0nat
        })
    }
}

proof fn lemma_first_free(assignments: Seq<(Seq<char>, u128)>, year: u16)
    requires
        next_ordinals(assignments) is Ok,
    ensures
        is_first_free(
            assignments,
            year as nat,
            next_of(next_ordinals(assignments)->Ok_0, year),
        ),
    decreases assignments.len(),
{
    if assignments.len() > 0 {
        let front = assignments.drop_last();
        let before = next_of(next_ordinals(front)->Ok_0, year);
        let after = next_of(next_ordinals(assignments)->Ok_0, year);
        let (last_year, last_ordinal) = set_id_of(assignments.last().0)->Ok_0;
        lemma_first_free(front, year);
        lemma_set_id_bounds(assignments.last().0);
        assert((last_year as u16) as nat == last_year);
        assert forall|i: int|
            0 <= i < assignments.len() && (set_id_of((#[trigger] assignments[i]).0)->Ok_0).0
                == year as nat implies (set_id_of(assignments[i].0)->Ok_0).1 < after by {
            if i < front.len() {
                assert(front[i] == assignments[i]);
            }
        }
        if after > 0 {
            if after == before {
                let i = choose|i: int|
                    0 <= i < front.len() && (set_id_of((#[trigger] front[i]).0)->Ok_0).0
                        == year as nat && (set_id_of(front[i].0)->Ok_0).1 + 1 == before;
                assert(front[i] == assignments[i]);
            } else {
                let last = assignments.len() - 1;
                assert((set_id_of(assignments[last].0)->Ok_0).0 == year as nat);
            }
        }
    }
}

proof fn lemma_year_bound(released_at: Seq<char>)
    requires
        year_of(released_at) is Ok,
    ensures
        year_of(released_at)->Ok_0 <= u16::MAX,
{
}

/// The next ordinals after a numbering count the sets of each year.
proof fn lemma_numbered_counts(start: Numbering, sets: Seq<SetInfo>, year: u16)
    requires
        numbered(start, sets) is Ok,
    ensures
        next_of(numbered(start, sets)->Ok_0.next, year) == next_of(start.next, year) + released_in(
            sets,
            year as nat,
        ),
        forall|i: int| 0 <= i < sets.len() ==> year_of((#[trigger] sets[i]).released_at) is Ok,
    decreases sets.len(),
{
    if sets.len() > 0 {
        lemma_numbered_counts(start, sets.drop_last(), year);
        lemma_year_bound(sets.last().released_at);
        assert forall|i: int| 0 <= i < sets.len() implies year_of(
            (#[trigger] sets[i]).released_at,
        ) is Ok by {
            if i < sets.len() - 1 {
                assert(sets.drop_last()[i] == sets[i]);
            }
        }
    }
}

proof fn lemma_numbered_id(start: Numbering, sets: Seq<SetInfo>, at: int)
    requires
        numbered(start, sets) is Ok,
        0 <= at < sets.len(),
    ensures
        year_of(sets[at].released_at) is Ok,
        ({
            let year = year_of(sets[at].released_at)->Ok_0;
            numbered(start, sets)->Ok_0.assignments[start.assignments.len() + at].0 == set_id(
                year,
                next_of(start.next, year as u16) + released_in(sets.take(at), year),
            )
        }),
    decreases sets.len(),
{
    let front = sets.drop_last();
    lemma_numbered_extends(start, front);
    lemma_numbered_extends(start, sets);
    if at < front.len() {
        lemma_numbered_id(start, front, at);
        assert(front[at] == sets[at]);
        assert(front.take(at) =~= sets.take(at));
        let earlier = numbered(start, front)->Ok_0.assignments;
        let all = numbered(start, sets)->Ok_0.assignments;
        assert(all[start.assignments.len() + at] == earlier[start.assignments.len() + at]);
    } else {
        let year = year_of(sets[at].released_at)->Ok_0;
        lemma_year_bound(sets[at].released_at);
        lemma_numbered_counts(start, front, year as u16);
        assert(sets.take(at) =~= front);
    }
}

/// The new IDs of a year are consecutive: they begin right after the greatest
/// ordinal that was in use, or at zero, and go on by one from set to set, so
/// that a gap is never filled.
pub proof fn law_new_ordinals_are_consecutive(
    cards: Seq<Card>,
    sets: Map<Seq<char>, SetInfo>,
    assignments: Seq<(Seq<char>, u128)>,
    at: int,
) -> (first: nat)
    requires
        assigned(cards, sets, assignments) is Ok,
        0 <= at < new_sets(cards, sets, assignments).len(),
    ensures
        ({
            let out = assigned(cards, sets, assignments)->Ok_0;
            let order = new_sets(cards, sets, assignments);
            let year = year_of(order[at].released_at)->Ok_0;
            &&& out.len() == assignments.len() + order.len()
            &&& year_of(order[at].released_at) is Ok
            &&& is_first_free(assignments, year, first)
            &&& out[assignments.len() + at] == (
                set_id(year, first + released_in(order.take(at), year)),
                order[at].set_id,
            )
        }),
{
    let next = next_ordinals(assignments)->Ok_0;
    let order = new_sets(cards, sets, assignments);
    let start = Numbering { next, assignments };
    lemma_added(cards, sets, assignments);
    lemma_numbered_id(start, order, at);
    let year = year_of(order[at].released_at)->Ok_0;
    lemma_year_bound(order[at].released_at);
    lemma_first_free(assignments, year as u16);
    assert((year as u16) as nat == year);
    next_of(next, year as u16)
}

proof fn lemma_released_in_bound(sets: Seq<SetInfo>, year: nat)
    ensures
        released_in(sets, year) <= sets.len(),
    decreases sets.len(),
{
    if sets.len() > 0 {
        lemma_released_in_bound(sets.drop_last(), year);
    }
}

proof fn lemma_all_readable(assignments: Seq<(Seq<char>, u128)>)
    ensures
        next_ordinals(assignments) is Ok <==> forall|i: int|
            0 <= i < assignments.len() ==> set_id_of((#[trigger] assignments[i]).0) is Ok,
    decreases assignments.len(),
{
    if assignments.len() > 0 {
        let front = assignments.drop_last();
        lemma_all_readable(front);
        if next_ordinals(assignments) is Ok {
            assert forall|i: int| 0 <= i < assignments.len() implies set_id_of(
                (#[trigger] assignments[i]).0,
            ) is Ok by {
                if i < front.len() {
                    assert(front[i] == assignments[i]);
                }
            }
        }
        if forall|i: int|
            0 <= i < assignments.len() ==> set_id_of((#[trigger] assignments[i]).0) is Ok {
            assert forall|i: int| 0 <= i < front.len() implies set_id_of(
                (#[trigger] front[i]).0,
            ) is Ok by {
                assert(front[i] == assignments[i]);
            }
            assert(set_id_of(assignments[assignments.len() - 1].0) is Ok);
        }
    }
}

/// Whether every set was released in a year of four digits.
pub open spec fn four_digit_years(sets: Seq<SetInfo>) -> bool {
    forall|i: int|
        0 <= i < sets.len() ==> 1000 <= year_of((#[trigger] sets[i]).released_at)->Ok_0 <= 9999
}

/// Whether the ordinals in use leave room for so many more.
pub open spec fn has_room(assignments: Seq<(Seq<char>, u128)>, count: nat) -> bool {
    &&& count < usize::MAX
    &&& forall|i: int|
        0 <= i < assignments.len() ==> (set_id_of((#[trigger] assignments[i]).0)->Ok_0).1 + count
            < usize::MAX
}

/// Where the new sets were released in years of four digits and their ordinals
/// fit, a second run on the outcome of a first one changes nothing.
pub proof fn law_runs_settle_at_once(
    cards: Seq<Card>,
    sets: Map<Seq<char>, SetInfo>,
    assignments: Seq<(Seq<char>, u128)>,
)
    requires
        assigned(cards, sets, assignments) is Ok,
        four_digit_years(new_sets(cards, sets, assignments)),
        has_room(assignments, new_sets(cards, sets, assignments).len()),
    ensures
        assigned(cards, sets, assigned(cards, sets, assignments)->Ok_0) == assigned(
            cards,
            sets,
            assignments,
        ),
{
    let order = new_sets(cards, sets, assignments);
    let out = assigned(cards, sets, assignments)->Ok_0;
    let start = assignments.len() as int;
    lemma_added(cards, sets, assignments);
    lemma_all_readable(assignments);
    assert forall|i: int| 0 <= i < out.len() implies set_id_of((#[trigger] out[i]).0) is Ok by {
        if i < start {
            assert(out.take(start)[i] == out[i]);
        } else {
            let at = i - start;
            let first = law_new_ordinals_are_consecutive(cards, sets, assignments, at);
            let year = year_of(order[at].released_at)->Ok_0;
            let before = order.take(at);
            lemma_released_in_bound(before, year);
            assert(out[start + at] == (
                set_id(year, first + released_in(before, year)),
                order[at].set_id,
            ));
            if first > 0 {
                let held = choose|held: int|
                    0 <= held < assignments.len() && (set_id_of(
                        (#[trigger] assignments[held]).0,
                    )->Ok_0).0 == year && (set_id_of(assignments[held].0)->Ok_0).1 + 1 == first;
                assert((set_id_of(assignments[held].0)->Ok_0).1 + order.len() < usize::MAX);
            }
            law_set_ids_read_back(year, first + released_in(before, year));
        }
    }
    lemma_all_readable(out);
    law_assigning_again_changes_nothing(cards, sets, assignments);
}

} // verus!
