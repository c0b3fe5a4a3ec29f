//! The registry of anonymous set IDs: an ID once given to a set is never
//! given to another and never changes.

use std::collections::{BTreeMap, BTreeSet};

use vstd::prelude::*;

use crate::maps::{in_text_order, TextMap};
use crate::numerals::append_decimal;
use crate::order::{less, text_less};
use crate::set_ids::{
    alpha_suffix, lemma_set_id_bounds, parse_anonymous_set_id, release_year, set_id, set_id_of,
    validate_anonymous_set_id, year_of, ReleaseDateError, SetIdError,
};
use crate::sets::{sets_view, SetInfo, SetMetadata};
use crate::source_catalog::{card_views, Card, CatalogRow};
use crate::text::{
    append_str, chars_of, halves, line_slices, lines, reads, same, split_once, string_of,
    string_views, unlines, views,
};
use crate::uuids::{hyphenated, hyphenated_text, parse_uuid, uuid_value, Uuid};

verus! {

broadcast use vstd::std_specs::btree::group_btree_axioms;

/// The first line of a registry.
pub const SET_REGISTRY_HEADER: &'static str = "#anonymous_set_id\tscryfall_set_id";

/// An anonymous ID and the set it was given to.
#[derive(Debug)]
pub struct SetAssignment {
    pub anonymous_id: String,
    pub set_id: Uuid,
}

impl View for SetAssignment {
    type V = (Seq<char>, u128);

    open spec fn view(&self) -> (Seq<char>, u128) {
        (self.anonymous_id@, self.set_id.0)
    }
}

/// The assignments as texts and numbers.
pub open spec fn assignment_views(assignments: Seq<SetAssignment>) -> Seq<(Seq<char>, u128)> {
    Seq::new(assignments.len(), |i: int| assignments[i]@)
}

/// What is wrong with a line of a registry.
#[derive(Clone, Copy, Debug, Eq, PartialEq, Structural)]
pub enum RegistryLineProblem {
    /// It has no tab.
    NoTab,
    /// Its set ID is no UUID.
    InvalidSetId,
    /// Its anonymous ID is none.
    InvalidAnonymousId(SetIdError),
    /// An earlier line has its anonymous ID or its set ID.
    Duplicate,
}

/// Why a registry cannot be read. Lines are counted from one.
#[derive(Clone, Copy, Debug, Eq, PartialEq, Structural)]
pub enum RegistryError {
    /// The first line is not the header.
    UnexpectedHeader,
    /// The line has a problem.
    Line { line: usize, problem: RegistryLineProblem },
}

/// Why a registry cannot be read, with the line as a number of any size.
pub enum RegistryProblem {
    UnexpectedHeader,
    Line { line: int, problem: RegistryLineProblem },
}

/// Whether one of the assignments has the anonymous ID.
pub open spec fn has_anonymous_id(assignments: Seq<(Seq<char>, u128)>, id: Seq<char>) -> bool {
    exists|i: int| 0 <= i < assignments.len() && (#[trigger] assignments[i]).0 == id
}

/// Whether one of the assignments has the set.
pub open spec fn has_set(assignments: Seq<(Seq<char>, u128)>, set: u128) -> bool {
    exists|i: int| 0 <= i < assignments.len() && (#[trigger] assignments[i]).1 == set
}

/// The assignment on a line, after the earlier ones.
pub open spec fn assignment_of(line: Seq<char>, earlier: Seq<(Seq<char>, u128)>) -> Result<
    (Seq<char>, u128),
    RegistryLineProblem,
> {
    match split_once(line, '\t') {
        None => Err(RegistryLineProblem::NoTab),
        Some((id, raw_set)) => match uuid_value(raw_set) {
            None => Err(RegistryLineProblem::InvalidSetId),
            Some(set) => match set_id_of(id) {
                Err(problem) => Err(RegistryLineProblem::InvalidAnonymousId(problem)),
                Ok(_) => if has_anonymous_id(earlier, id) || has_set(earlier, set as u128) {
                    Err(RegistryLineProblem::Duplicate)
                } else {
                    Ok((id, set as u128))
                },
            },
        },
    }
}

/// The assignments on the lines below the header, or the first problem.
pub open spec fn assignments_of(rows: Seq<Seq<char>>) -> Result<
    Seq<(Seq<char>, u128)>,
    RegistryProblem,
>
    decreases rows.len(),
{
    if rows.len() == 0 {
        Ok(Seq::empty())
    } else {
        match assignments_of(rows.drop_last()) {
            Err(problem) => Err(problem),
            Ok(earlier) => match assignment_of(rows.last(), earlier) {
                Ok(assignment) => Ok(earlier.push(assignment)),
                Err(problem) => Err(
                    RegistryProblem::Line { line: rows.len() as int + 1, problem },
                ),
            },
        }
    }
}

/// The assignments of a registry.
pub open spec fn registry_of(source: Seq<char>) -> Result<
    Seq<(Seq<char>, u128)>,
    RegistryProblem,
> {
    let rows = lines(source);
    if rows.len() == 0 || rows[0] != SET_REGISTRY_HEADER@ {
        Err(RegistryProblem::UnexpectedHeader)
    } else {
        assignments_of(rows.drop_first())
    }
}

proof fn lemma_first_problem(rows: Seq<Seq<char>>, count: int)
    requires
        0 <= count <= rows.len(),
        assignments_of(rows.take(count)) is Err,
    ensures
        assignments_of(rows) == assignments_of(rows.take(count)),
    decreases rows.len(),
{
    if count == rows.len() {
        assert(rows.take(count) =~= rows);
    } else {
        assert(rows.drop_last().take(count) =~= rows.take(count));
        lemma_first_problem(rows.drop_last(), count);
    }
}

/// Whether the error is what the problem says.
pub open spec fn tells(error: RegistryError, problem: RegistryProblem) -> bool {
    match (error, problem) {
        (RegistryError::UnexpectedHeader, RegistryProblem::UnexpectedHeader) => true,
        (
            RegistryError::Line { line, problem },
            RegistryProblem::Line { line: other_line, problem: other },
        ) => line == other_line && problem == other,
        _ => false,
    }
}

/// What the earlier lines hold.
struct Taken {
    ids: TextMap<()>,
    sets: BTreeSet<u128>,
}

/// Whether it is what the assignments hold.
spec fn is_taken(taken: Taken, assignments: Seq<(Seq<char>, u128)>) -> bool {
    &&& forall|id: Seq<char>| #[trigger]
        taken.ids@.dom().contains(id) <==> has_anonymous_id(assignments, id)
    &&& forall|set: u128| #[trigger] taken.sets@.contains(set) <==> has_set(assignments, set)
}

/// Reads a line that comes after what was taken.
fn read_assignment(line: &[char], taken: &mut Taken) -> (res: Result<
    SetAssignment,
    RegistryLineProblem,
>)
    ensures
        forall|earlier: Seq<(Seq<char>, u128)>| #[trigger]
            is_taken(*old(taken), earlier) ==> {
                match res {
                    Ok(assignment) => assignment_of(line@, earlier) == Ok::<
                        (Seq<char>, u128),
                        RegistryLineProblem,
                    >(assignment@) && is_taken(*final(taken), earlier.push(assignment@)),
                    Err(problem) => assignment_of(line@, earlier) == Err::<
                        (Seq<char>, u128),
                        RegistryLineProblem,
                    >(problem),
                }
            },
{
    let ghost start = *taken;
    let (id_chars, set_chars) = match halves(line, '\t') {
        Some(pair) => pair,
        None => {
            return Err(RegistryLineProblem::NoTab);
        },
    };
    let set_text = string_of(set_chars);
    let set = match parse_uuid(set_text.as_str()) {
        Some(set) => set,
        None => {
            return Err(RegistryLineProblem::InvalidSetId);
        },
    };
    let id = string_of(id_chars);
    match validate_anonymous_set_id(id.as_str()) {
        Ok(_) => {},
        Err(problem) => {
            return Err(RegistryLineProblem::InvalidAnonymousId(problem));
        },
    }
    let known = match taken.ids.get(id.as_str()) {
        Some(_) => true,
        None => false,
    };
    if known || taken.sets.contains(&set.0) {
        return Err(RegistryLineProblem::Duplicate);
    }
    taken.ids.insert(id.clone(), ());
    taken.sets.insert(set.0);
    let assignment = SetAssignment { anonymous_id: id, set_id: set };
    proof {
        assert forall|earlier: Seq<(Seq<char>, u128)>| #[trigger]
            is_taken(start, earlier) implies is_taken(*taken, earlier.push(assignment@)) by {
            let more = earlier.push(assignment@);
            assert(more[earlier.len() as int] == assignment@);
            assert forall|other: Seq<char>| #[trigger]
                taken.ids@.dom().contains(other) <==> has_anonymous_id(more, other) by {
                if has_anonymous_id(earlier, other) {
                    let i = choose|i: int|
                        0 <= i < earlier.len() && (#[trigger] earlier[i]).0 == other;
                    assert(more[i].0 == other);
                }
                if has_anonymous_id(more, other) && other != assignment@.0 {
                    let i = choose|i: int| 0 <= i < more.len() && (#[trigger] more[i]).0 == other;
                    assert(earlier[i].0 == other);
                }
                assert(start.ids@.dom().contains(other) == has_anonymous_id(earlier, other));
            }
            assert forall|other: u128| #[trigger] taken.sets@.contains(other) <==> has_set(
                more,
                other,
            ) by {
                if has_set(earlier, other) {
                    let i = choose|i: int|
                        0 <= i < earlier.len() && (#[trigger] earlier[i]).1 == other;
                    assert(more[i].1 == other);
                }
                if has_set(more, other) && other != assignment@.1 {
                    let i = choose|i: int| 0 <= i < more.len() && (#[trigger] more[i]).1 == other;
                    assert(earlier[i].1 == other);
                }
                assert(start.sets@.contains(other) == has_set(earlier, other));
            }
        }
    }
    Ok(assignment)
}

/// Reads a registry.
pub fn read_set_registry(source: &str) -> (res: Result<Vec<SetAssignment>, RegistryError>)
    ensures
        match res {
            Ok(assignments) => registry_of(source@) == Ok::<
                Seq<(Seq<char>, u128)>,
                RegistryProblem,
            >(assignment_views(assignments@)),
            Err(error) => registry_of(source@) is Err && tells(error, registry_of(source@)->Err_0),
        },
{
    let chars = chars_of(source);
    let rows = line_slices(chars.as_slice());
    let ghost all = lines(source@);
    if rows.len() == 0 {
        assert(all.len() == 0);
        return Err(RegistryError::UnexpectedHeader);
    }
    assert(all[0] == rows@[0]@);
    if !reads(rows[0], SET_REGISTRY_HEADER) {
        return Err(RegistryError::UnexpectedHeader);
    }
    let ghost below = all.drop_first();
    let mut assignments: Vec<SetAssignment> = Vec::new();
    let mut taken = Taken { ids: TextMap::new(), sets: BTreeSet::new() };
    let mut i: usize = 1;
    proof {
        assert(assignment_views(assignments@) =~= Seq::empty());
        assert(below.take(0) =~= Seq::empty());
        assert(is_taken(taken, assignment_views(assignments@)));
    }
    while i < rows.len()
        invariant
            1 <= i <= rows@.len(),
            all == views(rows@),
            all == lines(source@),
            all[0] == SET_REGISTRY_HEADER@,
            below == all.drop_first(),
            is_taken(taken, assignment_views(assignments@)),
            assignments_of(below.take(i - 1)) == Ok::<Seq<(Seq<char>, u128)>, RegistryProblem>(
                assignment_views(assignments@),
            ),
        decreases rows@.len() - i,
    {
        let row = rows[i];
        let ghost before = assignment_views(assignments@);
        proof {
            assert(below.take(i as int).drop_last() =~= below.take(i - 1));
            assert(below.take(i as int).last() == row@);
        }
        match read_assignment(row, &mut taken) {
            Ok(assignment) => {
                let ghost view = assignment@;
                assignments.push(assignment);
                assert(assignment_views(assignments@) =~= before.push(view));
            },
            Err(problem) => {
                proof {
                    lemma_first_problem(below, i as int);
                }
                return Err(RegistryError::Line { line: i + 1, problem });
            },
        }
        i += 1;
    }
    assert(below.take(below.len() as int) =~= below);
    Ok(assignments)
}

/// The codes of the cards' first sets.
pub open spec fn needed_codes(cards: Seq<Card>) -> Set<Seq<char>>
    decreases cards.len(),
{
    if cards.len() == 0 {
        Set::empty()
    } else {
        needed_codes(cards.drop_last()).insert(cards.last().set_code)
    }
}

/// The sets that the assignments hold.
pub open spec fn assigned_sets(assignments: Seq<(Seq<char>, u128)>) -> Set<u128> {
    Set::new(|set: u128| has_set(assignments, set))
}

/// The sets with the codes that have no assignment yet, or the first code
/// that stands for no set.
pub open spec fn unassigned(
    codes: Seq<Seq<char>>,
    sets: Map<Seq<char>, SetInfo>,
    assigned: Set<u128>,
) -> Result<Seq<SetInfo>, Seq<char>>
    decreases codes.len(),
{
    if codes.len() == 0 {
        Ok(Seq::empty())
    } else {
        match unassigned(codes.drop_last(), sets, assigned) {
            Err(code) => Err(code),
            Ok(earlier) => {
                let code = codes.last();
                if !sets.dom().contains(code) {
                    Err(code)
                } else if assigned.contains(sets[code].set_id) {
                    Ok(earlier)
                } else {
                    Ok(earlier.push(sets[code]))
                }
            },
        }
    }
}

/// Whether one set came out before the other, or on the same day and its code
/// comes first.
pub open spec fn released_before(left: SetInfo, right: SetInfo) -> bool {
    ||| text_less(left.released_at, right.released_at)
    ||| left.released_at == right.released_at && text_less(left.code, right.code)
}

/// The list with a set put behind all that do not come after it.
pub open spec fn placed(list: Seq<SetInfo>, set: SetInfo) -> Seq<SetInfo>
    decreases list.len(),
{
    if list.len() > 0 && released_before(set, list.last()) {
        placed(list.drop_last(), set).push(list.last())
    } else {
        list.push(set)
    }
}

/// The sets in the order of their release.
pub open spec fn by_release(list: Seq<SetInfo>) -> Seq<SetInfo>
    decreases list.len(),
{
    if list.len() == 0 {
        Seq::empty()
    } else {
        placed(by_release(list.drop_last()), list.last())
    }
}

/// The next free ordinal of a year.
pub open spec fn next_of(next: Map<u16, nat>, year: u16) -> nat {
    if next.dom().contains(year) {
        next[year]
    } else {
        0
    }
}

/// The larger of two numbers.
pub open spec fn larger(left: nat, right: nat) -> nat {
    if left < right {
        right
    } else {
        left
    }
}

/// The next free ordinal of each year after the assignments, or what is wrong
/// with the first anonymous ID that is none.
pub open spec fn next_ordinals(assignments: Seq<(Seq<char>, u128)>) -> Result<
    Map<u16, nat>,
    SetIdError,
>
    decreases assignments.len(),
{
    if assignments.len() == 0 {
        Ok(Map::empty())
    } else {
        match next_ordinals(assignments.drop_last()) {
            Err(problem) => Err(problem),
            Ok(next) => match set_id_of(assignments.last().0) {
                Err(problem) => Err(problem),
                Ok((year, ordinal)) => Ok(
                    next.insert(year as u16, larger(next_of(next, year as u16), ordinal + 1)),
                ),
            },
        }
    }
}

/// Assignments and the next free ordinals after them.
#[verifier::ext_equal]
pub struct Numbering {
    pub next: Map<u16, nat>,
    pub assignments: Seq<(Seq<char>, u128)>,
}

/// After the sets got the next free IDs of their years, or the first release
/// date without a year.
pub open spec fn numbered(start: Numbering, sets: Seq<SetInfo>) -> Result<
    Numbering,
    (Seq<char>, ReleaseDateError),
>
    decreases sets.len(),
{
    if sets.len() == 0 {
        Ok(start)
    } else {
        match numbered(start, sets.drop_last()) {
            Err(problem) => Err(problem),
            Ok(earlier) => {
                let set = sets.last();
                match year_of(set.released_at) {
                    Err(problem) => Err((set.released_at, problem)),
                    Ok(year) => {
                        let ordinal = next_of(earlier.next, year as u16);
                        Ok(
                            Numbering {
                                next: earlier.next.insert(year as u16, ordinal + 1),
                                assignments: earlier.assignments.push(
                                    (set_id(year, ordinal), set.set_id),
                                ),
                            },
                        )
                    },
                }
            },
        }
    }
}

/// Why sets cannot be assigned.
#[derive(Debug)]
pub enum AssignError {
    /// The code stands for no known set.
    NoMetadata(String),
    /// An assignment's anonymous ID is none.
    InvalidAssignment(SetIdError),
    /// A set's release date has no year.
    InvalidRelease { released_at: String, problem: ReleaseDateError },
}

/// Why sets cannot be assigned, as texts.
pub enum AssignProblem {
    NoMetadata(Seq<char>),
    InvalidAssignment(SetIdError),
    InvalidRelease(Seq<char>, ReleaseDateError),
}

/// What the error says.
pub open spec fn assign_problem(error: AssignError) -> AssignProblem {
    match error {
        AssignError::NoMetadata(code) => AssignProblem::NoMetadata(code@),
        AssignError::InvalidAssignment(problem) => AssignProblem::InvalidAssignment(problem),
        AssignError::InvalidRelease { released_at, problem } => AssignProblem::InvalidRelease(
            released_at@,
            problem,
        ),
    }
}

/// The assignments with those of the cards' sets that had none.
pub open spec fn assigned(
    cards: Seq<Card>,
    sets: Map<Seq<char>, SetInfo>,
    assignments: Seq<(Seq<char>, u128)>,
) -> Result<Seq<(Seq<char>, u128)>, AssignProblem> {
    let codes = in_text_order(needed_codes(cards));
    match unassigned(codes, sets, assigned_sets(assignments)) {
        Err(code) => Err(AssignProblem::NoMetadata(code)),
        Ok(new_sets) => match next_ordinals(assignments) {
            Err(problem) => Err(AssignProblem::InvalidAssignment(problem)),
            Ok(next) => match numbered(Numbering { next, assignments }, by_release(new_sets)) {
                Err((released_at, problem)) => Err(
                    AssignProblem::InvalidRelease(released_at, problem),
                ),
                Ok(numbering) => Ok(numbering.assignments),
            },
        },
    }
}

/// What the sets are.
pub open spec fn info_views(sets: Seq<SetMetadata>) -> Seq<SetInfo> {
    Seq::new(sets.len(), |i: int| sets[i]@)
}

/// The codes of the cards' first sets, in their order.
fn collect_codes(rows: &[CatalogRow]) -> (codes: Vec<String>)
    ensures
        string_views(codes@) == in_text_order(needed_codes(card_views(rows@))),
{
    let ghost cards = card_views(rows@);
    let mut codes: TextMap<()> = TextMap::new();
    let mut i: usize = 0;
    assert(cards.take(0) =~= Seq::empty());
    assert(codes@.dom() =~= needed_codes(cards.take(0)));
    while i < rows.len()
        invariant
            i <= rows@.len(),
            cards == card_views(rows@),
            codes@.dom() == needed_codes(cards.take(i as int)),
        decreases rows@.len() - i,
    {
        proof {
            assert(cards.take(i + 1).drop_last() =~= cards.take(i as int));
            assert(cards.take(i + 1).last() == rows@[i as int]@);
        }
        codes.insert(rows[i].publisher_set_code.clone(), ());
        assert(codes@.dom() =~= needed_codes(cards.take(i + 1)));
        i += 1;
    }
    assert(cards.take(cards.len() as int) =~= cards);
    codes.keys()
}

/// The sets that the assignments hold.
fn collect_assigned(assignments: &Vec<SetAssignment>) -> (sets: BTreeSet<u128>)
    ensures
        sets@ == assigned_sets(assignment_views(assignments@)),
{
    let ghost all = assignment_views(assignments@);
    let mut sets: BTreeSet<u128> = BTreeSet::new();
    let mut i: usize = 0;
    while i < assignments.len()
        invariant
            i <= assignments@.len(),
            all == assignment_views(assignments@),
            forall|set: u128| #[trigger]
                sets@.contains(set) <==> exists|j: int|
                    0 <= j < i && (#[trigger] all[j]).1 == set,
        decreases assignments@.len() - i,
    {
        let ghost before = sets@;
        sets.insert(assignments[i].set_id.0);
        proof {
            assert(all[i as int].1 == assignments@[i as int].set_id.0);
            assert forall|set: u128| #[trigger] sets@.contains(set) <==> exists|j: int|
                0 <= j < i + 1 && (#[trigger] all[j]).1 == set by {
                assert(sets@.contains(set) == (before.contains(set) || set == all[i as int].1));
            }
        }
        i += 1;
    }
    assert(sets@ =~= assigned_sets(all));
    sets
}

proof fn lemma_unassigned_error(
    codes: Seq<Seq<char>>,
    sets: Map<Seq<char>, SetInfo>,
    assigned: Set<u128>,
    count: int,
)
    requires
        0 <= count <= codes.len(),
        unassigned(codes.take(count), sets, assigned) is Err,
    ensures
        unassigned(codes, sets, assigned) == unassigned(codes.take(count), sets, assigned),
    decreases codes.len(),
{
    if count == codes.len() {
        assert(codes.take(count) =~= codes);
    } else {
        assert(codes.drop_last().take(count) =~= codes.take(count));
        lemma_unassigned_error(codes.drop_last(), sets, assigned, count);
    }
}

/// The sets with the codes that have no assignment yet, or the first code
/// that stands for no set.
fn collect_unassigned(
    codes: &Vec<String>,
    metadata: &TextMap<SetMetadata>,
    assigned: &BTreeSet<u128>,
) -> (res: Result<Vec<SetMetadata>, String>)
    ensures
        match res {
            Ok(new_sets) => unassigned(string_views(codes@), sets_view(*metadata), assigned@)
                == Ok::<Seq<SetInfo>, Seq<char>>(info_views(new_sets@)),
            Err(code) => unassigned(string_views(codes@), sets_view(*metadata), assigned@)
                == Err::<Seq<SetInfo>, Seq<char>>(code@),
        },
{
    let ghost all = string_views(codes@);
    let ghost sets = sets_view(*metadata);
    let mut new_sets: Vec<SetMetadata> = Vec::new();
    let mut i: usize = 0;
    assert(info_views(new_sets@) =~= Seq::empty());
    assert(all.take(0) =~= Seq::empty());
    while i < codes.len()
        invariant
            i <= codes@.len(),
            all == string_views(codes@),
            sets == sets_view(*metadata),
            unassigned(all.take(i as int), sets, assigned@) == Ok::<Seq<SetInfo>, Seq<char>>(
                info_views(new_sets@),
            ),
        decreases codes@.len() - i,
    {
        proof {
            assert(all.take(i + 1).drop_last() =~= all.take(i as int));
            assert(all.take(i + 1).last() == codes@[i as int]@);
        }
        match metadata.get(codes[i].as_str()) {
            Some(set) => {
                assert(sets[codes@[i as int]@] == set@);
                if !assigned.contains(&set.set_id.0) {
                    let ghost before = info_views(new_sets@);
                    let copy = SetMetadata {
                        set_id: set.set_id,
                        publisher_code: set.publisher_code.clone(),
                        released_at: set.released_at.clone(),
                    };
                    let ghost view = copy@;
                    assert(view =~= set@);
                    new_sets.push(copy);
                    assert(info_views(new_sets@) =~= before.push(view));
                }
            },
            None => {
                proof {
                    lemma_unassigned_error(all, sets, assigned@, i + 1);
                }
                return Err(codes[i].clone());
            },
        }
        i += 1;
    }
    assert(all.take(all.len() as int) =~= all);
    Ok(new_sets)
}

/// Whether one set came out before the other.
fn comes_first(left: &SetMetadata, right: &SetMetadata) -> (res: bool)
    ensures
        res == released_before(left@, right@),
{
    let left_date = chars_of(left.released_at.as_str());
    let right_date = chars_of(right.released_at.as_str());
    if less(left_date.as_slice(), right_date.as_slice()) {
        return true;
    }
    if !same(left_date.as_slice(), right_date.as_slice()) {
        return false;
    }
    let left_code = chars_of(left.publisher_code.as_str());
    let right_code = chars_of(right.publisher_code.as_str());
    less(left_code.as_slice(), right_code.as_slice())
}

/// Puts a set behind all that do not come after it.
fn place(list: &mut Vec<SetMetadata>, set: SetMetadata)
    ensures
        info_views(final(list)@) == placed(info_views(old(list)@), set@),
{
    let ghost all = info_views(list@);
    let ghost view = set@;
    let mut at: usize = list.len();
    assert(all.take(all.len() as int) =~= all);
    assert(placed(all, view) =~= placed(all.take(at as int), view) + all.skip(at as int));
    while at > 0 && comes_first(&set, &list[at - 1])
        invariant
            at <= list@.len(),
            all == info_views(list@),
            view == set@,
            placed(all, view) == placed(all.take(at as int), view) + all.skip(at as int),
        decreases at,
    {
        proof {
            let seen = all.take(at as int);
            assert(seen.drop_last() =~= all.take(at - 1));
            assert(seen.last() == list@[at - 1]@);
            assert(placed(seen.drop_last(), view).push(seen.last()) + all.skip(at as int)
                =~= placed(all.take(at - 1), view) + all.skip(at - 1));
        }
        at -= 1;
    }
    proof {
        let seen = all.take(at as int);
        if at > 0 {
            assert(seen.last() == list@[at - 1]@);
        }
        assert(placed(seen, view) == seen.push(view));
        assert(seen.push(view) + all.skip(at as int) =~= all.insert(at as int, view));
    }
    list.insert(at, set);
    assert(info_views(list@) =~= all.insert(at as int, view));
}

/// The sets in the order of their release.
fn sort_by_release(sets: Vec<SetMetadata>) -> (out: Vec<SetMetadata>)
    ensures
        info_views(out@) == by_release(info_views(sets@)),
{
    let ghost all = info_views(sets@);
    let mut out: Vec<SetMetadata> = Vec::new();
    assert(info_views(out@) =~= Seq::empty());
    assert(all.take(0) =~= Seq::empty());
    for set in it: sets
        invariant
            it.seq() == sets@,
            all == info_views(sets@),
            info_views(out@) == by_release(all.take(it.index())),
    {
        proof {
            assert(all.take(it.index() + 1).drop_last() =~= all.take(it.index()));
            assert(all.take(it.index() + 1).last() == set@);
        }
        place(&mut out, set);
    }
    assert(all.take(all.len() as int) =~= all);
    out
}

/// The counters as numbers of any size.
spec fn counters(next: Map<u16, u128>) -> Map<u16, nat> {
    next.map_values(|ordinal: u128| ordinal as nat)
}

/// Whether no counter is above the limit.
spec fn bounded(next: Map<u16, u128>, limit: int) -> bool {
    forall|year: u16| #[trigger] next.dom().contains(year) ==> next[year] <= limit
}

proof fn lemma_next_error(assignments: Seq<(Seq<char>, u128)>, count: int)
    requires
        0 <= count <= assignments.len(),
        next_ordinals(assignments.take(count)) is Err,
    ensures
        next_ordinals(assignments) == next_ordinals(assignments.take(count)),
    decreases assignments.len(),
{
    if count == assignments.len() {
        assert(assignments.take(count) =~= assignments);
    } else {
        assert(assignments.drop_last().take(count) =~= assignments.take(count));
        lemma_next_error(assignments.drop_last(), count);
    }
}

/// The next free ordinal of each year.
fn count_years(assignments: &Vec<SetAssignment>) -> (res: Result<BTreeMap<u16, u128>, SetIdError>)
    ensures
        match res {
            Ok(next) => next_ordinals(assignment_views(assignments@)) == Ok::<
                Map<u16, nat>,
                SetIdError,
            >(counters(next@)) && bounded(next@, usize::MAX as int),
            Err(problem) => next_ordinals(assignment_views(assignments@)) == Err::<
                Map<u16, nat>,
                SetIdError,
            >(problem),
        },
{
    let ghost all = assignment_views(assignments@);
    let mut next: BTreeMap<u16, u128> = BTreeMap::new();
    let mut i: usize = 0;
    assert(counters(next@) =~= Map::empty());
    assert(all.take(0) =~= Seq::empty());
    while i < assignments.len()
        invariant
            i <= assignments@.len(),
            all == assignment_views(assignments@),
            bounded(next@, usize::MAX as int),
            next_ordinals(all.take(i as int)) == Ok::<Map<u16, nat>, SetIdError>(counters(next@)),
        decreases assignments@.len() - i,
    {
        proof {
            assert(all.take(i + 1).drop_last() =~= all.take(i as int));
            assert(all.take(i + 1).last() == assignments@[i as int]@);
        }
        let (year, ordinal) = match parse_anonymous_set_id(assignments[i].anonymous_id.as_str()) {
            Ok(pair) => pair,
            Err(problem) => {
                proof {
                    lemma_next_error(all, i + 1);
                }
                return Err(problem);
            },
        };
        let ghost before = next@;
        proof {
            lemma_ordinal_fits(assignments@[i as int].anonymous_id@);
        }
        let after: u128 = ordinal as u128 + 1;
        let held: u128 = match next.get(&year) {
            Some(held) => *held,
            None => 0,
        };
        assert(held as nat == next_of(counters(before), year));
        let free: u128 = if held < after {
            after
        } else {
            held
        };
        next.insert(year, free);
        assert(counters(next@) =~= counters(before).insert(year, free as nat));
        i += 1;
    }
    assert(all.take(all.len() as int) =~= all);
    Ok(next)
}

/// An ordinal that was read is below the largest count.
proof fn lemma_ordinal_fits(id: Seq<char>)
    requires
        set_id_of(id) is Ok,
    ensures
        (set_id_of(id)->Ok_0).1 < usize::MAX,
        (set_id_of(id)->Ok_0).0 <= u16::MAX,
{
    lemma_set_id_bounds(id);
}

proof fn lemma_numbered_error(start: Numbering, sets: Seq<SetInfo>, count: int)
    requires
        0 <= count <= sets.len(),
        numbered(start, sets.take(count)) is Err,
    ensures
        numbered(start, sets) == numbered(start, sets.take(count)),
    decreases sets.len(),
{
    if count == sets.len() {
        assert(sets.take(count) =~= sets);
    } else {
        assert(sets.drop_last().take(count) =~= sets.take(count));
        lemma_numbered_error(start, sets.drop_last(), count);
    }
}

/// Gives the sets the next free IDs of their years.
#[verifier::loop_isolation(false)]
fn number_sets(
    assignments: &mut Vec<SetAssignment>,
    mut next: BTreeMap<u16, u128>,
    sets: &Vec<SetMetadata>,
) -> (res: Result<(), AssignError>)
    requires
        bounded(next@, usize::MAX as int),
    ensures
        ({
            let start = Numbering {
                next: counters(next@),
                assignments: assignment_views(old(assignments)@),
            };
            match res {
                Ok(_) => numbered(start, info_views(sets@)) is Ok && numbered(
                    start,
                    info_views(sets@),
                )->Ok_0.assignments == assignment_views(final(assignments)@),
                Err(error) => numbered(start, info_views(sets@)) is Err && assign_problem(error)
                    == AssignProblem::InvalidRelease(
                    (numbered(start, info_views(sets@))->Err_0).0,
                    (numbered(start, info_views(sets@))->Err_0).1,
                ),
            }
        }),
{
    let ghost all = info_views(sets@);
    let ghost start = Numbering {
        next: counters(next@),
        assignments: assignment_views(assignments@),
    };
    let mut i: usize = 0;
    assert(all.take(0) =~= Seq::empty());
    while i < sets.len()
        invariant
            i <= sets@.len(),
            all == info_views(sets@),
            bounded(next@, usize::MAX + i),
            numbered(start, all.take(i as int)) == Ok::<Numbering, (Seq<char>, ReleaseDateError)>(
                Numbering {
                    next: counters(next@),
                    assignments: assignment_views(assignments@),
                },
            ),
        decreases sets@.len() - i,
    {
        let set = &sets[i];
        let ghost before = next@;
        let ghost given = assignment_views(assignments@);
        proof {
            assert(all.take(i + 1).drop_last() =~= all.take(i as int));
            assert(all.take(i + 1).last() == set@);
        }
        let year: u16 = match release_year(set.released_at.as_str()) {
            Ok(year) => year,
            Err(problem) => {
                proof {
                    lemma_numbered_error(start, all, i + 1);
                }
                return Err(
                    AssignError::InvalidRelease {
                        released_at: set.released_at.clone(),
                        problem,
                    },
                );
            },
        };
        let ordinal: u128 = match next.get(&year) {
            Some(held) => *held,
            None => 0,
        };
        assert(ordinal as nat == next_of(counters(before), year));
        let mut id: Vec<char> = Vec::new();
        append_decimal(&mut id, year as u64);
        append_str(&mut id, alpha_suffix(ordinal).as_str());
        assert(id@ =~= set_id(year as nat, ordinal as nat));
        let assignment = SetAssignment {
            anonymous_id: string_of(id.as_slice()),
            set_id: set.set_id,
        };
        let ghost view = assignment@;
        assignments.push(assignment);
        let following: u128 = ordinal + 1;
        next.insert(year, following);
        proof {
            assert(assignment_views(assignments@) =~= given.push(view));
            assert(counters(next@) =~= counters(before).insert(year, following as nat));
        }
        i += 1;
    }
    assert(all.take(all.len() as int) =~= all);
    Ok(())
}

/// Gives each first set of the rows that has no anonymous ID yet the next free
/// one of its year, in the order of their release. The assignments that there
/// are stay as they are.
pub fn assign_sets(
    rows: &[CatalogRow],
    metadata: &TextMap<SetMetadata>,
    mut assignments: Vec<SetAssignment>,
) -> (res: Result<Vec<SetAssignment>, AssignError>)
    ensures
        match res {
            Ok(out) => assigned(
                card_views(rows@),
                sets_view(*metadata),
                assignment_views(assignments@),
            ) == Ok::<Seq<(Seq<char>, u128)>, AssignProblem>(assignment_views(out@)),
            Err(error) => assigned(
                card_views(rows@),
                sets_view(*metadata),
                assignment_views(assignments@),
            ) == Err::<Seq<(Seq<char>, u128)>, AssignProblem>(assign_problem(error)),
        },
{
    let codes = collect_codes(rows);
    let known = collect_assigned(&assignments);
    let new_sets = match collect_unassigned(&codes, metadata, &known) {
        Ok(new_sets) => new_sets,
        Err(code) => {
            return Err(AssignError::NoMetadata(code));
        },
    };
    let ordered = sort_by_release(new_sets);
    let next = match count_years(&assignments) {
        Ok(next) => next,
        Err(problem) => {
            return Err(AssignError::InvalidAssignment(problem));
        },
    };
    match number_sets(&mut assignments, next, &ordered) {
        Ok(_) => Ok(assignments),
        Err(error) => Err(error),
    }
}

/// The lines of a registry, or what is wrong with the first anonymous ID that
/// is none.
pub open spec fn registry_rows(assignments: Seq<(Seq<char>, u128)>) -> Result<
    Seq<Seq<char>>,
    SetIdError,
>
    decreases assignments.len(),
{
    if assignments.len() == 0 {
        Ok(seq![SET_REGISTRY_HEADER@])
    } else {
        match registry_rows(assignments.drop_last()) {
            Err(problem) => Err(problem),
            Ok(earlier) => match set_id_of(assignments.last().0) {
                Err(problem) => Err(problem),
                Ok(_) => Ok(earlier.push(registry_row(assignments.last()))),
            },
        }
    }
}

/// The line of an assignment.
pub open spec fn registry_row(assignment: (Seq<char>, u128)) -> Seq<char> {
    assignment.0 + seq!['\t'] + hyphenated_text(assignment.1 as nat)
}

proof fn lemma_rows_error(assignments: Seq<(Seq<char>, u128)>, count: int)
    requires
        0 <= count <= assignments.len(),
        registry_rows(assignments.take(count)) is Err,
    ensures
        registry_rows(assignments) == registry_rows(assignments.take(count)),
    decreases assignments.len(),
{
    if count == assignments.len() {
        assert(assignments.take(count) =~= assignments);
    } else {
        assert(assignments.drop_last().take(count) =~= assignments.take(count));
        lemma_rows_error(assignments.drop_last(), count);
    }
}

/// Writes a registry.
pub fn render_set_registry(assignments: &[SetAssignment]) -> (res: Result<String, SetIdError>)
    ensures
        match res {
            Ok(text) => registry_rows(assignment_views(assignments@)) is Ok && text@ == unlines(
                registry_rows(assignment_views(assignments@))->Ok_0,
            ),
            Err(problem) => registry_rows(assignment_views(assignments@)) == Err::<
                Seq<Seq<char>>,
                SetIdError,
            >(problem),
        },
{
    let ghost all = assignment_views(assignments@);
    let mut out = chars_of(SET_REGISTRY_HEADER);
    out.push('\n');
    let ghost mut rows: Seq<Seq<char>> = seq![SET_REGISTRY_HEADER@];
    let mut i: usize = 0;
    proof {
        assert(rows.drop_last() =~= Seq::empty());
        assert(unlines(rows.drop_last()) =~= Seq::empty());
        assert(out@ =~= unlines(rows));
        assert(all.take(0) =~= Seq::empty());
    }
    while i < assignments.len()
        invariant
            i <= assignments@.len(),
            all == assignment_views(assignments@),
            registry_rows(all.take(i as int)) == Ok::<Seq<Seq<char>>, SetIdError>(rows),
            out@ == unlines(rows),
        decreases assignments@.len() - i,
    {
        proof {
            assert(all.take(i + 1).drop_last() =~= all.take(i as int));
            assert(all.take(i + 1).last() == assignments@[i as int]@);
        }
        let assignment = &assignments[i];
        match validate_anonymous_set_id(assignment.anonymous_id.as_str()) {
            Ok(_) => {},
            Err(problem) => {
                proof {
                    lemma_rows_error(all, i + 1);
                }
                return Err(problem);
            },
        }
        let ghost before = out@;
        append_str(&mut out, assignment.anonymous_id.as_str());
        out.push('\t');
        append_str(&mut out, hyphenated(assignment.set_id).as_str());
        out.push('\n');
        proof {
            let row = registry_row(assignment@);
            let more = rows.push(row);
            assert(more.drop_last() =~= rows);
            assert(out@ =~= before + row + seq!['\n']);
            rows = more;
        }
        i += 1;
    }
    assert(all.take(all.len() as int) =~= all);
    Ok(string_of(out.as_slice()))
}

} // verus!
