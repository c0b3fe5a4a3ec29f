//! The anonymous catalog: the title-free bridge between numeric IDs, Oracle
//! IDs and anonymous set IDs.

use std::collections::BTreeMap;

use vstd::prelude::*;

use crate::maps::TextMap;
use crate::numerals::{append_decimal, decimal, number_up_to, read_number};
use crate::registry::{assignment_views, SetAssignment};
use crate::set_ids::{is_origin_set, validate_origin_set};
use crate::sets::{sets_view, SetInfo, SetMetadata};
use crate::source_catalog::{card_views, Card, CatalogRow};
use crate::text::{
    append_str, chars_of, join, join_tail, line_slices, lines, pieces, reads, split, string_of,
    unlines, views,
};
use crate::uuids::{hyphenated, hyphenated_text, Uuid};

verus! {

broadcast use vstd::std_specs::btree::group_btree_axioms;

/// The first line of an anonymous catalog.
pub const CATALOG_HEADER: &'static str = "#id\toracle_id\tname_sha256\tanonymous_set_id";

/// Why a catalog cannot be written.
#[derive(Debug)]
pub enum RenderError {
    /// The code stands for no known set.
    MissingMetadata(String),
    /// The set has no anonymous ID.
    MissingAssignment(Uuid),
}

/// Why a catalog cannot be written, as a text or a number.
pub enum RenderProblem {
    MissingMetadata(Seq<char>),
    MissingAssignment(u128),
}

/// What the error says.
pub open spec fn render_problem(error: RenderError) -> RenderProblem {
    match error {
        RenderError::MissingMetadata(code) => RenderProblem::MissingMetadata(code@),
        RenderError::MissingAssignment(set) => RenderProblem::MissingAssignment(set.0),
    }
}

/// The anonymous ID of each set; where a set has several, the last counts.
pub open spec fn ids_by_set(assignments: Seq<(Seq<char>, u128)>) -> Map<u128, Seq<char>>
    decreases assignments.len(),
{
    if assignments.len() == 0 {
        Map::empty()
    } else {
        ids_by_set(assignments.drop_last()).insert(assignments.last().1, assignments.last().0)
    }
}

/// The fields of a card in the catalog.
pub open spec fn catalog_fields(card: Card, set: Seq<char>) -> Seq<Seq<char>> {
    seq![decimal(card.id as nat), hyphenated_text(card.oracle_id as nat), card.name_hash, set]
}

/// The line of a card.
pub open spec fn catalog_row(card: Card, set: Seq<char>) -> Seq<char> {
    join(catalog_fields(card, set), seq!['\t'])
}

/// The anonymous ID of a card's first set.
pub open spec fn set_for(
    card: Card,
    sets: Map<Seq<char>, SetInfo>,
    ids: Map<u128, Seq<char>>,
) -> Result<Seq<char>, RenderProblem> {
    if !sets.dom().contains(card.set_code) {
        Err(RenderProblem::MissingMetadata(card.set_code))
    } else if !ids.dom().contains(sets[card.set_code].set_id) {
        Err(RenderProblem::MissingAssignment(sets[card.set_code].set_id))
    } else {
        Ok(ids[sets[card.set_code].set_id])
    }
}

/// The lines of the catalog.
pub open spec fn catalog_rows(
    cards: Seq<Card>,
    sets: Map<Seq<char>, SetInfo>,
    ids: Map<u128, Seq<char>>,
) -> Result<Seq<Seq<char>>, RenderProblem>
    decreases cards.len(),
{
    if cards.len() == 0 {
        Ok(seq![CATALOG_HEADER@])
    } else {
        match catalog_rows(cards.drop_last(), sets, ids) {
            Err(problem) => Err(problem),
            Ok(earlier) => match set_for(cards.last(), sets, ids) {
                Err(problem) => Err(problem),
                Ok(set) => Ok(earlier.push(catalog_row(cards.last(), set))),
            },
        }
    }
}

proof fn lemma_rows_error(
    cards: Seq<Card>,
    sets: Map<Seq<char>, SetInfo>,
    ids: Map<u128, Seq<char>>,
    count: int,
)
    requires
        0 <= count <= cards.len(),
        catalog_rows(cards.take(count), sets, ids) is Err,
    ensures
        catalog_rows(cards, sets, ids) == catalog_rows(cards.take(count), sets, ids),
    decreases cards.len(),
{
    if count == cards.len() {
        assert(cards.take(count) =~= cards);
    } else {
        assert(cards.drop_last().take(count) =~= cards.take(count));
        lemma_rows_error(cards.drop_last(), sets, ids, count);
    }
}

/// The anonymous ID of each set.
fn collect_ids(assignments: &[SetAssignment]) -> (ids: BTreeMap<u128, String>)
    ensures
        ids@.map_values(|id: String| id@) == ids_by_set(assignment_views(assignments@)),
{
    let ghost all = assignment_views(assignments@);
    let mut ids: BTreeMap<u128, String> = BTreeMap::new();
    let mut i: usize = 0;
    assert(all.take(0) =~= Seq::empty());
    assert(ids@.map_values(|id: String| id@) =~= ids_by_set(all.take(0)));
    while i < assignments.len()
        invariant
            i <= assignments@.len(),
            all == assignment_views(assignments@),
            ids@.map_values(|id: String| id@) == ids_by_set(all.take(i as int)),
        decreases assignments@.len() - i,
    {
        let ghost before = ids@;
        let ghost seen = ids_by_set(all.take(i as int));
        proof {
            assert(all.take(i + 1).drop_last() =~= all.take(i as int));
            assert(all.take(i + 1).last() == assignments@[i as int]@);
        }
        let id = assignments[i].anonymous_id.clone();
        let ghost view = id@;
        ids.insert(assignments[i].set_id.0, id);
        assert(ids@.map_values(|id: String| id@) =~= seen.insert(
            assignments@[i as int].set_id.0,
            view,
        ));
        i += 1;
    }
    assert(all.take(all.len() as int) =~= all);
    ids
}

pub proof fn lemma_catalog_row(card: Card, set: Seq<char>)
    ensures
        catalog_row(card, set) == decimal(card.id as nat) + seq!['\t'] + hyphenated_text(
            card.oracle_id as nat,
        ) + seq!['\t'] + card.name_hash + seq!['\t'] + set,
{
    let fields = catalog_fields(card, set);
    let tab = seq!['\t'];
    let three = fields.drop_first();
    let two = three.drop_first();
    let one = two.drop_first();
    let none = one.drop_first();
    assert(join_tail(none, tab) =~= Seq::empty());
    assert(one[0] == set);
    assert(two[0] == card.name_hash);
    assert(three[0] == hyphenated_text(card.oracle_id as nat));
    assert(join_tail(one, tab) =~= tab + set);
    assert(join_tail(two, tab) =~= tab + card.name_hash + (tab + set));
    assert(join_tail(three, tab) =~= tab + hyphenated_text(card.oracle_id as nat) + (tab
        + card.name_hash + (tab + set)));
    assert(catalog_row(card, set) =~= decimal(card.id as nat) + tab + hyphenated_text(
        card.oracle_id as nat,
    ) + tab + card.name_hash + tab + set);
}

/// Writes the anonymous catalog.
pub fn render_catalog(
    rows: &[CatalogRow],
    metadata: &TextMap<SetMetadata>,
    assignments: &[SetAssignment],
) -> (res: Result<String, RenderError>)
    ensures
        ({
            let written = catalog_rows(
                card_views(rows@),
                sets_view(*metadata),
                ids_by_set(assignment_views(assignments@)),
            );
            match res {
                Ok(text) => written is Ok && text@ == unlines(written->Ok_0),
                Err(error) => written == Err::<Seq<Seq<char>>, RenderProblem>(
                    render_problem(error),
                ),
            }
        }),
{
    let by_set_id = collect_ids(assignments);
    let ghost ids = ids_by_set(assignment_views(assignments@));
    let ghost sets = sets_view(*metadata);
    let ghost all = card_views(rows@);
    let mut out = chars_of(CATALOG_HEADER);
    out.push('\n');
    let ghost mut written: Seq<Seq<char>> = seq![CATALOG_HEADER@];
    let mut i: usize = 0;
    proof {
        assert(written.drop_last() =~= Seq::empty());
        assert(unlines(written.drop_last()) =~= Seq::empty());
        assert(out@ =~= unlines(written));
        assert(all.take(0) =~= Seq::empty());
    }
    while i < rows.len()
        invariant
            i <= rows@.len(),
            all == card_views(rows@),
            sets == sets_view(*metadata),
            ids == ids_by_set(assignment_views(assignments@)),
            ids == by_set_id@.map_values(|id: String| id@),
            catalog_rows(all.take(i as int), sets, ids) == Ok::<Seq<Seq<char>>, RenderProblem>(
                written,
            ),
            out@ == unlines(written),
        decreases rows@.len() - i,
    {
        let row = &rows[i];
        proof {
            assert(all.take(i + 1).drop_last() =~= all.take(i as int));
            assert(all.take(i + 1).last() == row@);
        }
        let set = match metadata.get(row.publisher_set_code.as_str()) {
            Some(set) => set.set_id,
            None => {
                proof {
                    lemma_rows_error(all, sets, ids, i + 1);
                }
                return Err(RenderError::MissingMetadata(row.publisher_set_code.clone()));
            },
        };
        let id = match by_set_id.get(&set.0) {
            Some(id) => id,
            None => {
                proof {
                    lemma_rows_error(all, sets, ids, i + 1);
                }
                return Err(RenderError::MissingAssignment(set));
            },
        };
        let ghost before = out@;
        append_decimal(&mut out, row.id as u64);
        out.push('\t');
        append_str(&mut out, hyphenated(row.oracle_id).as_str());
        out.push('\t');
        append_str(&mut out, row.name_hash.as_str());
        out.push('\t');
        append_str(&mut out, id.as_str());
        out.push('\n');
        proof {
            let line = catalog_row(row@, id@);
            lemma_catalog_row(row@, id@);
            let more = written.push(line);
            assert(more.drop_last() =~= written);
            assert(out@ =~= before + line + seq!['\n']);
            written = more;
        }
        i += 1;
    }
    assert(all.take(all.len() as int) =~= all);
    Ok(string_of(out.as_slice()))
}

/// What is wrong with a line of an anonymous catalog.
#[derive(Clone, Copy, Debug, Eq, PartialEq, Structural)]
pub enum BridgeLineProblem {
    /// It does not have four columns.
    ColumnCount,
    /// Its ID is no number.
    InvalidId,
    /// Its ID is not the next one.
    UnexpectedId { found: u32, expected: u64 },
    /// Its set is no origin set.
    InvalidOriginSet,
}

/// Why an anonymous catalog cannot be read. Lines are counted from one.
#[derive(Clone, Copy, Debug, Eq, PartialEq, Structural)]
pub enum BridgeError {
    /// The first line is not the header.
    UnexpectedHeader,
    /// The line has a problem.
    Line { line: usize, problem: BridgeLineProblem },
}

/// Why an anonymous catalog cannot be read, with the line as a number of any
/// size.
pub enum BridgeProblem {
    UnexpectedHeader,
    Line { line: int, problem: BridgeLineProblem },
}

/// The ID and the set on a line that should have the given ID.
pub open spec fn origin_of(line: Seq<char>, expected: nat) -> Result<
    (u32, Seq<char>),
    BridgeLineProblem,
> {
    let fields = split(line, '\t');
    if fields.len() != 4 {
        Err(BridgeLineProblem::ColumnCount)
    } else {
        match number_up_to(fields[0], u32::MAX as nat) {
            None => Err(BridgeLineProblem::InvalidId),
            Some(id) => if id != expected {
                Err(
                    BridgeLineProblem::UnexpectedId { found: id as u32, expected: expected as u64 },
                )
            } else if !is_origin_set(fields[3]) {
                Err(BridgeLineProblem::InvalidOriginSet)
            } else {
                Ok((id as u32, fields[3]))
            },
        }
    }
}

/// The IDs and sets on the lines below the header; the IDs count from one.
pub open spec fn origins_of(rows: Seq<Seq<char>>) -> Result<Seq<(u32, Seq<char>)>, BridgeProblem>
    decreases rows.len(),
{
    if rows.len() == 0 {
        Ok(Seq::empty())
    } else {
        match origins_of(rows.drop_last()) {
            Err(problem) => Err(problem),
            Ok(earlier) => match origin_of(rows.last(), rows.len()) {
                Ok(origin) => Ok(earlier.push(origin)),
                Err(problem) => Err(BridgeProblem::Line { line: rows.len() as int + 1, problem }),
            },
        }
    }
}

/// The IDs and sets of an anonymous catalog.
pub open spec fn bridge_of(source: Seq<char>) -> Result<Seq<(u32, Seq<char>)>, BridgeProblem> {
    let rows = lines(source);
    if rows.len() == 0 || rows[0] != CATALOG_HEADER@ {
        Err(BridgeProblem::UnexpectedHeader)
    } else {
        origins_of(rows.drop_first())
    }
}

/// Whether the error is what the problem says.
pub open spec fn tells(error: BridgeError, problem: BridgeProblem) -> bool {
    match (error, problem) {
        (BridgeError::UnexpectedHeader, BridgeProblem::UnexpectedHeader) => true,
        (
            BridgeError::Line { line, problem },
            BridgeProblem::Line { line: other_line, problem: other },
        ) => line == other_line && problem == other,
        _ => false,
    }
}

/// The IDs and sets as numbers and texts.
pub open spec fn origin_views(origins: Seq<(u32, String)>) -> Seq<(u32, Seq<char>)> {
    Seq::new(origins.len(), |i: int| (origins[i].0, origins[i].1@))
}

proof fn lemma_first_problem(rows: Seq<Seq<char>>, count: int)
    requires
        0 <= count <= rows.len(),
        origins_of(rows.take(count)) is Err,
    ensures
        origins_of(rows) == origins_of(rows.take(count)),
    decreases rows.len(),
{
    if count == rows.len() {
        assert(rows.take(count) =~= rows);
    } else {
        assert(rows.drop_last().take(count) =~= rows.take(count));
        lemma_first_problem(rows.drop_last(), count);
    }
}

/// What the result of reading a line says.
spec fn origin_result(res: Result<(u32, String), BridgeLineProblem>) -> Result<
    (u32, Seq<char>),
    BridgeLineProblem,
> {
    match res {
        Ok((id, set)) => Ok((id, set@)),
        Err(problem) => Err(problem),
    }
}

/// Reads a line that should have the given ID.
fn read_origin(line: &[char], expected: u64) -> (res: Result<(u32, String), BridgeLineProblem>)
    ensures
        origin_result(res) == origin_of(line@, expected as nat),
{
    let fields = pieces(line, '\t');
    let ghost texts = split(line@, '\t');
    assert(texts.len() == fields@.len());
    if fields.len() != 4 {
        return Err(BridgeLineProblem::ColumnCount);
    }
    assert(texts[0] == fields@[0]@);
    assert(texts[3] == fields@[3]@);
    let id: u64 = match read_number(fields[0], 0xffff_ffff) {
        Some(id) => id,
        None => {
            return Err(BridgeLineProblem::InvalidId);
        },
    };
    if id != expected {
        return Err(BridgeLineProblem::UnexpectedId { found: id as u32, expected });
    }
    let set = string_of(fields[3]);
    match validate_origin_set(set.as_str()) {
        Ok(_) => Ok((id as u32, set)),
        Err(_) => Err(BridgeLineProblem::InvalidOriginSet),
    }
}

/// Reads the IDs and origin sets of an anonymous catalog. The IDs must count
/// from one without a gap.
pub fn parse_assignments(source: &str) -> (res: Result<Vec<(u32, String)>, BridgeError>)
    ensures
        match res {
            Ok(origins) => bridge_of(source@) == Ok::<Seq<(u32, Seq<char>)>, BridgeProblem>(
                origin_views(origins@),
            ),
            Err(error) => bridge_of(source@) is Err && tells(error, bridge_of(source@)->Err_0),
        },
{
    let chars = chars_of(source);
    let rows = line_slices(chars.as_slice());
    let ghost all = lines(source@);
    if rows.len() == 0 {
        assert(all.len() == 0);
        return Err(BridgeError::UnexpectedHeader);
    }
    assert(all[0] == rows@[0]@);
    if !reads(rows[0], CATALOG_HEADER) {
        return Err(BridgeError::UnexpectedHeader);
    }
    let ghost below = all.drop_first();
    let mut origins: Vec<(u32, String)> = Vec::new();
    let mut i: usize = 1;
    proof {
        assert(origin_views(origins@) =~= Seq::empty());
        assert(below.take(0) =~= Seq::empty());
    }
    while i < rows.len()
        invariant
            1 <= i <= rows@.len(),
            all == views(rows@),
            all == lines(source@),
            all[0] == CATALOG_HEADER@,
            below == all.drop_first(),
            origins_of(below.take(i - 1)) == Ok::<Seq<(u32, Seq<char>)>, BridgeProblem>(
                origin_views(origins@),
            ),
        decreases rows@.len() - i,
    {
        let row = rows[i];
        let ghost before = origin_views(origins@);
        proof {
            assert(below.take(i as int).drop_last() =~= below.take(i - 1));
            assert(below.take(i as int).last() == row@);
        }
        match read_origin(row, i as u64) {
            Ok((id, set)) => {
                let ghost view = (id, set@);
                origins.push((id, set));
                assert(origin_views(origins@) =~= before.push(view));
            },
            Err(problem) => {
                proof {
                    lemma_first_problem(below, i as int);
                }
                return Err(BridgeError::Line { line: i + 1, problem });
            },
        }
        i += 1;
    }
    assert(below.take(below.len() as int) =~= below);
    Ok(origins)
}

} // verus!
