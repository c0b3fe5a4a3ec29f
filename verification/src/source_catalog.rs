//! The catalog that assigned the numeric IDs, as its owner keeps it: with
//! titles and set codes.

use std::collections::{BTreeMap, BTreeSet};

use vstd::prelude::*;

use crate::digest::{hex_sha256, text_digest};
use crate::letters::{ascii_lowercase, to_ascii_lowercase};
use crate::maps::TextMap;
use crate::numerals::{hex, number_up_to, read_number};
use crate::tables::{column_index, field, fields_of, place_of};
use crate::text::{chars_of, line_slices, lines, split, string_of, trim, trimmed, views};
use crate::uuids::{parse_uuid, uuid_value, Uuid};

verus! {

broadcast use vstd::std_specs::btree::group_btree_axioms;

/// A card of the catalog: its ID, its identity, the hash of its title, and
/// the code of the set it first appeared in.
#[derive(Debug)]
pub struct CatalogRow {
    pub id: u32,
    pub oracle_id: Uuid,
    pub name_hash: String,
    pub publisher_set_code: String,
}

/// A card of the catalog as numbers and texts.
#[verifier::ext_equal]
pub struct Card {
    pub id: u32,
    pub oracle_id: u128,
    pub name_hash: Seq<char>,
    pub set_code: Seq<char>,
}

impl View for CatalogRow {
    type V = Card;

    open spec fn view(&self) -> Card {
        Card {
            id: self.id,
            oracle_id: self.oracle_id.0,
            name_hash: self.name_hash@,
            set_code: self.publisher_set_code@,
        }
    }
}

/// The cards of the rows.
pub open spec fn card_views(rows: Seq<CatalogRow>) -> Seq<Card> {
    Seq::new(rows.len(), |i: int| rows[i]@)
}

/// The columns that are read.
#[derive(Clone, Copy, Debug, Eq, PartialEq, Structural)]
pub enum Column {
    Id,
    Name,
    FirstSet,
    OracleId,
}

/// What is wrong with a row.
#[derive(Clone, Copy, Debug, Eq, PartialEq, Structural)]
pub enum RowProblem {
    /// It has no field in the column.
    MissingField(Column),
    /// Its ID is no number.
    InvalidId,
    /// Its ID is zero or that of an earlier row.
    ZeroOrDuplicateId(u32),
    /// Its title is empty.
    EmptyName,
    /// Its Oracle ID is no UUID.
    InvalidOracleId,
    /// An earlier row has its Oracle ID and its title.
    DuplicateIdentity,
}

/// Why the catalog cannot be read. Lines are counted from one.
#[derive(Clone, Copy, Debug, Eq, PartialEq, Structural)]
pub enum SourceCatalogError {
    /// It has no header.
    Empty,
    /// Its header lacks the column.
    MissingColumn(Column),
    /// The row on the line has a problem.
    Row { line: usize, problem: RowProblem },
    /// It has no rows.
    NoRows,
}

/// Why the catalog cannot be read, with the line as a number of any size.
pub enum SourceProblem {
    Empty,
    MissingColumn(Column),
    Row { line: int, problem: RowProblem },
    NoRows,
}

/// The name of a column.
pub open spec fn column_name(column: Column) -> Seq<char> {
    match column {
        Column::Id => "#id"@,
        Column::Name => "name"@,
        Column::FirstSet => "first_set"@,
        Column::OracleId => "oracle_id"@,
    }
}

/// Where the columns stand.
pub struct Layout {
    pub id: int,
    pub name: int,
    pub first_set: int,
    pub oracle_id: int,
}

/// The layout that a header describes.
pub open spec fn layout_of(header: Seq<char>) -> Result<Layout, SourceProblem> {
    let columns = split(header, '\t');
    match place_of(columns, column_name(Column::Id)) {
        None => Err(SourceProblem::MissingColumn(Column::Id)),
        Some(id) => match place_of(columns, column_name(Column::Name)) {
            None => Err(SourceProblem::MissingColumn(Column::Name)),
            Some(name) => match place_of(columns, column_name(Column::FirstSet)) {
                None => Err(SourceProblem::MissingColumn(Column::FirstSet)),
                Some(first_set) => match place_of(columns, column_name(Column::OracleId)) {
                    None => Err(SourceProblem::MissingColumn(Column::OracleId)),
                    Some(oracle_id) => Ok(Layout { id, name, first_set, oracle_id }),
                },
            },
        },
    }
}

/// Whether one of the cards has the ID.
pub open spec fn has_id(cards: Seq<Card>, id: u32) -> bool {
    exists|i: int| 0 <= i < cards.len() && (#[trigger] cards[i]).id == id
}

/// Whether one of the cards has the identity and the title hash.
pub open spec fn has_identity(cards: Seq<Card>, oracle_id: u128, name_hash: Seq<char>) -> bool {
    exists|i: int|
        0 <= i < cards.len() && (#[trigger] cards[i]).oracle_id == oracle_id && cards[i].name_hash
            == name_hash
}

/// The card on a line, after the earlier cards.
pub open spec fn card_of(line: Seq<char>, layout: Layout, earlier: Seq<Card>) -> Result<
    Card,
    RowProblem,
> {
    let fields = split(line, '\t');
    if layout.id >= fields.len() {
        Err(RowProblem::MissingField(Column::Id))
    } else {
        match number_up_to(fields[layout.id], u32::MAX as nat) {
            None => Err(RowProblem::InvalidId),
            Some(id) => if id == 0 || has_id(earlier, id as u32) {
                Err(RowProblem::ZeroOrDuplicateId(id as u32))
            } else if layout.name >= fields.len() {
                Err(RowProblem::MissingField(Column::Name))
            } else if fields[layout.name].len() == 0 {
                Err(RowProblem::EmptyName)
            } else if layout.oracle_id >= fields.len() {
                Err(RowProblem::MissingField(Column::OracleId))
            } else {
                match uuid_value(fields[layout.oracle_id]) {
                    None => Err(RowProblem::InvalidOracleId),
                    Some(oracle_id) => {
                        let name_hash = hex(text_digest(fields[layout.name]));
                        if has_identity(earlier, oracle_id as u128, name_hash) {
                            Err(RowProblem::DuplicateIdentity)
                        } else if layout.first_set >= fields.len() {
                            Err(RowProblem::MissingField(Column::FirstSet))
                        } else {
                            Ok(
                                Card {
                                    id: id as u32,
                                    oracle_id: oracle_id as u128,
                                    name_hash,
                                    set_code: ascii_lowercase(trim(fields[layout.first_set])),
                                },
                            )
                        }
                    },
                }
            },
        }
    }
}

/// The cards on the lines below the header, or the first problem. Blank lines
/// are no rows.
pub open spec fn cards_of(rows: Seq<Seq<char>>, layout: Layout) -> Result<Seq<Card>, SourceProblem>
    decreases rows.len(),
{
    if rows.len() == 0 {
        Ok(Seq::empty())
    } else {
        match cards_of(rows.drop_last(), layout) {
            Err(problem) => Err(problem),
            Ok(earlier) => if trim(rows.last()).len() == 0 {
                Ok(earlier)
            } else {
                match card_of(rows.last(), layout, earlier) {
                    Ok(card) => Ok(earlier.push(card)),
                    Err(problem) => Err(SourceProblem::Row { line: rows.len() as int + 1, problem }),
                }
            },
        }
    }
}

/// The cards of a catalog.
pub open spec fn source_cards(source: Seq<char>) -> Result<Seq<Card>, SourceProblem> {
    let rows = lines(source);
    if rows.len() == 0 {
        Err(SourceProblem::Empty)
    } else {
        match layout_of(rows[0]) {
            Err(problem) => Err(problem),
            Ok(layout) => match cards_of(rows.drop_first(), layout) {
                Err(problem) => Err(problem),
                Ok(cards) => if cards.len() == 0 {
                    Err(SourceProblem::NoRows)
                } else {
                    Ok(cards)
                },
            },
        }
    }
}

/// The first problem stays the first problem, whatever follows it.
proof fn lemma_first_problem(rows: Seq<Seq<char>>, layout: Layout, count: int)
    requires
        0 <= count <= rows.len(),
        cards_of(rows.take(count), layout) is Err,
    ensures
        cards_of(rows, layout) == cards_of(rows.take(count), layout),
    decreases rows.len(),
{
    if count == rows.len() {
        assert(rows.take(count) =~= rows);
    } else {
        assert(rows.drop_last().take(count) =~= rows.take(count));
        lemma_first_problem(rows.drop_last(), layout, count);
    }
}

/// No two cards of a catalog share an ID, or an identity and a title; no ID is
/// zero.
pub proof fn law_cards_are_distinct(source: Seq<char>, first: int, second: int)
    requires
        source_cards(source) is Ok,
        0 <= first < second < source_cards(source)->Ok_0.len(),
    ensures
        ({
            let cards = source_cards(source)->Ok_0;
            &&& cards[first].id != cards[second].id
            &&& cards[first].oracle_id != cards[second].oracle_id || cards[first].name_hash
                != cards[second].name_hash
            &&& cards[first].id > 0
            &&& cards[second].id > 0
        }),
{
    let rows = lines(source);
    lemma_cards_distinct(rows.drop_first(), layout_of(rows[0])->Ok_0, first, second);
}

proof fn lemma_cards_distinct(rows: Seq<Seq<char>>, layout: Layout, first: int, second: int)
    requires
        cards_of(rows, layout) is Ok,
        0 <= first < second < cards_of(rows, layout)->Ok_0.len(),
    ensures
        ({
            let cards = cards_of(rows, layout)->Ok_0;
            &&& cards[first].id != cards[second].id
            &&& cards[first].oracle_id != cards[second].oracle_id || cards[first].name_hash
                != cards[second].name_hash
            &&& cards[first].id > 0
            &&& cards[second].id > 0
        }),
    decreases rows.len(),
{
    let earlier = cards_of(rows.drop_last(), layout)->Ok_0;
    let cards = cards_of(rows, layout)->Ok_0;
    if second < earlier.len() {
        lemma_cards_distinct(rows.drop_last(), layout, first, second);
    } else {
        assert(cards[first] == earlier[first]);
        assert(!has_id(earlier, cards[second].id));
        lemma_card_ids(rows.drop_last(), layout, first);
    }
}

proof fn lemma_card_ids(rows: Seq<Seq<char>>, layout: Layout, at: int)
    requires
        cards_of(rows, layout) is Ok,
        0 <= at < cards_of(rows, layout)->Ok_0.len(),
    ensures
        cards_of(rows, layout)->Ok_0[at].id > 0,
    decreases rows.len(),
{
    let earlier = cards_of(rows.drop_last(), layout)->Ok_0;
    if at < earlier.len() {
        lemma_card_ids(rows.drop_last(), layout, at);
    }
}

/// Identities with title hashes.
pub struct Identities {
    by_oracle_id: BTreeMap<u128, TextMap<()>>,
}

impl View for Identities {
    type V = Set<(u128, Seq<char>)>;

    closed spec fn view(&self) -> Set<(u128, Seq<char>)> {
        Set::new(
            |pair: (u128, Seq<char>)|
                self.by_oracle_id@.dom().contains(pair.0)
                    && self.by_oracle_id@[pair.0]@.dom().contains(pair.1),
        )
    }
}

impl Identities {
    /// No identities.
    pub fn new() -> (out: Identities)
        ensures
            out@ == Set::<(u128, Seq<char>)>::empty(),
    {
        let out = Identities { by_oracle_id: BTreeMap::new() };
        assert(out@ =~= Set::<(u128, Seq<char>)>::empty());
        out
    }

    /// Adds an identity with a title hash, and tells whether it is new.
    pub fn insert(&mut self, oracle_id: u128, name_hash: &str) -> (new: bool)
        ensures
            new == !old(self)@.contains((oracle_id, name_hash@)),
            final(self)@ == old(self)@.insert((oracle_id, name_hash@)),
    {
        let ghost before = self@;
        let ghost start = self.by_oracle_id@;
        let mut hashes = match self.by_oracle_id.remove(&oracle_id) {
            Some(hashes) => hashes,
            None => TextMap::new(),
        };
        let ghost earlier = hashes@;
        let new = match hashes.get(name_hash) {
            Some(_) => false,
            None => true,
        };
        hashes.insert(name_hash.to_string(), ());
        let ghost now = hashes@;
        self.by_oracle_id.insert(oracle_id, hashes);
        proof {
            assert forall|pair: (u128, Seq<char>)|
                self@.contains(pair) == before.insert((oracle_id, name_hash@)).contains(pair) by {
                if pair.0 == oracle_id {
                    assert(self.by_oracle_id@[pair.0]@ == now);
                    assert(now.dom().contains(pair.1) == (earlier.dom().contains(pair.1) || pair.1
                        == name_hash@));
                    if start.dom().contains(oracle_id) {
                        assert(start[oracle_id]@ == earlier);
                    }
                }
            }
            assert(self@ =~= before.insert((oracle_id, name_hash@)));
        }
        new
    }
}

/// Where the columns stand in the table that is read.
struct Places {
    id: usize,
    name: usize,
    first_set: usize,
    oracle_id: usize,
}

/// The places as a layout.
spec fn places_layout(places: Places) -> Layout {
    Layout {
        id: places.id as int,
        name: places.name as int,
        first_set: places.first_set as int,
        oracle_id: places.oracle_id as int,
    }
}

/// Whether the error is what the problem says.
pub open spec fn tells(error: SourceCatalogError, problem: SourceProblem) -> bool {
    match (error, problem) {
        (SourceCatalogError::Empty, SourceProblem::Empty) => true,
        (SourceCatalogError::MissingColumn(a), SourceProblem::MissingColumn(b)) => a == b,
        (
            SourceCatalogError::Row { line, problem },
            SourceProblem::Row { line: other_line, problem: other },
        ) => line == other_line && problem == other,
        (SourceCatalogError::NoRows, SourceProblem::NoRows) => true,
        _ => false,
    }
}

/// Reads the header.
fn read_header(header: &[char]) -> (res: Result<Places, SourceCatalogError>)
    ensures
        match res {
            Ok(places) => layout_of(header@) == Ok::<Layout, SourceProblem>(places_layout(places)),
            Err(error) => layout_of(header@) is Err && tells(error, layout_of(header@)->Err_0),
        },
{
    let columns = fields_of(header);
    let id: usize = match column_index(columns.as_slice(), "#id") {
        Ok(at) => at,
        Err(_) => {
            return Err(SourceCatalogError::MissingColumn(Column::Id));
        },
    };
    let name: usize = match column_index(columns.as_slice(), "name") {
        Ok(at) => at,
        Err(_) => {
            return Err(SourceCatalogError::MissingColumn(Column::Name));
        },
    };
    let first_set: usize = match column_index(columns.as_slice(), "first_set") {
        Ok(at) => at,
        Err(_) => {
            return Err(SourceCatalogError::MissingColumn(Column::FirstSet));
        },
    };
    let oracle_id: usize = match column_index(columns.as_slice(), "oracle_id") {
        Ok(at) => at,
        Err(_) => {
            return Err(SourceCatalogError::MissingColumn(Column::OracleId));
        },
    };
    Ok(Places { id, name, first_set, oracle_id })
}

/// What the earlier rows hold.
struct Seen {
    ids: BTreeSet<u32>,
    identities: Identities,
}

/// Whether it is what the cards hold.
spec fn is_seen(seen: Seen, cards: Seq<Card>) -> bool {
    &&& forall|id: u32| #[trigger] seen.ids@.contains(id) <==> has_id(cards, id)
    &&& forall|oracle_id: u128, name_hash: Seq<char>| #[trigger]
        seen.identities@.contains((oracle_id, name_hash)) <==> has_identity(
            cards,
            oracle_id,
            name_hash,
        )
}

/// Reads a row that comes after the cards seen.
fn read_card(line: &[char], places: &Places, line_number: usize, seen: &mut Seen) -> (res: Result<
    CatalogRow,
    RowProblem,
>)
    ensures
        forall|cards: Seq<Card>| #[trigger]
            is_seen(*old(seen), cards) ==> {
                match res {
                    Ok(row) => card_of(line@, places_layout(*places), cards) == Ok::<
                        Card,
                        RowProblem,
                    >(row@) && is_seen(*final(seen), cards.push(row@)),
                    Err(problem) => card_of(line@, places_layout(*places), cards) == Err::<
                        Card,
                        RowProblem,
                    >(problem),
                }
            },
{
    let ghost start = *seen;
    let fields = fields_of(line);
    let ghost texts = split(line@, '\t');
    assert(forall|i: int| 0 <= i < fields@.len() ==> texts[i] == (#[trigger] fields@[i])@);
    let id_text = match field(fields.as_slice(), places.id, line_number, "id") {
        Ok(text) => chars_of(text.as_str()),
        Err(_) => {
            return Err(RowProblem::MissingField(Column::Id));
        },
    };
    let id: u32 = match read_number(id_text.as_slice(), 0xffff_ffff) {
        Some(id) => id as u32,
        None => {
            return Err(RowProblem::InvalidId);
        },
    };
    if id == 0 || seen.ids.contains(&id) {
        return Err(RowProblem::ZeroOrDuplicateId(id));
    }
    seen.ids.insert(id);
    let name = match field(fields.as_slice(), places.name, line_number, "name") {
        Ok(text) => text.as_str(),
        Err(_) => {
            return Err(RowProblem::MissingField(Column::Name));
        },
    };
    if chars_of(name).len() == 0 {
        return Err(RowProblem::EmptyName);
    }
    let oracle_id = match field(fields.as_slice(), places.oracle_id, line_number, "oracle_id") {
        Ok(text) => match parse_uuid(text.as_str()) {
            Some(id) => id,
            None => {
                return Err(RowProblem::InvalidOracleId);
            },
        },
        Err(_) => {
            return Err(RowProblem::MissingField(Column::OracleId));
        },
    };
    let name_hash = hex_sha256(name.as_bytes());
    if !seen.identities.insert(oracle_id.0, name_hash.as_str()) {
        return Err(RowProblem::DuplicateIdentity);
    }
    let code = match field(fields.as_slice(), places.first_set, line_number, "first_set") {
        Ok(text) => chars_of(text.as_str()),
        Err(_) => {
            return Err(RowProblem::MissingField(Column::FirstSet));
        },
    };
    let lowered = to_ascii_lowercase(trimmed(code.as_slice()));
    let row = CatalogRow {
        id,
        oracle_id,
        name_hash,
        publisher_set_code: string_of(lowered.as_slice()),
    };
    proof {
        assert forall|cards: Seq<Card>| #[trigger] is_seen(start, cards) implies is_seen(
            *seen,
            cards.push(row@),
        ) by {
            let more = cards.push(row@);
            assert(more[cards.len() as int] == row@);
            assert forall|other: u32| #[trigger] seen.ids@.contains(other) <==> has_id(
                more,
                other,
            ) by {
                if has_id(cards, other) {
                    let i = choose|i: int|
                        0 <= i < cards.len() && (#[trigger] cards[i]).id == other;
                    assert(more[i].id == other);
                }
                if has_id(more, other) && other != id {
                    let i = choose|i: int| 0 <= i < more.len() && (#[trigger] more[i]).id == other;
                    assert(cards[i].id == other);
                }
                assert(start.ids@.contains(other) == has_id(cards, other));
            }
            assert forall|oracle: u128, hash: Seq<char>| #[trigger]
                seen.identities@.contains((oracle, hash)) <==> has_identity(more, oracle, hash) by {
                if has_identity(cards, oracle, hash) {
                    let i = choose|i: int|
                        0 <= i < cards.len() && (#[trigger] cards[i]).oracle_id == oracle
                            && cards[i].name_hash == hash;
                    assert(more[i].oracle_id == oracle);
                }
                if has_identity(more, oracle, hash) && (oracle, hash) != (oracle_id.0, row.name_hash@) {
                    let i = choose|i: int|
                        0 <= i < more.len() && (#[trigger] more[i]).oracle_id == oracle
                            && more[i].name_hash == hash;
                    assert(i < cards.len());
                    assert(cards[i].oracle_id == oracle);
                }
                assert(start.identities@.contains((oracle, hash)) == has_identity(
                    cards,
                    oracle,
                    hash,
                ));
            }
        }
    }
    Ok(row)
}

/// Reads the catalog.
pub fn parse_catalog(source: &str) -> (res: Result<Vec<CatalogRow>, SourceCatalogError>)
    ensures
        match res {
            Ok(rows) => source_cards(source@) == Ok::<Seq<Card>, SourceProblem>(card_views(rows@)),
            Err(error) => source_cards(source@) is Err && tells(
                error,
                source_cards(source@)->Err_0,
            ),
        },
{
    let chars = chars_of(source);
    let rows = line_slices(chars.as_slice());
    let ghost all = lines(source@);
    if rows.len() == 0 {
        assert(all.len() == 0);
        return Err(SourceCatalogError::Empty);
    }
    assert(all[0] == rows@[0]@);
    let places = match read_header(rows[0]) {
        Ok(places) => places,
        Err(error) => {
            return Err(error);
        },
    };
    let ghost layout = places_layout(places);
    let ghost below = all.drop_first();
    let mut cards: Vec<CatalogRow> = Vec::new();
    let mut seen = Seen { ids: BTreeSet::new(), identities: Identities::new() };
    let mut i: usize = 1;
    proof {
        assert(card_views(cards@) =~= Seq::empty());
        assert(below.take(0) =~= Seq::empty());
        assert(is_seen(seen, card_views(cards@)));
    }
    while i < rows.len()
        invariant
            1 <= i <= rows@.len(),
            all == views(rows@),
            all == lines(source@),
            below == all.drop_first(),
            layout == places_layout(places),
            layout_of(all[0]) == Ok::<Layout, SourceProblem>(layout),
            is_seen(seen, card_views(cards@)),
            cards_of(below.take(i - 1), layout) == Ok::<Seq<Card>, SourceProblem>(
                card_views(cards@),
            ),
        decreases rows@.len() - i,
    {
        let row = rows[i];
        proof {
            assert(below.take(i as int).drop_last() =~= below.take(i - 1));
            assert(below.take(i as int).last() == row@);
        }
        if trimmed(row).len() > 0 {
            let ghost before = card_views(cards@);
            match read_card(row, &places, i + 1, &mut seen) {
                Ok(card) => {
                    let ghost view = card@;
                    cards.push(card);
                    assert(card_views(cards@) =~= before.push(view));
                },
                Err(problem) => {
                    proof {
                        lemma_first_problem(below, layout, i as int);
                    }
                    return Err(SourceCatalogError::Row { line: i + 1, problem });
                },
            }
        }
        i += 1;
    }
    assert(below.take(below.len() as int) =~= below);
    assert(card_views(cards@).len() == cards@.len());
    if cards.len() == 0 {
        return Err(SourceCatalogError::NoRows);
    }
    Ok(cards)
}

} // verus!
