//! The catalog of stable numeric IDs, and the numbers that card titles stand
//! for in it.

use std::collections::BTreeMap;

use vstd::prelude::*;

use crate::digest::{hex_sha256, text_digest};
use crate::ids::CardScriptId;
use crate::maps::{ascending, has_key, lemma_row_map, row_holds, TextMap};
use crate::names::{candidates_view, table_view, Candidates, Evidence, NameIndex, Names};
use crate::numbered::{ascending_keys, in_order, lemma_in_order};
use crate::numerals::{hex, is_hex_digit, number_up_to, read_number};
use crate::order::{
    lemma_longer_first_irreflexive, lemma_text_less_irreflexive, longer_first, text_less,
};
use crate::parameters::lemma_split_not_empty;
use crate::references::{exact_id, id_for_name, id_view, reference_views};
use crate::sorting::{
    distinct_names, lemma_longest_first_unique, longest_first, row_views, sort_longest_first,
};
use crate::text::{
    chars_of, has_prefix, line_slices, lines, pieces, replace_char, replaced_char, split,
    starts_with, string_of, trim, trimmed, views,
};
use crate::uuids::{parse_uuid, uuid_value};

verus! {

broadcast use vstd::std_specs::btree::group_btree_axioms;

/// What is wrong with a row of the numeric catalog.
#[derive(Clone, Copy, Debug, Eq, PartialEq, Structural)]
pub enum CatalogProblem {
    /// The ID is no number.
    InvalidId,
    /// The ID is zero.
    ReservedId,
    /// There is no Oracle ID.
    MissingOracleId,
    /// The Oracle ID is no UUID.
    InvalidOracleId,
    /// There is no name hash.
    MissingNameHash,
    /// There is no set group.
    MissingSetGroup,
    /// The name hash is not made of 64 hexadecimal digits.
    InvalidNameHash,
}

/// A problem and the number of the line that has it, counted from one.
#[derive(Clone, Copy, Debug, Eq, PartialEq, Structural)]
pub struct CatalogError {
    pub line: usize,
    pub problem: CatalogProblem,
}

/// A row of the numeric catalog.
pub struct Entry {
    pub id: u32,
    pub oracle_id: u128,
    pub name_hash: Seq<char>,
    pub set_group: Seq<char>,
}

/// Whether `text` is a hexadecimal SHA-256 digest.
pub open spec fn is_name_hash(text: Seq<char>) -> bool {
    text.len() == 64 && forall|i: int| 0 <= i < text.len() ==> is_hex_digit(#[trigger] text[i])
}

/// What a row of the catalog says.
pub open spec fn entry_of(line: Seq<char>) -> Result<Entry, CatalogProblem> {
    let fields = split(line, '\t');
    match number_up_to(fields[0], u32::MAX as nat) {
        None => Err(CatalogProblem::InvalidId),
        Some(id) => if id == 0 {
            Err(CatalogProblem::ReservedId)
        } else if fields.len() < 2 {
            Err(CatalogProblem::MissingOracleId)
        } else {
            match uuid_value(fields[1]) {
                None => Err(CatalogProblem::InvalidOracleId),
                Some(oracle_id) => if fields.len() < 3 {
                    Err(CatalogProblem::MissingNameHash)
                } else if fields.len() < 4 {
                    Err(CatalogProblem::MissingSetGroup)
                } else if !is_name_hash(fields[2]) {
                    Err(CatalogProblem::InvalidNameHash)
                } else {
                    Ok(
                        Entry {
                            id: id as u32,
                            oracle_id: oracle_id as u128,
                            name_hash: fields[2],
                            set_group: fields[3],
                        },
                    )
                },
            }
        },
    }
}

/// What the catalog holds: the IDs of each identity in the order of the rows,
/// the ID of each name hash unless several rows contend for it, the set group
/// of each ID, and the number of rows.
#[verifier::ext_equal]
pub struct Catalog {
    pub by_oracle_id: Map<u128, Seq<u32>>,
    pub by_name_hash: Map<Seq<char>, Option<u32>>,
    pub set_group_by_id: Map<u32, Seq<char>>,
    pub rows: nat,
}

/// The IDs of an identity, if it has any.
pub open spec fn ids_of(catalog: Catalog, oracle_id: u128) -> Seq<u32> {
    if catalog.by_oracle_id.dom().contains(oracle_id) {
        catalog.by_oracle_id[oracle_id]
    } else {
        Seq::empty()
    }
}

/// The ID of a name hash after one more row: two different IDs for one hash
/// leave it without any.
pub open spec fn contended(by_name_hash: Map<Seq<char>, Option<u32>>, entry: Entry) -> Option<
    u32,
> {
    if !by_name_hash.dom().contains(entry.name_hash) {
        Some(entry.id)
    } else {
        match by_name_hash[entry.name_hash] {
            Some(id) => if id == entry.id {
                Some(id)
            } else {
                None
            },
            None => None,
        }
    }
}

/// The catalog with one more row.
pub open spec fn with_entry(catalog: Catalog, entry: Entry) -> Catalog {
    Catalog {
        by_oracle_id: catalog.by_oracle_id.insert(
            entry.oracle_id,
            ids_of(catalog, entry.oracle_id).push(entry.id),
        ),
        by_name_hash: catalog.by_name_hash.insert(
            entry.name_hash,
            contended(catalog.by_name_hash, entry),
        ),
        set_group_by_id: catalog.set_group_by_id.insert(entry.id, entry.set_group),
        rows: catalog.rows + 1,
    }
}

/// The catalog without rows.
pub open spec fn no_catalog() -> Catalog {
    Catalog {
        by_oracle_id: Map::empty(),
        by_name_hash: Map::empty(),
        set_group_by_id: Map::empty(),
        rows: 0,
    }
}

/// Whether a line is no row: a header in the first place, or a blank line.
pub open spec fn is_no_row(line: Seq<char>, at: int) -> bool {
    ||| at == 0 && starts_with(line, "#id\t"@)
    ||| trim(line).len() == 0
}

/// The catalog in the lines, or the first problem with its line number.
pub open spec fn catalog_of(rows: Seq<Seq<char>>) -> Result<Catalog, (int, CatalogProblem)>
    decreases rows.len(),
{
    if rows.len() == 0 {
        Ok(no_catalog())
    } else {
        match catalog_of(rows.drop_last()) {
            Err(error) => Err(error),
            Ok(catalog) => if is_no_row(rows.last(), rows.len() - 1) {
                Ok(catalog)
            } else {
                match entry_of(rows.last()) {
                    Ok(entry) => Ok(with_entry(catalog, entry)),
                    Err(problem) => Err((rows.len() as int, problem)),
                }
            },
        }
    }
}

/// Whether every listed ID has a set group.
pub open spec fn groups_complete(catalog: Catalog) -> bool {
    forall|oracle_id: u128, i: int|
        catalog.by_oracle_id.dom().contains(oracle_id) && 0 <= i
            < catalog.by_oracle_id[oracle_id].len() ==> catalog.set_group_by_id.dom().contains(
            #[trigger] catalog.by_oracle_id[oracle_id][i],
        )
}

/// The first problem stays the first problem, whatever follows it.
proof fn lemma_catalog_error(rows: Seq<Seq<char>>, count: int)
    requires
        0 <= count <= rows.len(),
        catalog_of(rows.take(count)) is Err,
    ensures
        catalog_of(rows) == catalog_of(rows.take(count)),
    decreases rows.len(),
{
    if count == rows.len() {
        assert(rows.take(count) =~= rows);
    } else {
        assert(rows.drop_last().take(count) =~= rows.take(count));
        lemma_catalog_error(rows.drop_last(), count);
    }
}

/// Every row of a catalog is found in it: its ID among those of its identity,
/// and a set group for its ID.
pub proof fn law_catalog_rows_are_listed(rows: Seq<Seq<char>>, at: int)
    requires
        catalog_of(rows) is Ok,
        0 <= at < rows.len(),
        !is_no_row(rows[at], at),
    ensures
        ({
            let catalog = catalog_of(rows)->Ok_0;
            let entry = entry_of(rows[at])->Ok_0;
            &&& entry_of(rows[at]) is Ok
            &&& ids_of(catalog, entry.oracle_id).contains(entry.id)
            &&& catalog.set_group_by_id.dom().contains(entry.id)
            &&& catalog.by_name_hash.dom().contains(entry.name_hash)
            &&& groups_complete(catalog)
        }),
    decreases rows.len(),
{
    let catalog = catalog_of(rows)->Ok_0;
    let before = catalog_of(rows.drop_last())->Ok_0;
    let entry = entry_of(rows[at])->Ok_0;
    lemma_groups_complete(rows);
    if at < rows.len() - 1 {
        law_catalog_rows_are_listed(rows.drop_last(), at);
        assert(rows.drop_last()[at] == rows[at]);
        let earlier = ids_of(before, entry.oracle_id);
        let i = choose|i: int| 0 <= i < earlier.len() && earlier[i] == entry.id;
        assert(ids_of(catalog, entry.oracle_id)[i] == entry.id);
    } else {
        let earlier = ids_of(before, entry.oracle_id);
        assert(ids_of(catalog, entry.oracle_id)[earlier.len() as int] == entry.id);
    }
}

proof fn lemma_groups_complete(rows: Seq<Seq<char>>)
    requires
        catalog_of(rows) is Ok,
    ensures
        groups_complete(catalog_of(rows)->Ok_0),
    decreases rows.len(),
{
    if rows.len() > 0 {
        lemma_groups_complete(rows.drop_last());
        if !is_no_row(rows.last(), rows.len() - 1) {
            lemma_entry_groups(catalog_of(rows.drop_last())->Ok_0, entry_of(rows.last())->Ok_0);
        }
    }
}

proof fn lemma_entry_groups(catalog: Catalog, entry: Entry)
    requires
        groups_complete(catalog),
    ensures
        groups_complete(with_entry(catalog, entry)),
{
    let after = with_entry(catalog, entry);
    assert forall|oracle_id: u128, i: int|
        after.by_oracle_id.dom().contains(oracle_id) && 0 <= i
            < after.by_oracle_id[oracle_id].len() implies after.set_group_by_id.dom().contains(
        #[trigger] after.by_oracle_id[oracle_id][i],
    ) by {
        let earlier = ids_of(catalog, oracle_id);
        if i < earlier.len() {
            assert(catalog.by_oracle_id[oracle_id][i] == after.by_oracle_id[oracle_id][i]);
        }
    }
}

/// The numbers of the IDs.
pub open spec fn card_numbers(ids: Seq<CardScriptId>) -> Seq<u32> {
    Seq::new(ids.len(), |i: int| ids[i].0)
}

/// The catalog of stable numeric IDs.
pub struct CatalogIndex {
    by_oracle_id: BTreeMap<u128, Vec<CardScriptId>>,
    by_name_hash: TextMap<Option<CardScriptId>>,
    set_group_by_id: BTreeMap<u32, String>,
    rows: usize,
}

impl View for CatalogIndex {
    type V = Catalog;

    closed spec fn view(&self) -> Catalog {
        Catalog {
            by_oracle_id: self.by_oracle_id@.map_values(
                |ids: Vec<CardScriptId>| card_numbers(ids@),
            ),
            by_name_hash: self.by_name_hash@.map_values(|id: Option<CardScriptId>| id_view(id)),
            set_group_by_id: self.set_group_by_id@.map_values(|group: String| group@),
            rows: self.rows as nat,
        }
    }
}

impl CatalogIndex {
    #[verifier::type_invariant]
    spec fn complete(self) -> bool {
        groups_complete(self@)
    }

    /// The catalog without rows.
    pub fn new() -> (index: CatalogIndex)
        ensures
            index@ == no_catalog(),
    {
        let index = CatalogIndex {
            by_oracle_id: BTreeMap::new(),
            by_name_hash: TextMap::new(),
            set_group_by_id: BTreeMap::new(),
            rows: 0,
        };
        assert(index@.by_oracle_id =~= Map::empty());
        assert(index@.by_name_hash =~= Map::empty());
        assert(index@.set_group_by_id =~= Map::empty());
        index
    }

    /// The number of rows.
    pub fn len(&self) -> (rows: usize)
        ensures
            rows == self@.rows,
    {
        self.rows
    }

    /// The IDs of an identity, in the order of the rows. All of them have a
    /// set group.
    pub fn card_ids(&self, oracle_id: u128) -> (res: Option<&Vec<CardScriptId>>)
        ensures
            match res {
                Some(ids) => {
                    &&& self@.by_oracle_id.dom().contains(oracle_id)
                    &&& card_numbers(ids@) == self@.by_oracle_id[oracle_id]
                    &&& forall|i: int|
                        0 <= i < ids@.len() ==> self@.set_group_by_id.dom().contains(
                            (#[trigger] ids@[i]).0,
                        )
                },
                None => !self@.by_oracle_id.dom().contains(oracle_id),
            },
    {
        proof {
            use_type_invariant(self);
        }
        match self.by_oracle_id.get(&oracle_id) {
            Some(ids) => {
                assert forall|i: int| 0 <= i < ids@.len() implies self@.set_group_by_id.dom().contains(
                    (#[trigger] ids@[i]).0,
                ) by {
                    assert(self@.by_oracle_id[oracle_id][i] == ids@[i].0);
                }
                Some(ids)
            },
            None => None,
        }
    }

    /// The set group of an ID.
    pub fn set_group(&self, id: CardScriptId) -> (res: Option<&String>)
        ensures
            match res {
                Some(group) => self@.set_group_by_id.dom().contains(id.0) && group@
                    == self@.set_group_by_id[id.0],
                None => !self@.set_group_by_id.dom().contains(id.0),
            },
    {
        self.set_group_by_id.get(&id.0)
    }

    /// The ID of a name hash, unless several rows contend for it.
    fn hashed_id(&self, hash: &str) -> (res: Option<CardScriptId>)
        ensures
            id_view(res) == hash_id(self@, hash@),
    {
        match self.by_name_hash.get(hash) {
            Some(id) => *id,
            None => None,
        }
    }
}

/// The ID of a name hash, unless several rows contend for it.
pub open spec fn hash_id(catalog: Catalog, hash: Seq<char>) -> Option<u32> {
    if catalog.by_name_hash.dom().contains(hash) {
        catalog.by_name_hash[hash]
    } else {
        None
    }
}

/// A row as it is read.
struct Row {
    id: u32,
    oracle_id: u128,
    name_hash: String,
    set_group: String,
}

/// What the row says.
spec fn row_entry(row: Row) -> Entry {
    Entry {
        id: row.id,
        oracle_id: row.oracle_id,
        name_hash: row.name_hash@,
        set_group: row.set_group@,
    }
}

/// What the result of reading a row says.
spec fn row_result(res: Result<Row, CatalogProblem>) -> Result<Entry, CatalogProblem> {
    match res {
        Ok(row) => Ok(row_entry(row)),
        Err(problem) => Err(problem),
    }
}

/// Whether the text is a hexadecimal SHA-256 digest.
fn hash_like(text: &[char]) -> (res: bool)
    ensures
        res == is_name_hash(text@),
{
    if text.len() != 64 {
        return false;
    }
    let mut i: usize = 0;
    while i < text.len()
        invariant
            i <= text@.len(),
            forall|j: int| 0 <= j < i ==> is_hex_digit(#[trigger] text@[j]),
        decreases text@.len() - i,
    {
        let c = text[i];
        let digit = ('0' <= c && c <= '9') || ('a' <= c && c <= 'f') || ('A' <= c && c <= 'F');
        if !digit {
            assert(!is_hex_digit(text@[i as int]));
            return false;
        }
        i += 1;
    }
    true
}

/// Reads a row.
fn read_row(line: &[char]) -> (res: Result<Row, CatalogProblem>)
    ensures
        row_result(res) == entry_of(line@),
{
    let fields = pieces(line, '\t');
    let ghost texts = split(line@, '\t');
    proof {
        lemma_split_not_empty(line@, '\t');
        assert(forall|i: int| 0 <= i < fields@.len() ==> texts[i] == (#[trigger] fields@[i])@);
    }
    let id: u32 = match read_number(fields[0], 0xffff_ffff) {
        Some(id) => id as u32,
        None => {
            return Err(CatalogProblem::InvalidId);
        },
    };
    if id == 0 {
        return Err(CatalogProblem::ReservedId);
    }
    if fields.len() < 2 {
        return Err(CatalogProblem::MissingOracleId);
    }
    let oracle_text = string_of(fields[1]);
    let oracle_id: u128 = match parse_uuid(oracle_text.as_str()) {
        Some(id) => id.0,
        None => {
            return Err(CatalogProblem::InvalidOracleId);
        },
    };
    if fields.len() < 3 {
        return Err(CatalogProblem::MissingNameHash);
    }
    if fields.len() < 4 {
        return Err(CatalogProblem::MissingSetGroup);
    }
    if !hash_like(fields[2]) {
        return Err(CatalogProblem::InvalidNameHash);
    }
    Ok(Row { id, oracle_id, name_hash: string_of(fields[2]), set_group: string_of(fields[3]) })
}

/// Adds a row.
fn append_row(index: CatalogIndex, row: Row) -> (out: CatalogIndex)
    requires
        index@.rows < usize::MAX,
    ensures
        out@ == with_entry(index@, row_entry(row)),
{
    proof {
        use_type_invariant(&index);
    }
    let ghost catalog = index@;
    let ghost entry = row_entry(row);
    let CatalogIndex { mut by_oracle_id, mut by_name_hash, mut set_group_by_id, rows } = index;
    let ghost hashes = by_name_hash@;
    let ghost oracles = by_oracle_id@;
    let ghost groups = set_group_by_id@;
    let id = CardScriptId(row.id);
    let settled: Option<CardScriptId> = match by_name_hash.get(row.name_hash.as_str()) {
        None => Some(id),
        Some(held) => match held {
            Some(existing) => if existing.0 == row.id {
                Some(id)
            } else {
                None
            },
            None => None,
        },
    };
    assert(id_view(settled) == contended(catalog.by_name_hash, entry));
    by_name_hash.insert(row.name_hash, settled);
    let mut ids: Vec<CardScriptId> = match by_oracle_id.remove(&row.oracle_id) {
        Some(ids) => ids,
        None => Vec::new(),
    };
    assert(card_numbers(ids@) =~= ids_of(catalog, row.oracle_id));
    ids.push(id);
    let ghost listed = card_numbers(ids@);
    assert(listed =~= ids_of(catalog, row.oracle_id).push(row.id));
    by_oracle_id.insert(row.oracle_id, ids);
    set_group_by_id.insert(row.id, row.set_group);
    let ghost after = with_entry(catalog, entry);
    proof {
        assert(by_oracle_id@.map_values(|ids: Vec<CardScriptId>| card_numbers(ids@))
            =~= after.by_oracle_id);
        assert(by_name_hash@.map_values(|id: Option<CardScriptId>| id_view(id))
            =~= after.by_name_hash);
        assert(set_group_by_id@.map_values(|group: String| group@) =~= after.set_group_by_id);
        lemma_entry_groups(catalog, entry);
    }
    CatalogIndex { by_oracle_id, by_name_hash, set_group_by_id, rows: rows + 1 }
}

/// What the result of reading a catalog says.
pub open spec fn catalog_result(res: Result<CatalogIndex, CatalogError>) -> Result<
    Catalog,
    (int, CatalogProblem),
> {
    match res {
        Ok(index) => Ok(index@),
        Err(error) => Err((error.line as int, error.problem)),
    }
}

/// Reads the catalog of stable numeric IDs.
pub fn load_catalog_index(content: &str) -> (res: Result<CatalogIndex, CatalogError>)
    ensures
        catalog_result(res) == catalog_of(lines(content@)),
{
    let chars = chars_of(content);
    let rows = line_slices(chars.as_slice());
    let ghost all = lines(content@);
    let mut index = CatalogIndex::new();
    let mut i: usize = 0;
    while i < rows.len()
        invariant
            i <= rows@.len(),
            all == views(rows@),
            all == lines(content@),
            index@.rows <= i,
            catalog_of(all.take(i as int)) == Ok::<Catalog, (int, CatalogProblem)>(index@),
        decreases rows@.len() - i,
    {
        let row = rows[i];
        proof {
            assert(all.take(i + 1).drop_last() == all.take(i as int));
            assert(all.take(i + 1).last() == row@);
        }
        let skipped = (i == 0 && has_prefix(row, "#id\t")) || trimmed(row).len() == 0;
        if !skipped {
            match read_row(row) {
                Ok(entry) => {
                    index = append_row(index, entry);
                },
                Err(problem) => {
                    proof {
                        lemma_catalog_error(all, i + 1);
                    }
                    return Err(CatalogError { line: i + 1, problem });
                },
            }
        }
        i += 1;
    }
    assert(all.take(all.len() as int) == all);
    Ok(index)
}

/// The only number of a set.
pub open spec fn only_number(numbers: Set<u128>) -> u128 {
    in_order(numbers)[0]
}

/// The number that a card name with the given hash stands for: that of the
/// hash, else the only number of the only identity that bears the name.
pub open spec fn hashed_name_id(
    hash: Seq<char>,
    candidates: Map<u128, Evidence>,
    catalog: Catalog,
) -> Option<u32> {
    match hash_id(catalog, hash) {
        Some(id) => Some(id),
        None => {
            let oracle_id = only_number(candidates.dom());
            if candidates.dom().len() == 1 && catalog.by_oracle_id.dom().contains(oracle_id)
                && catalog.by_oracle_id[oracle_id].len() == 1 {
                Some(catalog.by_oracle_id[oracle_id][0])
            } else {
                None
            }
        },
    }
}

/// The number that a card name stands for.
pub open spec fn name_id(
    name: Seq<char>,
    candidates: Map<u128, Evidence>,
    catalog: Catalog,
) -> Option<u32> {
    hashed_name_id(hex(text_digest(name)), candidates, catalog)
}

/// Whether scripts may spell `name` as `alias`: as it is, with semicolons for
/// its commas, or with underscores for its spaces.
pub open spec fn spells(alias: Seq<char>, name: Seq<char>) -> bool {
    ||| alias == name
    ||| alias == replace_char(name, ',', ';')
    ||| alias == replace_char(name, ' ', '_')
}

/// Whether `alias` spells a name of the table that stands for `id`.
pub open spec fn claimed_in(
    alias: Seq<char>,
    id: u32,
    table: Map<Seq<char>, Map<u128, Evidence>>,
    catalog: Catalog,
) -> bool {
    exists|name: Seq<char>| #[trigger]
        table.dom().contains(name) && spells(alias, name) && name_id(name, table[name], catalog)
            == Some(id)
}

/// Whether `alias` spells the name of a card or a face that stands for `id`.
pub open spec fn claimed(alias: Seq<char>, id: u32, names: Names, catalog: Catalog) -> bool {
    ||| claimed_in(alias, id, names.whole_cards, catalog)
    ||| claimed_in(alias, id, names.faces, catalog)
}

/// Whether `alias` stands for `id` and for nothing else.
pub open spec fn settled(alias: Seq<char>, id: u32, names: Names, catalog: Catalog) -> bool {
    &&& claimed(alias, id, names, catalog)
    &&& forall|other: u32| #[trigger] claimed(alias, other, names, catalog) ==> other == id
}

/// Whether the list holds the settled spellings and nothing else, longer
/// spellings first.
pub open spec fn is_reference_list(
    references: Seq<(Seq<char>, u32)>,
    names: Names,
    catalog: Catalog,
) -> bool {
    &&& longest_first(references)
    &&& forall|alias: Seq<char>, id: u32| #[trigger]
        references.contains((alias, id)) <==> settled(alias, id, names, catalog)
}

/// The settled spellings, longer spellings first.
pub open spec fn references_of(names: Names, catalog: Catalog) -> Seq<(Seq<char>, u32)> {
    choose|references: Seq<(Seq<char>, u32)>| is_reference_list(references, names, catalog)
}

/// There is one list of the settled spellings.
pub proof fn lemma_references_of(
    references: Seq<(Seq<char>, u32)>,
    names: Names,
    catalog: Catalog,
)
    requires
        is_reference_list(references, names, catalog),
    ensures
        references_of(names, catalog) == references,
{
    let other = references_of(names, catalog);
    assert forall|row: (Seq<char>, u32)| references.to_set().contains(row)
        == other.to_set().contains(row) by {
        let (alias, id) = row;
        assert(references.contains((alias, id)) == settled(alias, id, names, catalog));
        assert(other.contains((alias, id)) == settled(alias, id, names, catalog));
    }
    assert(references.to_set() =~= other.to_set());
    lemma_longest_first_unique(references, other);
}

/// A title that a script spells as a settled spelling, but for semicolons in
/// the place of its commas, finds its number.
pub proof fn law_settled_titles_find_their_number(
    references: Seq<(Seq<char>, u32)>,
    names: Names,
    catalog: Catalog,
    value: Seq<char>,
    id: u32,
)
    requires
        is_reference_list(references, names, catalog),
        settled(replace_char(trim(value), ';', ','), id, names, catalog),
    ensures
        id_for_name(value, references) == Some(id),
{
    let title = replace_char(trim(value), ';', ',');
    assert(references.contains((title, id)));
    lemma_exact_id(references, title, id);
}

/// A title that stands once in a list is found with its number.
proof fn lemma_exact_id(references: Seq<(Seq<char>, u32)>, title: Seq<char>, id: u32)
    requires
        longest_first(references),
        references.contains((title, id)),
    ensures
        exact_id(references, title) == Some(id),
    decreases references.len(),
{
    let at = choose|at: int| 0 <= at < references.len() && references[at] == (title, id);
    if at > 0 {
        assert(longer_first(references[0].0, references[at].0));
        lemma_longer_first_irreflexive(title);
        let later = references.drop_first();
        assert(later[at - 1] == (title, id));
        assert(longest_first(later)) by {
            assert forall|i: int, j: int| 0 <= i < j < later.len() implies longer_first(
                #[trigger] later[i].0,
                #[trigger] later[j].0,
            ) by {
                assert(longer_first(references[i + 1].0, references[j + 1].0));
            }
        }
        lemma_exact_id(later, title, id);
    }
}

/// Whether the map holds the claims: the ID of each claimed alias, or nothing
/// where two IDs are claimed for it.
spec fn holds_claims(
    map: Map<Seq<char>, Option<CardScriptId>>,
    claims: Set<(Seq<char>, u32)>,
) -> bool {
    &&& forall|alias: Seq<char>, id: u32| #[trigger]
        claims.contains((alias, id)) ==> map.dom().contains(alias)
    &&& forall|alias: Seq<char>| #[trigger]
        map.dom().contains(alias) ==> match map[alias] {
            Some(id) => claims.contains((alias, id.0)) && forall|other: u32| #[trigger]
                claims.contains((alias, other)) ==> other == id.0,
            None => exists|left: u32, right: u32|
                left != right && #[trigger] claims.contains((alias, left)) && #[trigger]
                    claims.contains((alias, right)),
        }
}

/// Records that an alias is claimed for an ID.
fn record_claim(map: &mut TextMap<Option<CardScriptId>>, alias: String, id: CardScriptId)
    ensures
        forall|claims: Set<(Seq<char>, u32)>| #[trigger]
            holds_claims(old(map)@, claims) ==> holds_claims(
                final(map)@,
                claims.insert((alias@, id.0)),
            ),
{
    let ghost before = map@;
    let ghost name = alias@;
    let held: Option<CardScriptId> = match map.get(alias.as_str()) {
        None => Some(id),
        Some(held) => match held {
            Some(existing) => if existing.0 == id.0 {
                Some(id)
            } else {
                None
            },
            None => None,
        },
    };
    map.insert(alias, held);
    proof {
        assert forall|claims: Set<(Seq<char>, u32)>| #[trigger]
            holds_claims(before, claims) implies holds_claims(map@, claims.insert((name, id.0))) by {
            let more = claims.insert((name, id.0));
            assert forall|a: Seq<char>| #[trigger] map@.dom().contains(a) implies match map@[a] {
                Some(held_id) => more.contains((a, held_id.0)) && forall|other: u32| #[trigger]
                    more.contains((a, other)) ==> other == held_id.0,
                None => exists|left: u32, right: u32|
                    left != right && #[trigger] more.contains((a, left)) && #[trigger]
                        more.contains((a, right)),
            } by {
                if a == name {
                    if before.dom().contains(a) {
                        match before[a] {
                            Some(existing) => {
                                if existing.0 != id.0 {
                                    assert(more.contains((a, existing.0)));
                                    assert(more.contains((a, id.0)));
                                } else {
                                    assert forall|other: u32| #[trigger]
                                        more.contains((a, other)) implies other == id.0 by {
                                        if other != id.0 {
                                            assert(claims.contains((a, other)));
                                        }
                                    }
                                }
                            },
                            None => {
                                let (left, right) = choose|left: u32, right: u32|
                                    left != right && #[trigger] claims.contains((a, left))
                                        && #[trigger] claims.contains((a, right));
                                assert(more.contains((a, left)));
                                assert(more.contains((a, right)));
                            },
                        }
                    } else {
                        assert forall|other: u32| #[trigger]
                            more.contains((a, other)) implies other == id.0 by {
                            if other != id.0 {
                                assert(claims.contains((a, other)));
                            }
                        }
                    }
                } else {
                    assert(before.dom().contains(a));
                    assert(before[a] == map@[a]);
                    match before[a] {
                        Some(existing) => {
                            assert forall|other: u32| #[trigger]
                                more.contains((a, other)) implies other == existing.0 by {
                                assert(claims.contains((a, other)));
                            }
                        },
                        None => {
                            let (left, right) = choose|left: u32, right: u32|
                                left != right && #[trigger] claims.contains((a, left))
                                    && #[trigger] claims.contains((a, right));
                            assert(more.contains((a, left)));
                            assert(more.contains((a, right)));
                        },
                    }
                }
            }
            assert forall|a: Seq<char>, other: u32| #[trigger] more.contains((a, other)) implies
                map@.dom().contains(a) by {
                if (a, other) != (name, id.0) {
                    assert(claims.contains((a, other)));
                }
            }
        }
    }
}

/// The number that a card name with the given hash stands for.
pub fn id_for_hash(hash: &str, candidates: &Candidates, catalog: &CatalogIndex) -> (res: Option<
    CardScriptId,
>)
    ensures
        id_view(res) == hashed_name_id(hash@, candidates_view(*candidates), catalog@),
{
    match catalog.hashed_id(hash) {
        Some(id) => {
            return Some(id);
        },
        None => {},
    }
    assert(candidates_view(*candidates).dom() =~= candidates@.dom());
    if candidates.len() != 1 {
        return None;
    }
    let keys = ascending_keys(candidates);
    proof {
        lemma_in_order(keys@);
    }
    match catalog.card_ids(keys[0]) {
        Some(ids) => {
            assert(card_numbers(ids@).len() == ids@.len());
            if ids.len() == 1 {
                assert(card_numbers(ids@)[0] == ids@[0].0);
                Some(ids[0])
            } else {
                None
            }
        },
        None => None,
    }
}

/// The number that a card name stands for.
fn id_of_name(name: &str, candidates: &Candidates, catalog: &CatalogIndex) -> (res: Option<
    CardScriptId,
>)
    ensures
        id_view(res) == name_id(name@, candidates_view(*candidates), catalog@),
{
    let hash = hex_sha256(name.as_bytes());
    id_for_hash(hash.as_str(), candidates, catalog)
}

/// The claims of the first `count` rows of a table.
spec fn row_claims(
    rows: Seq<(Seq<char>, Candidates)>,
    count: int,
    catalog: Catalog,
    alias: Seq<char>,
    id: u32,
) -> bool {
    exists|i: int|
        0 <= i < count && #[trigger] row_claim(rows[i], catalog, alias, id)
}

/// Whether a row of a table claims the alias for the ID.
spec fn row_claim(
    row: (Seq<char>, Candidates),
    catalog: Catalog,
    alias: Seq<char>,
    id: u32,
) -> bool {
    spells(alias, row.0) && name_id(row.0, candidates_view(row.1), catalog) == Some(id)
}

/// The claims of a table.
spec fn table_claims(table: TextMap<Candidates>, catalog: Catalog) -> Set<(Seq<char>, u32)> {
    Set::new(
        |claim: (Seq<char>, u32)| claimed_in(claim.0, claim.1, table_view(table), catalog),
    )
}

/// Records the claims of all names in a table.
fn record_table(
    map: &mut TextMap<Option<CardScriptId>>,
    table: &TextMap<Candidates>,
    catalog: &CatalogIndex,
)
    ensures
        forall|claims: Set<(Seq<char>, u32)>| #[trigger]
            holds_claims(old(map)@, claims) ==> holds_claims(
                final(map)@,
                claims.union(table_claims(*table, catalog@)),
            ),
{
    let ghost start = map@;
    let ghost rows = table.rows();
    let ghost mut added: Set<(Seq<char>, u32)> = Set::empty();
    let count = table.len();
    let mut i: usize = 0;
    proof {
        assert forall|claims: Set<(Seq<char>, u32)>| #[trigger]
            holds_claims(start, claims) implies holds_claims(map@, claims.union(added)) by {
            assert(claims.union(added) =~= claims);
        }
    }
    while i < count
        invariant
            i <= count,
            count == rows.len(),
            rows == table.rows(),
            forall|claims: Set<(Seq<char>, u32)>| #[trigger]
                holds_claims(start, claims) ==> holds_claims(map@, claims.union(added)),
            forall|alias: Seq<char>, id: u32| #[trigger]
                added.contains((alias, id)) <==> row_claims(rows, i as int, catalog@, alias, id),
        decreases count - i,
    {
        let name = table.key_at(i);
        let candidates = table.value_at(i);
        let ghost before = added;
        match id_of_name(name.as_str(), candidates, catalog) {
            Some(id) => {
                let chars = chars_of(name.as_str());
                let listed = string_of(replaced_char(chars.as_slice(), ',', ';').as_slice());
                let spaced = string_of(replaced_char(chars.as_slice(), ' ', '_').as_slice());
                let ghost first = (name@, id.0);
                let ghost second = (listed@, id.0);
                let ghost third = (spaced@, id.0);
                record_claim(map, name.clone(), id);
                record_claim(map, listed, id);
                record_claim(map, spaced, id);
                proof {
                    added = before.insert(first).insert(second).insert(third);
                    assert forall|claims: Set<(Seq<char>, u32)>| #[trigger]
                        holds_claims(start, claims) implies holds_claims(
                        map@,
                        claims.union(added),
                    ) by {
                        assert(claims.union(added) =~= claims.union(before).insert(first).insert(
                            second,
                        ).insert(third));
                    }
                    assert forall|alias: Seq<char>, other: u32| #[trigger]
                        added.contains((alias, other)) <==> row_claims(
                            rows,
                            i + 1,
                            catalog@,
                            alias,
                            other,
                        ) by {
                        lemma_next_claims(rows, i as int, catalog@, alias, other);
                    }
                }
            },
            None => {
                proof {
                    assert forall|alias: Seq<char>, other: u32| #[trigger]
                        added.contains((alias, other)) <==> row_claims(
                            rows,
                            i + 1,
                            catalog@,
                            alias,
                            other,
                        ) by {
                        lemma_next_claims(rows, i as int, catalog@, alias, other);
                    }
                }
            },
        }
        i += 1;
    }
    proof {
        let all = table_claims(*table, catalog@);
        assert forall|claim: (Seq<char>, u32)| added.contains(claim) == all.contains(claim) by {
            let (alias, id) = claim;
            assert(added.contains((alias, id)) == row_claims(
                rows,
                rows.len() as int,
                catalog@,
                alias,
                id,
            ));
            lemma_table_claims(*table, catalog@, alias, id);
        }
        assert(added =~= all);
    }
}

proof fn lemma_next_claims(
    rows: Seq<(Seq<char>, Candidates)>,
    at: int,
    catalog: Catalog,
    alias: Seq<char>,
    id: u32,
)
    requires
        0 <= at < rows.len(),
    ensures
        row_claims(rows, at + 1, catalog, alias, id) == (row_claims(rows, at, catalog, alias, id)
            || row_claim(rows[at], catalog, alias, id)),
{
    if row_claims(rows, at + 1, catalog, alias, id) {
        let i = choose|i: int| 0 <= i < at + 1 && #[trigger] row_claim(rows[i], catalog, alias, id);
        if i < at {
            assert(row_claim(rows[i], catalog, alias, id));
        }
    }
    if row_claims(rows, at, catalog, alias, id) {
        let i = choose|i: int| 0 <= i < at && #[trigger] row_claim(rows[i], catalog, alias, id);
        assert(row_claim(rows[i], catalog, alias, id));
    }
}

proof fn lemma_table_claims(
    table: TextMap<Candidates>,
    catalog: Catalog,
    alias: Seq<char>,
    id: u32,
)
    requires
        ascending(table.rows()),
    ensures
        row_claims(table.rows(), table.rows().len() as int, catalog, alias, id) == claimed_in(
            alias,
            id,
            table_view(table),
            catalog,
        ),
{
    let rows = table.rows();
    let map = table_view(table);
    if row_claims(rows, rows.len() as int, catalog, alias, id) {
        let i = choose|i: int|
            0 <= i < rows.len() && #[trigger] row_claim(rows[i], catalog, alias, id);
        lemma_row_map(rows, i);
        assert(map.dom().contains(rows[i].0));
        assert(map[rows[i].0] == candidates_view(rows[i].1));
    }
    if claimed_in(alias, id, map, catalog) {
        let name = choose|name: Seq<char>| #[trigger]
            map.dom().contains(name) && spells(alias, name) && name_id(name, map[name], catalog)
                == Some(id);
        assert(has_key(rows, name));
        let i = choose|i: int| row_holds(rows, name, i);
        assert(row_holds(rows, name, i));
        lemma_row_map(rows, i);
        assert(row_claim(rows[i], catalog, alias, id));
    }
}

/// Whether one of the first `count` rows settles the alias on the ID.
spec fn settles(
    rows: Seq<(Seq<char>, Option<CardScriptId>)>,
    count: int,
    row: (Seq<char>, CardScriptId),
) -> bool {
    exists|j: int| 0 <= j < count && #[trigger] rows[j] == (row.0, Some(row.1))
}

/// The aliases that are claimed for one ID alone.
fn settled_rows(rows: Vec<(String, Option<CardScriptId>)>) -> (out: Vec<(String, CardScriptId)>)
    requires
        ascending(row_views(rows@)),
    ensures
        distinct_names(row_views(out@)),
        forall|alias: Seq<char>, id: CardScriptId| #[trigger]
            row_views(out@).contains((alias, id)) <==> row_views(rows@).contains((alias, Some(id))),
{
    let ghost all = row_views(rows@);
    let mut out: Vec<(String, CardScriptId)> = Vec::new();
    for row in it: rows
        invariant
            it.seq() == rows@,
            all == row_views(rows@),
            ascending(all),
            distinct_names(row_views(out@)),
            forall|k: int|
                0 <= k < out@.len() ==> settles(all, it.index(), #[trigger] row_views(out@)[k]),
            forall|j: int|
                0 <= j < it.index() && (#[trigger] all[j]).1 is Some ==> row_views(out@).contains(
                    (all[j].0, all[j].1->0),
                ),
    {
        let ghost at = it.index();
        let ghost before = row_views(out@);
        let (name, id) = row;
        assert(all[at] == (name@, id));
        match id {
            Some(id) => {
                let ghost pair = (name@, id);
                out.push((name, id));
                proof {
                    let after = row_views(out@);
                    assert(after =~= before.push(pair));
                    assert forall|j: int|
                        0 <= j < at + 1 && (#[trigger] all[j]).1 is Some implies after.contains(
                        (all[j].0, all[j].1->0),
                    ) by {
                        if j < at {
                            let k = choose|k: int|
                                0 <= k < before.len() && before[k] == (all[j].0, all[j].1->0);
                            assert(after[k] == (all[j].0, all[j].1->0));
                        } else {
                            assert(after[before.len() as int] == pair);
                        }
                    }
                    assert forall|k: int| 0 <= k < out@.len() implies settles(
                        all,
                        at + 1,
                        #[trigger] after[k],
                    ) by {
                        if k < before.len() {
                            assert(after[k] == before[k]);
                            assert(settles(all, at, before[k]));
                        } else {
                            assert(all[at] == (after[k].0, Some(after[k].1)));
                        }
                    }
                    assert forall|i: int, j: int| 0 <= i < j < after.len() implies (
                    #[trigger] after[i]).0 != (#[trigger] after[j]).0 by {
                        assert(after[i] == before[i]);
                        if j < before.len() {
                            assert(after[j] == before[j]);
                        } else {
                            assert(settles(all, at, before[i]));
                            let k = choose|k: int|
                                0 <= k < at && #[trigger] all[k] == (
                                    before[i].0,
                                    Some(before[i].1),
                                );
                            assert(text_less(all[k].0, all[at].0));
                            lemma_text_less_irreflexive(all[at].0);
                        }
                    }
                }
            },
            None => {
                assert forall|k: int| 0 <= k < out@.len() implies settles(
                    all,
                    at + 1,
                    #[trigger] row_views(out@)[k],
                ) by {
                    assert(settles(all, at, row_views(out@)[k]));
                }
            },
        }
    }
    proof {
        let after = row_views(out@);
        assert forall|alias: Seq<char>, id: CardScriptId| #[trigger]
            after.contains((alias, id)) <==> all.contains((alias, Some(id))) by {
            if after.contains((alias, id)) {
                let k = choose|k: int| 0 <= k < after.len() && after[k] == (alias, id);
                assert(settles(all, all.len() as int, after[k]));
                let j = choose|j: int|
                    0 <= j < all.len() && #[trigger] all[j] == (after[k].0, Some(after[k].1));
                assert(all[j] == (alias, Some(id)));
            }
            if all.contains((alias, Some(id))) {
                let j = choose|j: int| 0 <= j < all.len() && all[j] == (alias, Some(id));
                assert(all[j].1 is Some);
            }
        }
    }
    out
}

/// The spellings of card names with the numbers they stand for, longer
/// spellings first. A spelling that could stand for two numbers is left out.
pub fn numeric_name_references(index: &NameIndex, catalog: &CatalogIndex) -> (out: Vec<
    (String, CardScriptId),
>)
    ensures
        is_reference_list(reference_views(out@), index@, catalog@),
        reference_views(out@) == references_of(index@, catalog@),
{
    let mut unique: TextMap<Option<CardScriptId>> = TextMap::new();
    let ghost none: Set<(Seq<char>, u32)> = Set::empty();
    assert(holds_claims(unique@, none));
    record_table(&mut unique, &index.whole_cards, catalog);
    let ghost whole = table_claims(index.whole_cards, catalog@);
    assert(holds_claims(unique@, none.union(whole)));
    record_table(&mut unique, &index.faces, catalog);
    let ghost claims = none.union(whole).union(table_claims(index.faces, catalog@));
    assert(holds_claims(unique@, claims));
    let ghost map = unique@;
    let ghost unique_rows = unique.rows();
    let rows = unique.into_rows();
    let kept = settled_rows(rows);
    let ghost kept_rows = row_views(kept@);
    let out = sort_longest_first(kept);
    proof {
        let sorted = row_views(out@);
        let references = reference_views(out@);
        assert(longest_first(references)) by {
            assert forall|i: int, j: int| 0 <= i < j < references.len() implies
                longer_first(#[trigger] references[i].0, #[trigger] references[j].0) by {
                assert(references[i].0 == sorted[i].0);
                assert(references[j].0 == sorted[j].0);
            }
        }
        assert forall|alias: Seq<char>, id: u32| #[trigger]
            references.contains((alias, id)) <==> settled(alias, id, index@, catalog@) by {
            let number = CardScriptId(id);
            assert(references.contains((alias, id)) == sorted.contains((alias, number))) by {
                if references.contains((alias, id)) {
                    let k = choose|k: int| 0 <= k < references.len() && references[k] == (alias, id);
                    assert(sorted[k] == (alias, number));
                }
                if sorted.contains((alias, number)) {
                    let k = choose|k: int| 0 <= k < sorted.len() && sorted[k] == (alias, number);
                    assert(references[k] == (alias, id));
                }
            }
            assert(sorted.contains((alias, number)) == kept_rows.contains((alias, number))) by {
                assert(sorted.to_set().contains((alias, number)) == kept_rows.to_set().contains(
                    (alias, number),
                ));
            }
            assert(unique_rows.contains((alias, Some(number))) == (map.dom().contains(alias)
                && map[alias] == Some(number))) by {
                if unique_rows.contains((alias, Some(number))) {
                    let k = choose|k: int|
                        0 <= k < unique_rows.len() && unique_rows[k] == (alias, Some(number));
                    lemma_row_map(unique_rows, k);
                }
                if map.dom().contains(alias) {
                    let k = choose|k: int| row_holds(unique_rows, alias, k);
                    assert(row_holds(unique_rows, alias, k));
                    lemma_row_map(unique_rows, k);
                    assert(unique_rows[k] == (alias, map[alias]));
                }
            }
            assert forall|other: u32| #[trigger]
                claimed(alias, other, index@, catalog@) == claims.contains((alias, other)) by {
            }
            if map.dom().contains(alias) && map[alias] == Some(number) {
                assert(claims.contains((alias, id)));
                assert(claimed(alias, id, index@, catalog@));
                assert forall|other: u32| #[trigger]
                    claimed(alias, other, index@, catalog@) implies other == id by {
                    assert(claims.contains((alias, other)));
                }
            }
            if settled(alias, id, index@, catalog@) {
                assert(claims.contains((alias, id)));
                assert(map.dom().contains(alias));
                match map[alias] {
                    Some(held) => {
                        assert(claims.contains((alias, held.0)));
                        assert(claimed(alias, held.0, index@, catalog@));
                    },
                    None => {
                        let (left, right) = choose|left: u32, right: u32|
                            left != right && #[trigger] claims.contains((alias, left)) && #[trigger]
                                claims.contains((alias, right));
                        assert(claimed(alias, left, index@, catalog@));
                        assert(claimed(alias, right, index@, catalog@));
                    },
                }
            }
        }
        lemma_references_of(references, index@, catalog@);
    }
    out
}

} // verus!
