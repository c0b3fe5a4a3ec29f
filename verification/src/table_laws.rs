//! What the rows of the tables say, and how they are written.

use vstd::prelude::*;

use crate::bridge::{catalog_rows, origin_of, set_for, BridgeLineProblem};
use crate::catalog::{catalog_of, entry_of, hash_id, name_id, spells, with_entry, Catalog, CatalogProblem, Entry};
use crate::digest::{big_endian, runtime_object_id, text_digest, token_id};
use crate::letters::{ascii_lowercase, is_ascii_uppercase};
use crate::names::Evidence;
use crate::numbered::{in_order, lemma_in_order_lists};
use crate::numerals::{decimal, hex, is_digit, law_decimal_reads_back};
use crate::order::text_less;
use crate::registry::{assignment_of, has_anonymous_id, has_set, registry_rows, RegistryLineProblem};
use crate::scryfall::ScryfallCard;
use crate::segment_laws::{is_blank, law_white_space_is_trimmed};
use crate::set_ids::{is_origin_set, set_id_of, suffix};
use crate::sets::{with_printing, SetInfo};
use crate::source_catalog::{card_of, cards_of, layout_of, Card, Layout, RowProblem, SourceProblem};
use crate::tables::{lacks, lemma_place_of, lemma_split_join};
use crate::text::{join, join_tail, lemma_find_char_is, replace_char, split, starts_with, trim};
use crate::uuids::{hyphenated_text, uuid_value};

verus! {

/// Whether the fields can stand between tabs.
pub open spec fn are_fields(fields: Seq<Seq<char>>) -> bool {
    fields.len() > 0 && forall|i: int| 0 <= i < fields.len() ==> lacks(#[trigger] fields[i], '\t')
}

/// The columns of a source catalog are found by their names, wherever they
/// stand; the first column of a name counts.
pub proof fn law_columns_are_found(header: Seq<char>, place: int)
    ensures
        ({
            let columns = split(header, '\t');
            match layout_of(header) {
                Ok(layout) => {
                    &&& 0 <= layout.id < columns.len() && columns[layout.id] == "#id"@
                    &&& 0 <= layout.name < columns.len() && columns[layout.name] == "name"@
                    &&& 0 <= layout.first_set < columns.len() && columns[layout.first_set]
                        == "first_set"@
                    &&& 0 <= layout.oracle_id < columns.len() && columns[layout.oracle_id]
                        == "oracle_id"@
                    &&& 0 <= place < layout.id ==> columns[place] != "#id"@
                    &&& 0 <= place < layout.name ==> columns[place] != "name"@
                    &&& 0 <= place < layout.first_set ==> columns[place] != "first_set"@
                    &&& 0 <= place < layout.oracle_id ==> columns[place] != "oracle_id"@
                },
                Err(_) => !columns.contains("#id"@) || !columns.contains("name"@)
                    || !columns.contains("first_set"@) || !columns.contains("oracle_id"@),
            }
        }),
{
    let columns = split(header, '\t');
    lemma_place_of(columns, "#id"@);
    lemma_place_of(columns, "name"@);
    lemma_place_of(columns, "first_set"@);
    lemma_place_of(columns, "oracle_id"@);
}

/// A row of a source catalog gives a card: its number, its identity, the digest
/// of its name, and the code of its first set in small letters.
pub proof fn law_source_rows_give_cards(
    fields: Seq<Seq<char>>,
    layout: Layout,
    earlier: Seq<Card>,
    id: u32,
    oracle: u128,
)
    requires
        are_fields(fields),
        0 <= layout.id < fields.len(),
        0 <= layout.name < fields.len(),
        0 <= layout.first_set < fields.len(),
        0 <= layout.oracle_id < fields.len(),
        fields[layout.id] == decimal(id as nat),
        uuid_value(fields[layout.oracle_id]) == Some(oracle as nat),
    ensures
        ({
            let name = fields[layout.name];
            let out = card_of(join(fields, seq!['\t']), layout, earlier);
            let hash = hex(text_digest(name));
            let known = exists|i: int| 0 <= i < earlier.len() && (#[trigger] earlier[i]).id == id;
            let seen = exists|i: int|
                0 <= i < earlier.len() && (#[trigger] earlier[i]).oracle_id == oracle
                    && earlier[i].name_hash == hash;
            &&& id == 0 || known ==> out == Err::<Card, RowProblem>(
                RowProblem::ZeroOrDuplicateId(id),
            )
            &&& id != 0 && !known && name.len() == 0 ==> out == Err::<Card, RowProblem>(
                RowProblem::EmptyName,
            )
            &&& id != 0 && !known && name.len() > 0 && seen ==> out == Err::<Card, RowProblem>(
                RowProblem::DuplicateIdentity,
            )
            &&& id != 0 && !known && name.len() > 0 && !seen ==> out == Ok::<Card, RowProblem>(
                Card {
                    id,
                    oracle_id: oracle,
                    name_hash: hash,
                    set_code: ascii_lowercase(trim(fields[layout.first_set])),
                },
            )
        }),
{
    lemma_split_join(fields, '\t');
    law_decimal_reads_back(id as nat, u32::MAX as nat);
}

/// A row of the numeric catalog has a number, an identity, the digest of a name
/// and a set; what follows does not matter.
pub proof fn law_catalog_rows_are_read(fields: Seq<Seq<char>>, id: u32, oracle: u128)
    requires
        are_fields(fields),
        fields[0] == decimal(id as nat),
        fields.len() > 1 ==> uuid_value(fields[1]) == Some(oracle as nat),
    ensures
        ({
            let out = entry_of(join(fields, seq!['\t']));
            let hashed = fields.len() > 2 && fields[2].len() == 64 && forall|i: int|
                0 <= i < 64 ==> ('0' <= #[trigger] fields[2][i] <= '9' || 'a' <= fields[2][i] <= 'f'
                    || 'A' <= fields[2][i] <= 'F');
            &&& id == 0 ==> out == Err::<Entry, CatalogProblem>(CatalogProblem::ReservedId)
            &&& id > 0 && fields.len() == 1 ==> out == Err::<Entry, CatalogProblem>(
                CatalogProblem::MissingOracleId,
            )
            &&& id > 0 && fields.len() == 2 ==> out == Err::<Entry, CatalogProblem>(
                CatalogProblem::MissingNameHash,
            )
            &&& id > 0 && fields.len() == 3 ==> out == Err::<Entry, CatalogProblem>(
                CatalogProblem::MissingSetGroup,
            )
            &&& id > 0 && fields.len() > 3 && !hashed ==> out == Err::<Entry, CatalogProblem>(
                CatalogProblem::InvalidNameHash,
            )
            &&& id > 0 && fields.len() > 3 && hashed ==> out == Ok::<Entry, CatalogProblem>(
                Entry {
                    id,
                    oracle_id: oracle,
                    name_hash: fields[2],
                    set_group: fields[3],
                },
            )
        }),
{
    lemma_split_join(fields, '\t');
    law_decimal_reads_back(id as nat, u32::MAX as nat);
}

/// The rows of the numeric catalog are read one after the other. Blank rows and
/// a header in the first place are passed over; the first row that is wrong is
/// told with its place.
pub proof fn law_catalogs_are_read_row_by_row(rows: Seq<Seq<char>>, row: Seq<char>)
    requires
        catalog_of(rows) is Ok,
    ensures
        ({
            let before = catalog_of(rows)->Ok_0;
            let out = catalog_of(rows.push(row));
            let header = rows.len() == 0 && starts_with(row, "#id\t"@);
            &&& is_blank(row) || header ==> out == Ok::<Catalog, (int, CatalogProblem)>(before)
            &&& trim(row).len() > 0 && !header ==> match entry_of(row) {
                Ok(entry) => out == Ok::<Catalog, (int, CatalogProblem)>(
                    with_entry(before, entry),
                ),
                Err(problem) => out == Err::<Catalog, (int, CatalogProblem)>(
                    (rows.len() as int + 1, problem),
                ),
            }
        }),
{
    assert(rows.push(row).drop_last() =~= rows);
    if is_blank(row) {
        let none = Seq::<char>::empty();
        assert(row =~= row + none + none);
        law_white_space_is_trimmed(row, none, none);
    }
}

/// The rows of a source catalog are read one after the other. Blank rows are
/// passed over; the first row that is wrong is told with its line.
pub proof fn law_source_catalogs_are_read_row_by_row(
    rows: Seq<Seq<char>>,
    row: Seq<char>,
    layout: Layout,
)
    requires
        cards_of(rows, layout) is Ok,
    ensures
        ({
            let before = cards_of(rows, layout)->Ok_0;
            let out = cards_of(rows.push(row), layout);
            &&& is_blank(row) ==> out == Ok::<Seq<Card>, SourceProblem>(before)
            &&& trim(row).len() > 0 ==> match card_of(row, layout, before) {
                Ok(card) => out == Ok::<Seq<Card>, SourceProblem>(before.push(card)),
                Err(problem) => out == Err::<Seq<Card>, SourceProblem>(
                    SourceProblem::Row { line: rows.len() as int + 2, problem },
                ),
            }
        }),
{
    assert(rows.push(row).drop_last() =~= rows);
    if is_blank(row) {
        let none = Seq::<char>::empty();
        assert(row =~= row + none + none);
        law_white_space_is_trimmed(row, none, none);
    }
}

/// A digest of a name keeps its number as long as one card alone claims it; two
/// different numbers leave it without any, for good.
pub proof fn law_contended_names_have_no_number(catalog: Catalog, first: Entry, second: Entry)
    ensures
        !catalog.by_name_hash.dom().contains(first.name_hash) ==> hash_id(
            with_entry(catalog, first),
            first.name_hash,
        ) == Some(first.id),
        first.name_hash == second.name_hash && first.id != second.id ==> hash_id(
            with_entry(with_entry(catalog, first), second),
            first.name_hash,
        ) is None,
        first.name_hash == second.name_hash && first.id == second.id ==> hash_id(
            with_entry(with_entry(catalog, first), second),
            first.name_hash,
        ) == hash_id(with_entry(catalog, first), first.name_hash),
        first.name_hash != second.name_hash ==> hash_id(
            with_entry(catalog, second),
            first.name_hash,
        ) == hash_id(catalog, first.name_hash),
        catalog.by_name_hash.dom().contains(first.name_hash) && hash_id(catalog, first.name_hash)
            is None ==> hash_id(with_entry(catalog, first), first.name_hash) is None,
        with_entry(catalog, first).set_group_by_id[first.id] == first.set_group,
        with_entry(catalog, first).rows == catalog.rows + 1,
{
}

/// A name has the number of its digest; without one, the only identity that
/// bears the name gives its number, if it has only one.
pub proof fn law_names_stand_for_numbers(
    name: Seq<char>,
    candidates: Map<u128, Evidence>,
    catalog: Catalog,
    oracle: u128,
)
    ensures
        ({
            let hash = hex(text_digest(name));
            let listed = catalog.by_name_hash.dom().contains(hash)
                && catalog.by_name_hash[hash] is Some;
            &&& listed ==> name_id(name, candidates, catalog) == catalog.by_name_hash[hash]
            &&& !listed && candidates.dom() == set![oracle]
                && catalog.by_oracle_id.dom().contains(oracle)
                && catalog.by_oracle_id[oracle].len() == 1 ==> name_id(name, candidates, catalog)
                == Some(catalog.by_oracle_id[oracle][0])
            &&& !listed && candidates.dom() == set![oracle] && (
            !catalog.by_oracle_id.dom().contains(oracle) || catalog.by_oracle_id[oracle].len()
                != 1) ==> name_id(name, candidates, catalog) is None
            &&& !listed && candidates.dom().len() != 1 ==> name_id(name, candidates, catalog)
                is None
        }),
{
    if candidates.dom() == set![oracle] {
        assert(set![oracle].len() == 1);
        lemma_in_order_lists(set![oracle]);
        let list = in_order(set![oracle]);
        assert(list.to_set().contains(oracle));
        assert(list.len() > 0);
        assert(list.to_set().contains(list[0]));
    }
}

/// Scripts may write a name with semicolons for its commas, or with underscores
/// for its spaces, and in no other way.
pub proof fn law_names_have_three_spellings(alias: Seq<char>, name: Seq<char>)
    ensures
        spells(alias, name) <==> alias.len() == name.len() && ((forall|i: int|
            0 <= i < name.len() ==> #[trigger] alias[i] == name[i]) || (forall|i: int|
            0 <= i < name.len() ==> #[trigger] alias[i] == (if name[i] == ',' {
                ';'
            } else {
                name[i]
            })) || (forall|i: int|
            0 <= i < name.len() ==> #[trigger] alias[i] == (if name[i] == ' ' {
                '_'
            } else {
                name[i]
            }))),
{
    let commas = replace_char(name, ',', ';');
    let spaces = replace_char(name, ' ', '_');
    if alias.len() == name.len() {
        if forall|i: int| 0 <= i < name.len() ==> #[trigger] alias[i] == name[i] {
            assert(alias =~= name);
        }
        if forall|i: int|
            0 <= i < name.len() ==> #[trigger] alias[i] == (if name[i] == ',' {
                ';'
            } else {
                name[i]
            }) {
            assert(alias =~= commas);
        }
        if forall|i: int|
            0 <= i < name.len() ==> #[trigger] alias[i] == (if name[i] == ' ' {
                '_'
            } else {
                name[i]
            }) {
            assert(alias =~= spaces);
        }
    }
}

proof fn lemma_four(bytes: Seq<u8>)
    requires
        bytes.len() == 4,
    ensures
        big_endian(bytes) == bytes[0] * 0x100_0000 + bytes[1] * 0x1_0000 + bytes[2] * 0x100
            + bytes[3],
{
    let three = bytes.drop_last();
    let two = three.drop_last();
    let one = two.drop_last();
    assert(one.drop_last() =~= Seq::empty());
    assert(big_endian(one.drop_last()) == 0);
    assert(big_endian(one) == bytes[0]);
    assert(big_endian(two) == 256 * big_endian(one) + bytes[1]);
    assert(big_endian(three) == 256 * big_endian(two) + bytes[2]);
}

/// A token's number is the first four bytes of the digest of its key, read as a
/// number with the largest byte first; zero is replaced by one.
pub proof fn law_token_numbers_are_digests(key: Seq<char>)
    requires
        text_digest(key).len() == 32,
    ensures
        ({
            let digest = text_digest(key);
            let number = digest[0] * 0x100_0000 + digest[1] * 0x1_0000 + digest[2] * 0x100
                + digest[3];
            token_id(key) == if number == 0 {
                1
            } else {
                number
            }
        }),
{
    let digest = text_digest(key);
    let front = digest.take(4);
    lemma_four(front);
}

/// The number of an object is the first eight bytes of the digest of its name
/// without surrounding white space; zero is replaced by one.
pub proof fn law_object_numbers_are_digests(name: Seq<char>)
    requires
        text_digest(trim(name)).len() == 32,
    ensures
        ({
            let digest = text_digest(trim(name));
            let high = digest[0] * 0x100_0000 + digest[1] * 0x1_0000 + digest[2] * 0x100
                + digest[3];
            let low = digest[4] * 0x100_0000 + digest[5] * 0x1_0000 + digest[6] * 0x100
                + digest[7];
            runtime_object_id(name) == if high * 0x1_0000_0000 + low == 0 {
                1
            } else {
                high * 0x1_0000_0000 + low
            }
        }),
{
    let digest = text_digest(trim(name));
    let eight = digest.take(8);
    let seven = eight.drop_last();
    let six = seven.drop_last();
    let five = six.drop_last();
    let four = five.drop_last();
    assert(four =~= digest.take(4));
    lemma_four(digest.take(4));
    assert(big_endian(five) == 256 * big_endian(four) + digest[4]);
    assert(big_endian(six) == 256 * big_endian(five) + digest[5]);
    assert(big_endian(seven) == 256 * big_endian(six) + digest[6]);
    assert(big_endian(eight) == 256 * big_endian(seven) + digest[7]);
}

/// The suffixes count like the columns of a sheet: from `A` to `Z`, and behind
/// `Z` the letter before it moves on.
pub proof fn law_suffixes_count_on(ordinal: nat)
    ensures
        suffix(0) == seq!['A'],
        suffix(ordinal).len() > 0,
        suffix(ordinal).last() != 'Z' ==> suffix(ordinal + 1) == suffix(ordinal).drop_last().push(
            (suffix(ordinal).last() as u32 + 1) as char,
        ),
        suffix(ordinal).last() == 'Z' && ordinal >= 26 ==> suffix(ordinal + 1) == suffix(
            (ordinal / 26) as nat,
        ).push('A') && suffix(ordinal).drop_last() == suffix((ordinal / 26 - 1) as nat),
        suffix(ordinal).last() == 'Z' && ordinal < 26 ==> suffix(ordinal + 1) == seq!['A', 'A'],
{
    let next = ordinal + 1;
    if ordinal >= 26 {
        assert(suffix(ordinal).drop_last() =~= suffix((ordinal / 26 - 1) as nat));
    } else {
        assert(suffix(ordinal).drop_last() =~= Seq::empty());
    }
    if ordinal % 26 == 25 {
        assert(next % 26 == 0);
        assert(next / 26 == ordinal / 26 + 1);
        if ordinal < 26 {
            assert(suffix(0) =~= seq!['A']);
            assert(suffix(26) =~= seq!['A', 'A']);
        }
    } else {
        assert(next % 26 == ordinal % 26 + 1);
        assert(next / 26 == ordinal / 26);
        assert(suffix(next) =~= suffix(ordinal).drop_last().push(
            (suffix(ordinal).last() as u32 + 1) as char,
        ));
    }
}

proof fn lemma_join_four(a: Seq<char>, b: Seq<char>, c: Seq<char>, d: Seq<char>)
    ensures
        join(seq![a, b, c, d], seq!['\t']) == a + seq!['\t'] + b + seq!['\t'] + c + seq!['\t'] + d,
{
    let tab = seq!['\t'];
    let all = seq![a, b, c, d];
    assert(all.drop_first() =~= seq![b, c, d]);
    assert(seq![b, c, d].drop_first() =~= seq![c, d]);
    assert(seq![c, d].drop_first() =~= seq![d]);
    assert(seq![d].drop_first() =~= Seq::empty());
    assert(join_tail(seq![d].drop_first(), tab) =~= Seq::empty());
    assert(join_tail(seq![d], tab) =~= tab + d);
    assert(join_tail(seq![c, d], tab) =~= tab + c + tab + d);
    assert(join_tail(seq![b, c, d], tab) =~= tab + b + tab + c + tab + d);
    assert(join(all, tab) =~= a + tab + b + tab + c + tab + d);
}

/// The anonymous catalog has a header and a row for each card: its number, its
/// identity, the digest of its name, and the anonymous ID of its first set.
pub proof fn law_catalogs_are_written_row_by_row(
    cards: Seq<Card>,
    sets: Map<Seq<char>, SetInfo>,
    ids: Map<u128, Seq<char>>,
    at: int,
)
    requires
        catalog_rows(cards, sets, ids) is Ok,
        0 <= at < cards.len(),
    ensures
        ({
            let rows = catalog_rows(cards, sets, ids)->Ok_0;
            let card = cards[at];
            &&& rows.len() == cards.len() + 1
            &&& rows[0] == "#id\toracle_id\tname_sha256\tanonymous_set_id"@
            &&& sets.dom().contains(card.set_code)
            &&& ids.dom().contains(sets[card.set_code].set_id)
            &&& rows[at + 1] == decimal(card.id as nat) + seq!['\t'] + hyphenated_text(
                card.oracle_id as nat,
            ) + seq!['\t'] + card.name_hash + seq!['\t'] + ids[sets[card.set_code].set_id]
        }),
    decreases cards.len(),
{
    lemma_catalog_count(cards, sets, ids);
    lemma_catalog_count(cards.drop_last(), sets, ids);
    let card = cards[at];
    if at < cards.len() - 1 {
        law_catalogs_are_written_row_by_row(cards.drop_last(), sets, ids, at);
        assert(cards.drop_last()[at] == card);
    } else {
        let set = set_for(card, sets, ids)->Ok_0;
        lemma_join_four(
            decimal(card.id as nat),
            hyphenated_text(card.oracle_id as nat),
            card.name_hash,
            set,
        );
    }
}

proof fn lemma_catalog_count(
    cards: Seq<Card>,
    sets: Map<Seq<char>, SetInfo>,
    ids: Map<u128, Seq<char>>,
)
    requires
        catalog_rows(cards, sets, ids) is Ok,
    ensures
        catalog_rows(cards, sets, ids)->Ok_0.len() == cards.len() + 1,
        catalog_rows(cards, sets, ids)->Ok_0[0]
            == "#id\toracle_id\tname_sha256\tanonymous_set_id"@,
        cards.len() > 0 ==> catalog_rows(cards.drop_last(), sets, ids) is Ok,
    decreases cards.len(),
{
    if cards.len() > 0 {
        lemma_catalog_count(cards.drop_last(), sets, ids);
    }
}

/// A row of an anonymous catalog is taken where it has four fields, the number
/// that is expected and a set; the first thing that is wrong is told.
pub proof fn law_anonymous_rows_are_checked(fields: Seq<Seq<char>>, id: u32, expected: nat)
    requires
        are_fields(fields),
        fields.len() == 4 ==> fields[0] == decimal(id as nat),
    ensures
        ({
            let out = origin_of(join(fields, seq!['\t']), expected);
            let set = fields.len() == 4 && fields[3].len() >= 5 && (forall|i: int|
                0 <= i < 4 ==> '0' <= #[trigger] fields[3][i] <= '9') && (forall|i: int|
                4 <= i < fields[3].len() ==> 'A' <= #[trigger] fields[3][i] <= 'Z');
            &&& fields.len() != 4 ==> out == Err::<(u32, Seq<char>), BridgeLineProblem>(
                BridgeLineProblem::ColumnCount,
            )
            &&& fields.len() == 4 && id == expected && set ==> out == Ok::<
                (u32, Seq<char>),
                BridgeLineProblem,
            >((id, fields[3]))
            &&& fields.len() == 4 && id == expected && !set ==> out == Err::<
                (u32, Seq<char>),
                BridgeLineProblem,
            >(BridgeLineProblem::InvalidOriginSet)
            &&& fields.len() == 4 && id != expected ==> out is Err
        }),
{
    lemma_split_join(fields, '\t');
    law_decimal_reads_back(id as nat, u32::MAX as nat);
    if fields.len() == 4 {
        let text = fields[3];
        if text.len() >= 5 {
            let front = text.take(4);
            let back = text.skip(4);
            assert(forall|i: int| 0 <= i < 4 ==> front[i] == text[i]);
            assert(forall|i: int| 4 <= i < text.len() ==> back[i - 4] == text[i]);
            if is_origin_set(text) {
                assert forall|i: int| 0 <= i < 4 implies '0' <= #[trigger] text[i] <= '9' by {
                    assert(is_digit(front[i]));
                }
                assert forall|i: int| 4 <= i < text.len() implies 'A' <= #[trigger] text[i]
                    <= 'Z' by {
                    assert(is_ascii_uppercase(back[i - 4]));
                }
            }
        }
    }
}

/// A line of the registry gives an anonymous ID and a set, where neither was
/// given before.
pub proof fn law_registry_lines_are_read(
    id: Seq<char>,
    raw: Seq<char>,
    set: u128,
    earlier: Seq<(Seq<char>, u128)>,
)
    requires
        lacks(id, '\t'),
        uuid_value(raw) == Some(set as nat),
        set_id_of(id) is Ok,
    ensures
        ({
            let known = exists|i: int|
                0 <= i < earlier.len() && ((#[trigger] earlier[i]).0 == id || earlier[i].1 == set);
            assignment_of(id + seq!['\t'] + raw, earlier) == if known {
                Err::<(Seq<char>, u128), RegistryLineProblem>(RegistryLineProblem::Duplicate)
            } else {
                Ok((id, set))
            }
        }),
{
    let line = id + seq!['\t'] + raw;
    let at = id.len() as int;
    assert(line[at] == '\t');
    assert forall|i: int| 0 <= i < at implies line[i] != '\t' by {
        assert(line[i] == id[i]);
    }
    lemma_find_char_is(line, '\t', at);
    assert(line.take(at) =~= id);
    assert(line.skip(at + 1) =~= raw);
    let known = exists|i: int|
        0 <= i < earlier.len() && ((#[trigger] earlier[i]).0 == id || earlier[i].1 == set);
    if has_anonymous_id(earlier, id) {
        let i = choose|i: int| 0 <= i < earlier.len() && (#[trigger] earlier[i]).0 == id;
        assert(known);
    }
    if has_set(earlier, set) {
        let i = choose|i: int| 0 <= i < earlier.len() && (#[trigger] earlier[i]).1 == set;
        assert(known);
    }
}

/// A registry has a header, and a line with the ID and the set of each
/// assignment.
pub proof fn law_registries_are_written_line_by_line(
    assignments: Seq<(Seq<char>, u128)>,
    at: int,
)
    requires
        registry_rows(assignments) is Ok,
        0 <= at < assignments.len(),
    ensures
        ({
            let rows = registry_rows(assignments)->Ok_0;
            &&& rows.len() == assignments.len() + 1
            &&& rows[0] == "#anonymous_set_id\tscryfall_set_id"@
            &&& rows[at + 1] == assignments[at].0 + seq!['\t'] + hyphenated_text(
                assignments[at].1 as nat,
            )
        }),
    decreases assignments.len(),
{
    lemma_registry_count(assignments);
    lemma_registry_count(assignments.drop_last());
    if at < assignments.len() - 1 {
        law_registries_are_written_line_by_line(assignments.drop_last(), at);
        assert(assignments.drop_last()[at] == assignments[at]);
    }
}

proof fn lemma_registry_count(assignments: Seq<(Seq<char>, u128)>)
    requires
        registry_rows(assignments) is Ok,
    ensures
        registry_rows(assignments)->Ok_0.len() == assignments.len() + 1,
        registry_rows(assignments)->Ok_0[0] == "#anonymous_set_id\tscryfall_set_id"@,
        assignments.len() > 0 ==> registry_rows(assignments.drop_last()) is Ok,
    decreases assignments.len(),
{
    if assignments.len() > 0 {
        lemma_registry_count(assignments.drop_last());
    }
}

/// Printings of one set in letters of either case count for one set; the
/// earliest date stays, and another set under the code is refused.
pub proof fn law_printings_bring_releases_forward(
    sets: Map<Seq<char>, SetInfo>,
    card: ScryfallCard,
    code: Seq<char>,
)
    requires
        code.len() == card.set@.len(),
        forall|i: int|
            0 <= i < code.len() ==> #[trigger] code[i] == (if 'A' <= card.set@[i] <= 'Z' {
                (card.set@[i] as u32 + 32) as char
            } else {
                card.set@[i]
            }),
    ensures
        ({
            let out = with_printing(sets, card);
            let date = card.released_at@;
            &&& !sets.dom().contains(code) ==> out == Ok::<Map<Seq<char>, SetInfo>, Seq<char>>(
                sets.insert(
                    code,
                    SetInfo { set_id: card.set_id.0, code, released_at: date },
                ),
            )
            &&& sets.dom().contains(code) && sets[code].set_id != card.set_id.0 ==> out == Err::<
                Map<Seq<char>, SetInfo>,
                Seq<char>,
            >(code)
            &&& sets.dom().contains(code) && sets[code].set_id == card.set_id.0 ==> {
                &&& out is Ok
                &&& out->Ok_0.dom() == sets.dom()
                &&& out->Ok_0[code].set_id == sets[code].set_id
                &&& out->Ok_0[code].code == sets[code].code
                &&& out->Ok_0[code].released_at == if text_less(date, sets[code].released_at) {
                    date
                } else {
                    sets[code].released_at
                }
                &&& forall|other: Seq<char>|
                    other != code && sets.dom().contains(other) ==> #[trigger] out->Ok_0[other]
                        == sets[other]
            }
        }),
{
    assert(ascii_lowercase(card.set@) =~= code);
    if sets.dom().contains(code) {
        assert(sets.insert(code, sets[code]).dom() =~= sets.dom());
        assert(sets.insert(
            code,
            SetInfo { released_at: card.released_at@, ..sets[code] },
        ).dom() =~= sets.dom());
    }
}

} // verus!
