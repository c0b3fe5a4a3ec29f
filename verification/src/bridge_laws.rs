//! What holds of the anonymous catalog from its writing to its reading.

use vstd::prelude::*;

use crate::bridge::{
    bridge_of, catalog_fields, catalog_row, catalog_rows, ids_by_set, lemma_catalog_row, origin_of,
    origins_of, set_for, BridgeLineProblem, BridgeProblem, CATALOG_HEADER,
};
use crate::catalog::{
    catalog_of, entry_of, is_name_hash, is_no_row, no_catalog, with_entry, Catalog, CatalogProblem,
    Entry,
};
use crate::letters::is_ascii_uppercase;
use crate::numerals::{decimal, is_digit, is_hex_digit, law_decimal_reads_back, lemma_decimal};
use crate::provenance::{
    oracle_of, oracles_of, provenance_of, ProvenanceProblem, ProvenanceRowProblem,
};
use crate::registry::{assigned, has_set};
use crate::registry_laws::{law_every_needed_set_is_assigned, lemma_set_id_chars};
use crate::set_ids::{is_origin_set, set_id_of};
use crate::sets::SetInfo;
use crate::source_catalog::Card;
use crate::tables::{
    fits_line, lacks, lemma_lines_unlines, lemma_not_blank, lemma_place_of, lemma_split_join,
    place_of,
};
use crate::text::{lemma_find_char_is, lines, split, starts_with, trim, unlines};
use crate::uuids::{hyphenated_text, law_hyphenated_reads_back, lemma_hyphenated_chars};

verus! {

proof fn lemma_ids_by_set(assignments: Seq<(Seq<char>, u128)>, set: u128)
    ensures
        ids_by_set(assignments).dom().contains(set) <==> has_set(assignments, set),
    decreases assignments.len(),
{
    if assignments.len() > 0 {
        let front = assignments.drop_last();
        lemma_ids_by_set(front, set);
        if has_set(front, set) {
            let i = choose|i: int| 0 <= i < front.len() && (#[trigger] front[i]).1 == set;
            assert(assignments[i].1 == set);
        }
        if has_set(assignments, set) {
            let i = choose|i: int|
                0 <= i < assignments.len() && (#[trigger] assignments[i]).1 == set;
            if i < front.len() {
                assert(front[i].1 == set);
            }
        }
        if assignments.last().1 == set {
            assert(assignments[assignments.len() - 1].1 == set);
        }
    }
}

/// Once the sets are assigned, the catalog can be written.
pub proof fn law_assigned_catalogs_are_written(
    cards: Seq<Card>,
    sets: Map<Seq<char>, SetInfo>,
    assignments: Seq<(Seq<char>, u128)>,
)
    requires
        assigned(cards, sets, assignments) is Ok,
    ensures
        catalog_rows(cards, sets, ids_by_set(assigned(cards, sets, assignments)->Ok_0)) is Ok,
{
    let out = assigned(cards, sets, assignments)->Ok_0;
    assert forall|i: int| 0 <= i < cards.len() implies set_for(
        #[trigger] cards[i],
        sets,
        ids_by_set(out),
    ) is Ok by {
        law_every_needed_set_is_assigned(cards, sets, assignments, i);
        lemma_ids_by_set(out, sets[cards[i].set_code].set_id);
    }
    lemma_rows_ok(cards, sets, ids_by_set(out));
}

proof fn lemma_rows_ok(
    cards: Seq<Card>,
    sets: Map<Seq<char>, SetInfo>,
    ids: Map<u128, Seq<char>>,
)
    requires
        forall|i: int| 0 <= i < cards.len() ==> set_for(#[trigger] cards[i], sets, ids) is Ok,
    ensures
        catalog_rows(cards, sets, ids) is Ok,
    decreases cards.len(),
{
    if cards.len() > 0 {
        let front = cards.drop_last();
        assert forall|i: int| 0 <= i < front.len() implies set_for(
            #[trigger] front[i],
            sets,
            ids,
        ) is Ok by {
            assert(front[i] == cards[i]);
        }
        lemma_rows_ok(front, sets, ids);
        assert(set_for(cards[cards.len() - 1], sets, ids) is Ok);
    }
}

/// What reading the written catalog should come to.
pub open spec fn loaded(
    cards: Seq<Card>,
    sets: Map<Seq<char>, SetInfo>,
    ids: Map<u128, Seq<char>>,
) -> Catalog
    decreases cards.len(),
{
    if cards.len() == 0 {
        no_catalog()
    } else {
        let card = cards.last();
        with_entry(
            loaded(cards.drop_last(), sets, ids),
            Entry {
                id: card.id,
                oracle_id: card.oracle_id,
                name_hash: card.name_hash,
                set_group: set_for(card, sets, ids)->Ok_0,
            },
        )
    }
}

/// Whether the card has a number and a hash.
pub open spec fn is_numbered(card: Card) -> bool {
    card.id > 0 && is_name_hash(card.name_hash)
}

/// Whether all anonymous IDs can be read.
pub open spec fn readable(ids: Map<u128, Seq<char>>) -> bool {
    forall|set: u128| #[trigger] ids.dom().contains(set) ==> set_id_of(ids[set]) is Ok
}

proof fn lemma_row_fields(card: Card, set: Seq<char>)
    requires
        is_numbered(card),
        set_id_of(set) is Ok,
    ensures
        split(catalog_row(card, set), '\t') == catalog_fields(card, set),
        fits_line(catalog_row(card, set)),
        trim(catalog_row(card, set)).len() > 0,
{
    let fields = catalog_fields(card, set);
    let row = catalog_row(card, set);
    let numeral = decimal(card.id as nat);
    let form = hyphenated_text(card.oracle_id as nat);
    lemma_decimal(card.id as nat);
    lemma_hyphenated_chars(card.oracle_id as nat);
    lemma_set_id_chars(set);
    assert forall|i: int| 0 <= i < fields.len() implies lacks(#[trigger] fields[i], '\t') && lacks(
        fields[i],
        '\n',
    ) by {
        assert forall|j: int| 0 <= j < fields[i].len() implies #[trigger] fields[i][j] != '\t'
            && fields[i][j] != '\n' by {
            if i == 0 {
                assert(is_digit(numeral[j]));
            } else if i == 1 {
                assert(is_hex_digit(form[j]) || form[j] == '-');
            } else if i == 2 {
                assert(is_hex_digit(card.name_hash[j]));
            } else {
                assert(is_digit(set[j]) || set[j] == '+' || is_ascii_uppercase(
                    set[j],
                ));
            }
        }
    }
    lemma_split_join(fields, '\t');
    lemma_catalog_row(card, set);
    let a = numeral.len() as int;
    let b = a + 1 + form.len();
    let c = b + 1 + card.name_hash.len();
    assert(row.len() == c + 1 + set.len());
    assert forall|j: int| 0 <= j < row.len() implies #[trigger] row[j] != '\n' by {
        if j < a {
            assert(row[j] == fields[0][j]);
        } else if a < j < b {
            assert(row[j] == fields[1][j - a - 1]);
        } else if b < j < c {
            assert(row[j] == fields[2][j - b - 1]);
        } else if c < j {
            assert(row[j] == fields[3][j - c - 1]);
        }
    }
    assert(row.last() == set.last());
    assert(row[0] == numeral[0]);
    assert(is_digit(numeral[0]));
    lemma_not_blank(row);
}

proof fn lemma_written_rows(
    cards: Seq<Card>,
    sets: Map<Seq<char>, SetInfo>,
    ids: Map<u128, Seq<char>>,
)
    requires
        catalog_rows(cards, sets, ids) is Ok,
        forall|i: int| 0 <= i < cards.len() ==> is_numbered(#[trigger] cards[i]),
        readable(ids),
    ensures
        ({
            let rows = catalog_rows(cards, sets, ids)->Ok_0;
            &&& rows.len() == cards.len() + 1
            &&& rows[0] == CATALOG_HEADER@
            &&& forall|i: int| 0 <= i < rows.len() ==> fits_line(#[trigger] rows[i])
            &&& catalog_of(rows) == Ok::<Catalog, (int, CatalogProblem)>(
                loaded(cards, sets, ids),
            )
        }),
    decreases cards.len(),
{
    let rows = catalog_rows(cards, sets, ids)->Ok_0;
    if cards.len() == 0 {
        reveal_strlit("#id\toracle_id\tname_sha256\tanonymous_set_id");
        reveal_strlit("#id\t");
        let header = CATALOG_HEADER@;
        assert(header.subrange(0, 4) =~= "#id\t"@);
        assert(starts_with(header, "#id\t"@));
        assert(rows.drop_last() =~= Seq::empty());
        assert(catalog_of(rows.drop_last()) == Ok::<Catalog, (int, CatalogProblem)>(no_catalog()));
        assert(is_no_row(rows.last(), rows.len() - 1));
        assert(fits_line(header)) by {
            assert(lacks(header, '\n'));
        }
    } else {
        let front = cards.drop_last();
        let card = cards.last();
        assert forall|i: int| 0 <= i < front.len() implies is_numbered(#[trigger] front[i]) by {
            assert(front[i] == cards[i]);
        }
        lemma_written_rows(front, sets, ids);
        let before = catalog_rows(front, sets, ids)->Ok_0;
        let set = set_for(card, sets, ids)->Ok_0;
        let row = catalog_row(card, set);
        assert(ids.dom().contains(sets[card.set_code].set_id));
        assert(is_numbered(cards[cards.len() - 1]));
        lemma_row_fields(card, set);
        assert(rows.drop_last() =~= before);
        law_decimal_reads_back(card.id as nat, u32::MAX as nat);
        law_hyphenated_reads_back(card.oracle_id);
        assert(entry_of(row) == Ok::<Entry, CatalogProblem>(
            Entry {
                id: card.id,
                oracle_id: card.oracle_id,
                name_hash: card.name_hash,
                set_group: set,
            },
        ));
        assert(!is_no_row(row, rows.len() - 1));
        assert forall|i: int| 0 <= i < rows.len() implies fits_line(#[trigger] rows[i]) by {
            if i < before.len() {
                assert(rows[i] == before[i]);
            }
        }
    }
}

/// A catalog that was written loads as the cards it was written from, each
/// with the anonymous ID of its first set.
pub proof fn law_written_catalogs_load(
    cards: Seq<Card>,
    sets: Map<Seq<char>, SetInfo>,
    ids: Map<u128, Seq<char>>,
)
    requires
        catalog_rows(cards, sets, ids) is Ok,
        forall|i: int| 0 <= i < cards.len() ==> is_numbered(#[trigger] cards[i]),
        readable(ids),
    ensures
        catalog_of(lines(unlines(catalog_rows(cards, sets, ids)->Ok_0))) == Ok::<
            Catalog,
            (int, CatalogProblem),
        >(loaded(cards, sets, ids)),
{
    lemma_written_rows(cards, sets, ids);
    lemma_lines_unlines(catalog_rows(cards, sets, ids)->Ok_0);
}

/// The IDs of the cards with the anonymous IDs of their first sets.
pub open spec fn card_origins(
    cards: Seq<Card>,
    sets: Map<Seq<char>, SetInfo>,
    ids: Map<u128, Seq<char>>,
) -> Seq<(u32, Seq<char>)> {
    Seq::new(cards.len(), |i: int| (cards[i].id, set_for(cards[i], sets, ids)->Ok_0))
}

/// A catalog that was written for cards numbered from one without a gap reads
/// back as their IDs with the anonymous IDs of their first sets.
pub proof fn law_written_catalogs_give_origins(
    cards: Seq<Card>,
    sets: Map<Seq<char>, SetInfo>,
    ids: Map<u128, Seq<char>>,
)
    requires
        catalog_rows(cards, sets, ids) is Ok,
        forall|i: int|
            0 <= i < cards.len() ==> is_numbered(#[trigger] cards[i]) && cards[i].id == i + 1,
        readable(ids),
        forall|set: u128| #[trigger] ids.dom().contains(set) ==> is_origin_set(ids[set]),
    ensures
        bridge_of(unlines(catalog_rows(cards, sets, ids)->Ok_0)) == Ok::<
            Seq<(u32, Seq<char>)>,
            BridgeProblem,
        >(card_origins(cards, sets, ids)),
{
    lemma_written_rows(cards, sets, ids);
    lemma_lines_unlines(catalog_rows(cards, sets, ids)->Ok_0);
    lemma_origins(cards, sets, ids);
}

proof fn lemma_origins(
    cards: Seq<Card>,
    sets: Map<Seq<char>, SetInfo>,
    ids: Map<u128, Seq<char>>,
)
    requires
        catalog_rows(cards, sets, ids) is Ok,
        forall|i: int|
            0 <= i < cards.len() ==> is_numbered(#[trigger] cards[i]) && cards[i].id == i + 1,
        readable(ids),
        forall|set: u128| #[trigger] ids.dom().contains(set) ==> is_origin_set(ids[set]),
    ensures
        catalog_rows(cards, sets, ids)->Ok_0.len() == cards.len() + 1,
        origins_of(catalog_rows(cards, sets, ids)->Ok_0.drop_first()) == Ok::<
            Seq<(u32, Seq<char>)>,
            BridgeProblem,
        >(card_origins(cards, sets, ids)),
    decreases cards.len(),
{
    let rows = catalog_rows(cards, sets, ids)->Ok_0;
    if cards.len() == 0 {
        assert(rows.drop_first() =~= Seq::empty());
        assert(card_origins(cards, sets, ids) =~= Seq::empty());
    } else {
        let front = cards.drop_last();
        let card = cards.last();
        assert forall|i: int| 0 <= i < front.len() implies is_numbered(#[trigger] front[i])
            && front[i].id == i + 1 by {
            assert(front[i] == cards[i]);
        }
        lemma_origins(front, sets, ids);
        let before = catalog_rows(front, sets, ids)->Ok_0;
        let set = set_for(card, sets, ids)->Ok_0;
        let row = catalog_row(card, set);
        assert(ids.dom().contains(sets[card.set_code].set_id));
        assert(is_numbered(cards[cards.len() - 1]));
        lemma_row_fields(card, set);
        law_decimal_reads_back(card.id as nat, u32::MAX as nat);
        assert(rows.drop_first().drop_last() =~= before.drop_first());
        assert(rows.drop_first().last() == row);
        assert(origin_of(row, cards.len()) == Ok::<(u32, Seq<char>), BridgeLineProblem>(
            (card.id, set),
        ));
        assert(card_origins(front, sets, ids).push((card.id, set)) =~= card_origins(
            cards,
            sets,
            ids,
        ));
    }
}

/// A catalog that was written for cards numbered from one without a gap gives
/// their Oracle IDs in the order of their numbers.
pub proof fn law_written_catalogs_give_provenance(
    cards: Seq<Card>,
    sets: Map<Seq<char>, SetInfo>,
    ids: Map<u128, Seq<char>>,
)
    requires
        cards.len() > 0,
        catalog_rows(cards, sets, ids) is Ok,
        forall|i: int|
            0 <= i < cards.len() ==> is_numbered(#[trigger] cards[i]) && cards[i].id == i + 1,
        readable(ids),
    ensures
        provenance_of(unlines(catalog_rows(cards, sets, ids)->Ok_0)) == Ok::<
            Seq<u128>,
            ProvenanceProblem,
        >(Seq::new(cards.len(), |i: int| cards[i].oracle_id)),
{
    let rows = catalog_rows(cards, sets, ids)->Ok_0;
    lemma_written_rows(cards, sets, ids);
    lemma_lines_unlines(rows);
    lemma_catalog_columns();
    lemma_oracles(cards, sets, ids);
}

proof fn lemma_catalog_columns()
    ensures
        place_of(split(CATALOG_HEADER@, '\t'), "#id"@) == Some(0int),
        place_of(split(CATALOG_HEADER@, '\t'), "oracle_id"@) == Some(1int),
{
    let line = CATALOG_HEADER@;
    reveal_strlit("#id\toracle_id\tname_sha256\tanonymous_set_id");
    reveal_strlit("#id");
    reveal_strlit("oracle_id");
    lemma_find_char_is(line, '\t', 3);
    let later = line.skip(4);
    assert(line.take(3) =~= "#id"@);
    lemma_find_char_is(later, '\t', 9);
    assert(later.take(9) =~= "oracle_id"@);
    let rest = split(later.skip(10), '\t');
    let columns = split(line, '\t');
    assert(split(later, '\t') =~= seq!["oracle_id"@] + rest);
    assert(columns =~= seq!["#id"@] + split(later, '\t'));
    assert(columns[0] == "#id"@);
    assert(columns[1] == "oracle_id"@);
    lemma_place_of(columns, "#id"@);
    lemma_place_of(columns, "oracle_id"@);
    assert("#id"@[0] != "oracle_id"@[0]);
}

proof fn lemma_oracles(
    cards: Seq<Card>,
    sets: Map<Seq<char>, SetInfo>,
    ids: Map<u128, Seq<char>>,
)
    requires
        catalog_rows(cards, sets, ids) is Ok,
        forall|i: int|
            0 <= i < cards.len() ==> is_numbered(#[trigger] cards[i]) && cards[i].id == i + 1,
        readable(ids),
    ensures
        catalog_rows(cards, sets, ids)->Ok_0.len() == cards.len() + 1,
        oracles_of(catalog_rows(cards, sets, ids)->Ok_0.drop_first(), 0, 1) == Ok::<
            Seq<u128>,
            ProvenanceProblem,
        >(Seq::new(cards.len(), |i: int| cards[i].oracle_id)),
    decreases cards.len(),
{
    let rows = catalog_rows(cards, sets, ids)->Ok_0;
    let oracles = Seq::new(cards.len(), |i: int| cards[i].oracle_id);
    if cards.len() == 0 {
        assert(rows.drop_first() =~= Seq::empty());
        assert(oracles =~= Seq::empty());
    } else {
        let front = cards.drop_last();
        let card = cards.last();
        assert forall|i: int| 0 <= i < front.len() implies is_numbered(#[trigger] front[i])
            && front[i].id == i + 1 by {
            assert(front[i] == cards[i]);
        }
        lemma_oracles(front, sets, ids);
        let before = catalog_rows(front, sets, ids)->Ok_0;
        let set = set_for(card, sets, ids)->Ok_0;
        let row = catalog_row(card, set);
        assert(ids.dom().contains(sets[card.set_code].set_id));
        assert(is_numbered(cards[cards.len() - 1]));
        lemma_row_fields(card, set);
        law_decimal_reads_back(card.id as nat, u32::MAX as nat);
        law_hyphenated_reads_back(card.oracle_id);
        assert(rows.drop_first().drop_last() =~= before.drop_first());
        assert(rows.drop_first().last() == row);
        assert(oracle_of(row, 0, 1, cards.len()) == Ok::<u128, ProvenanceRowProblem>(
            card.oracle_id,
        ));
        assert(Seq::new(front.len(), |i: int| front[i].oracle_id).push(card.oracle_id) =~= oracles);
    }
}

/// Whether two cards are one to the anonymous catalog: they agree in ID, Oracle
/// ID and digest, and their first sets, under whatever codes, are one set.
pub open spec fn same_to_catalog(
    left: Card,
    left_sets: Map<Seq<char>, SetInfo>,
    right: Card,
    right_sets: Map<Seq<char>, SetInfo>,
) -> bool {
    &&& left.id == right.id
    &&& left.oracle_id == right.oracle_id
    &&& left.name_hash == right.name_hash
    &&& left_sets.dom().contains(left.set_code)
    &&& right_sets.dom().contains(right.set_code)
    &&& left_sets[left.set_code].set_id == right_sets[right.set_code].set_id
}

/// The anonymous catalog is the same whatever the publisher's set codes and the
/// release dates are: nothing of them is left in it.
pub proof fn law_catalogs_tell_no_set_codes(
    left: Seq<Card>,
    left_sets: Map<Seq<char>, SetInfo>,
    right: Seq<Card>,
    right_sets: Map<Seq<char>, SetInfo>,
    ids: Map<u128, Seq<char>>,
)
    requires
        left.len() == right.len(),
        forall|i: int|
            0 <= i < left.len() ==> same_to_catalog(
                #[trigger] left[i],
                left_sets,
                right[i],
                right_sets,
            ),
    ensures
        catalog_rows(left, left_sets, ids) == catalog_rows(right, right_sets, ids),
    decreases left.len(),
{
    if left.len() > 0 {
        assert forall|i: int| 0 <= i < left.len() - 1 implies same_to_catalog(
            #[trigger] left.drop_last()[i],
            left_sets,
            right.drop_last()[i],
            right_sets,
        ) by {
            assert(same_to_catalog(left[i], left_sets, right[i], right_sets));
        }
        law_catalogs_tell_no_set_codes(
            left.drop_last(),
            left_sets,
            right.drop_last(),
            right_sets,
            ids,
        );
        assert(same_to_catalog(
            left[left.len() - 1],
            left_sets,
            right[right.len() - 1],
            right_sets,
        ));
    }
}

} // verus!
