//! Where the names of the sources end up in the report of a run.

use vstd::prelude::*;

use crate::catalog::{catalog_of, Catalog};
use crate::generate::{
    extends, grows, lemma_name_grows, lemma_source_grows, with_front, with_identities, with_name,
    with_source, with_sources, Corpus, Progress,
};
use crate::names::{
    bearers, candidates_for, is_indexed, no_names, resolved, with_both_names, with_cards,
    with_faces, with_identity, Evidence, Names,
};
use crate::numbered::{in_order, lemma_in_order_lists};
use crate::paths::relative;
use crate::report::{expected_names, Problem};
use crate::script::{identity_name, meld_back, optional_view};
use crate::scryfall::{ScryfallCard, ScryfallFace};
use crate::signatures::{card_signature, face_signature};
use crate::text::trim;

verus! {

/// Whether every name in the table has at least one identity.
pub open spec fn names_somebody(table: Map<Seq<char>, Map<u128, Evidence>>) -> bool {
    forall|name: Seq<char>| #[trigger]
        table.dom().contains(name) ==> table[name].dom().finite() && table[name].dom().len() > 0
}

/// Whether every identity that the catalog lists has at least one ID.
pub open spec fn lists_ids(catalog: Catalog) -> bool {
    forall|oracle_id: u128| #[trigger]
        catalog.by_oracle_id.dom().contains(oracle_id) ==> catalog.by_oracle_id[oracle_id].len() > 0
}

/// Whether names have identities and listed identities have IDs.
pub open spec fn is_filled(names: Names, catalog: Catalog) -> bool {
    names_somebody(names.whole_cards) && names_somebody(names.faces) && lists_ids(catalog)
}

/// Whether a problem of the source's name is among the problems.
pub open spec fn told(problems: Seq<Problem>, source: Seq<char>, name: Seq<char>) -> bool {
    exists|i: int|
        0 <= i < problems.len() && (#[trigger] problems[i]).source == source && problems[i].name
            == name
}

/// Whether an identity that bears the name has an ID with a script.
pub open spec fn has_script(corpus: Corpus, progress: Progress, name: Seq<char>) -> bool {
    exists|oracle_id: u128, id: u32|
        #![trigger corpus.catalog.by_oracle_id[oracle_id], progress.generated.dom().contains(id)]
        {
            &&& candidates_for(corpus.names, name) is Some
            &&& candidates_for(corpus.names, name)->0.dom().contains(oracle_id)
            &&& corpus.catalog.by_oracle_id.dom().contains(oracle_id)
            &&& corpus.catalog.by_oracle_id[oracle_id].contains(id)
            &&& progress.generated.dom().contains(id)
        }
}

/// Whether a name has left a trace: its script, or a problem that names it.
pub open spec fn has_landed(
    corpus: Corpus,
    progress: Progress,
    source: Seq<char>,
    name: Seq<char>,
) -> bool {
    ||| has_script(corpus, progress, name)
    ||| told(progress.missing, relative(corpus.root, source), name)
    ||| told(progress.ambiguous, relative(corpus.root, source), name)
}

proof fn lemma_told_stays(
    before: Seq<Problem>,
    after: Seq<Problem>,
    source: Seq<char>,
    name: Seq<char>,
)
    requires
        extends(before, after),
        told(before, source, name),
    ensures
        told(after, source, name),
{
    let i = choose|i: int|
        0 <= i < before.len() && (#[trigger] before[i]).source == source && before[i].name == name;
    assert(after[i] == before[i]);
}

proof fn lemma_landed_stays(
    corpus: Corpus,
    before: Progress,
    after: Progress,
    source: Seq<char>,
    name: Seq<char>,
)
    requires
        grows(before, after),
        has_landed(corpus, before, source, name),
    ensures
        has_landed(corpus, after, source, name),
{
    let shown = relative(corpus.root, source);
    if told(before.missing, shown, name) {
        lemma_told_stays(before.missing, after.missing, shown, name);
    } else if told(before.ambiguous, shown, name) {
        lemma_told_stays(before.ambiguous, after.ambiguous, shown, name);
    } else {
        let (oracle_id, id) = choose|oracle_id: u128, id: u32|
            #![trigger corpus.catalog.by_oracle_id[oracle_id], before.generated.dom().contains(id)]
            {
                &&& candidates_for(corpus.names, name) is Some
                &&& candidates_for(corpus.names, name)->0.dom().contains(oracle_id)
                &&& corpus.catalog.by_oracle_id.dom().contains(oracle_id)
                &&& corpus.catalog.by_oracle_id[oracle_id].contains(id)
                &&& before.generated.dom().contains(id)
            };
        assert(after.generated.dom().contains(id));
        assert(corpus.catalog.by_oracle_id[oracle_id].contains(id));
    }
}

/// The last of the identities' IDs has a script, or the identity is told as
/// missing.
proof fn lemma_identities_land(
    progress: Progress,
    corpus: Corpus,
    source: Seq<char>,
    name: Seq<char>,
    text: Seq<char>,
    oracle_ids: Seq<u128>,
)
    requires
        lists_ids(corpus.catalog),
        oracle_ids.len() > 0,
        candidates_for(corpus.names, name) is Some,
        candidates_for(corpus.names, name)->0.dom().contains(oracle_ids.last()),
    ensures
        has_landed(
            corpus,
            with_identities(progress, corpus, source, name, text, oracle_ids),
            source,
            name,
        ),
{
    let earlier = with_identities(progress, corpus, source, name, text, oracle_ids.drop_last());
    let after = with_identities(progress, corpus, source, name, text, oracle_ids);
    let oracle_id = oracle_ids.last();
    if corpus.catalog.by_oracle_id.dom().contains(oracle_id) {
        let ids = corpus.catalog.by_oracle_id[oracle_id];
        assert(ids.contains(ids[ids.len() - 1]));
        assert(after.generated.dom().contains(ids.last()));
        assert(has_script(corpus, after, name));
    } else {
        let i = earlier.missing.len() as int;
        assert(after.missing[i].source == relative(corpus.root, source));
        assert(after.missing[i].name == name);
    }
}

proof fn lemma_name_lands(
    progress: Progress,
    corpus: Corpus,
    source: Seq<char>,
    name: Seq<char>,
    text: Seq<char>,
)
    requires
        is_filled(corpus.names, corpus.catalog),
    ensures
        has_landed(corpus, with_name(progress, corpus, source, name, text), source, name),
{
    let after = with_name(progress, corpus, source, name, text);
    let attempting = Progress { attempted: progress.attempted.insert((source, name)), ..progress };
    match candidates_for(corpus.names, name) {
        None => {
            let i = progress.missing.len() as int;
            assert(after.missing[i].name == name);
        },
        Some(candidates) => match resolved(text, candidates) {
            None => {
                let i = progress.ambiguous.len() as int;
                assert(after.ambiguous[i].name == name);
            },
            Some(ids) => {
                assert(ids.subset_of(candidates.dom()));
                assert(candidates.dom().finite());
                vstd::set_lib::lemma_len_subset(ids, candidates.dom());
                assert(ids.len() > 0);
                lemma_in_order_lists(ids);
                let list = in_order(ids);
                if list.len() == 0 {
                    assert(list.to_set() =~= Set::empty());
                }
                assert(list.to_set().contains(list.last()));
                lemma_identities_land(attempting, corpus, source, name, text, list);
            },
        },
    }
}

proof fn lemma_source_lands(
    progress: Progress,
    corpus: Corpus,
    source: Seq<char>,
    text: Seq<char>,
    name: Seq<char>,
)
    requires
        is_filled(corpus.names, corpus.catalog),
        expected_names(text).contains(name),
    ensures
        has_landed(corpus, with_source(progress, corpus, source, text), source, name),
{
    reveal(expected_names);
    let front = with_front(progress, corpus, source, text);
    let after = with_source(progress, corpus, source, text);
    if identity_name(text) == Some(name) {
        lemma_name_lands(progress, corpus, source, name, text);
        if let Some((back_name, back)) = meld_back(text) {
            lemma_name_grows(front, corpus, source, back_name, back);
            lemma_landed_stays(corpus, front, after, source, name);
        }
    } else {
        let (back_name, back) = meld_back(text)->0;
        lemma_name_lands(front, corpus, source, back_name, back);
    }
}

/// Every name that one of the sources defines ends up in a script, among the
/// missing mappings or among the ambiguous ones.
pub proof fn law_every_name_lands(
    progress: Progress,
    corpus: Corpus,
    sources: Seq<(Seq<char>, Seq<char>)>,
    at: int,
    name: Seq<char>,
)
    requires
        is_filled(corpus.names, corpus.catalog),
        0 <= at < sources.len(),
        expected_names(sources[at].1).contains(name),
    ensures
        has_landed(corpus, with_sources(progress, corpus, sources), sources[at].0, name),
    decreases sources.len(),
{
    let earlier = with_sources(progress, corpus, sources.drop_last());
    let after = with_sources(progress, corpus, sources);
    let (source, text) = sources.last();
    assert(after == with_source(earlier, corpus, source, text));
    if at < sources.len() - 1 {
        assert(sources.drop_last()[at] == sources[at]);
        law_every_name_lands(progress, corpus, sources.drop_last(), at, name);
        lemma_source_grows(earlier, corpus, source, text);
        lemma_landed_stays(corpus, earlier, after, sources[at].0, name);
    } else {
        assert(sources[at] == (source, text));
        lemma_source_lands(earlier, corpus, source, text, name);
    }
}

proof fn lemma_identity_names_somebody(
    table: Map<Seq<char>, Map<u128, Evidence>>,
    name: Seq<char>,
    printed_name: Option<Seq<char>>,
    id: u128,
    oracle_text: Option<Seq<char>>,
    signature: Seq<(Seq<char>, Seq<char>)>,
)
    requires
        names_somebody(table),
    ensures
        names_somebody(with_identity(table, name, id, oracle_text, signature)),
        names_somebody(with_both_names(table, name, printed_name, id, oracle_text, signature)),
{
    lemma_one_more(table, name, id, oracle_text, signature);
    let named = with_identity(table, name, id, oracle_text, signature);
    if let Some(printed) = printed_name {
        lemma_one_more(named, printed, id, oracle_text, signature);
    }
}

proof fn lemma_one_more(
    table: Map<Seq<char>, Map<u128, Evidence>>,
    name: Seq<char>,
    id: u128,
    oracle_text: Option<Seq<char>>,
    signature: Seq<(Seq<char>, Seq<char>)>,
)
    requires
        names_somebody(table),
    ensures
        names_somebody(with_identity(table, name, id, oracle_text, signature)),
{
    let after = with_identity(table, name, id, oracle_text, signature);
    assert forall|other: Seq<char>| #[trigger] after.dom().contains(other) implies after[
        other
    ].dom().finite() && after[other].dom().len() > 0 by {
        if other == trim(name) {
            let before = bearers(table, other);
            assert(before.dom().finite());
            assert(after[other].dom() =~= before.dom().insert(id));
        } else {
            assert(table.dom().contains(other));
        }
    }
}

proof fn lemma_faces_name_somebody(
    table: Map<Seq<char>, Map<u128, Evidence>>,
    faces: Seq<ScryfallFace>,
    id: u128,
)
    requires
        names_somebody(table),
    ensures
        names_somebody(with_faces(table, faces, id)),
    decreases faces.len(),
{
    if faces.len() > 0 {
        let face = faces.last();
        lemma_faces_name_somebody(table, faces.drop_last(), id);
        lemma_identity_names_somebody(
            with_faces(table, faces.drop_last(), id),
            face.name@,
            optional_view(face.printed_name),
            id,
            optional_view(face.oracle_text),
            seq![face_signature(face.mana_cost@, face.type_line@)],
        );
    }
}

proof fn lemma_cards_name_somebody(cards: Seq<ScryfallCard>)
    ensures
        names_somebody(with_cards(no_names(), cards).whole_cards),
        names_somebody(with_cards(no_names(), cards).faces),
    decreases cards.len(),
{
    if cards.len() > 0 {
        let before = with_cards(no_names(), cards.drop_last());
        let card = cards.last();
        lemma_cards_name_somebody(cards.drop_last());
        if is_indexed(card) {
            let id = (card.oracle_id->0).0;
            lemma_identity_names_somebody(
                before.whole_cards,
                card.name@,
                optional_view(card.printed_name),
                id,
                optional_view(card.oracle_text),
                card_signature(card),
            );
            lemma_faces_name_somebody(before.faces, card.card_faces@, id);
        }
    }
}

proof fn lemma_catalogs_list_ids(rows: Seq<Seq<char>>)
    requires
        catalog_of(rows) is Ok,
    ensures
        lists_ids(catalog_of(rows)->Ok_0),
    decreases rows.len(),
{
    if rows.len() > 0 {
        lemma_catalogs_list_ids(rows.drop_last());
    }
}

/// An index of printings and a catalog that was read are filled.
pub proof fn law_indexes_are_filled(cards: Seq<ScryfallCard>, rows: Seq<Seq<char>>)
    requires
        catalog_of(rows) is Ok,
    ensures
        is_filled(with_cards(no_names(), cards), catalog_of(rows)->Ok_0),
{
    lemma_cards_name_somebody(cards);
    lemma_catalogs_list_ids(rows);
}

} // verus!
