//! The index of token scripts, and their anonymous forms.

use std::collections::BTreeMap;

use vstd::prelude::*;

use crate::catalog::{numeric_name_references, references_of, CatalogIndex};
use crate::digest::{token_id, token_id_for_key};
use crate::ids::{CardScriptId, TokenScriptId};
use crate::maps::{row_map, TextMap};
use crate::names::NameIndex;
use crate::parameters::TokenIndex;
use crate::references::reference_views;
use crate::sanitize::{anonymous_token_script, sanitize_token_script};
use crate::text::string_views;

verus! {

broadcast use vstd::std_specs::btree::group_btree_axioms;

/// Two token scripts whose keys have one ID.
#[derive(Debug)]
pub struct TokenCollision {
    pub first: String,
    pub second: String,
    pub id: TokenScriptId,
}

/// Whether no ID stands twice.
pub open spec fn distinct_ids(ids: Seq<TokenScriptId>) -> bool {
    forall|i: int, j: int| 0 <= i < j < ids.len() ==> (#[trigger] ids[i]).0 != (#[trigger] ids[j]).0
}

/// The index of the keys with their IDs.
pub open spec fn id_map(keys: Seq<Seq<char>>, ids: Seq<TokenScriptId>) -> Map<
    Seq<char>,
    TokenScriptId,
>
    decreases keys.len(),
{
    if keys.len() == 0 || ids.len() == 0 {
        Map::empty()
    } else {
        id_map(keys.drop_last(), ids.drop_last()).insert(keys.last(), ids.last())
    }
}

/// Whether the keys at `first` and `second` are the first two with one ID.
pub open spec fn first_collision(ids: Seq<TokenScriptId>, first: int, second: int) -> bool {
    &&& 0 <= first < second < ids.len()
    &&& ids[first].0 == ids[second].0
    &&& distinct_ids(ids.take(second))
}

/// Indexes token keys that have the given IDs.
pub fn index_token_ids(keys: &[String], ids: &[TokenScriptId]) -> (res: Result<
    TokenIndex,
    TokenCollision,
>)
    requires
        keys@.len() == ids@.len(),
    ensures
        match res {
            Ok(index) => distinct_ids(ids@) && index@ == id_map(string_views(keys@), ids@),
            Err(collision) => exists|first: int, second: int| #[trigger]
                first_collision(ids@, first, second) && collision.first@ == keys@[first]@
                    && collision.second@ == keys@[second]@ && collision.id == ids@[second],
        },
{
    let ghost names = string_views(keys@);
    let mut by_name: TokenIndex = TextMap::new();
    let mut by_id: BTreeMap<u32, usize> = BTreeMap::new();
    let mut i: usize = 0;
    while i < keys.len()
        invariant
            i <= keys@.len(),
            keys@.len() == ids@.len(),
            names == string_views(keys@),
            distinct_ids(ids@.take(i as int)),
            by_name@ == id_map(names.take(i as int), ids@.take(i as int)),
            forall|id: u32| #[trigger]
                by_id@.dom().contains(id) ==> by_id@[id] < i && ids@[by_id@[id] as int].0 == id,
            forall|j: int| 0 <= j < i ==> by_id@.dom().contains((#[trigger] ids@[j]).0),
        decreases keys@.len() - i,
    {
        let id = ids[i];
        match by_id.get(&id.0) {
            Some(first) => {
                let first: usize = *first;
                assert(first_collision(ids@, first as int, i as int));
                return Err(
                    TokenCollision { first: keys[first].clone(), second: keys[i].clone(), id },
                );
            },
            None => {},
        }
        by_id.insert(id.0, i);
        by_name.insert(keys[i].clone(), id);
        proof {
            let seen = ids@.take(i + 1);
            assert(seen.drop_last() =~= ids@.take(i as int));
            assert(names.take(i + 1).drop_last() =~= names.take(i as int));
            assert forall|a: int, b: int| 0 <= a < b < seen.len() implies (#[trigger] seen[a]).0 != (
            #[trigger] seen[b]).0 by {
                if b < i {
                    assert(ids@.take(i as int)[a] == seen[a]);
                    assert(ids@.take(i as int)[b] == seen[b]);
                } else {
                    assert(seen[a] == ids@[a]);
                }
            }
        }
        i += 1;
    }
    assert(names.take(names.len() as int) =~= names);
    assert(ids@.take(ids@.len() as int) =~= ids@);
    Ok(by_name)
}

/// The IDs of the keys.
pub open spec fn key_ids(keys: Seq<Seq<char>>) -> Seq<TokenScriptId> {
    Seq::new(keys.len(), |i: int| TokenScriptId(token_id(keys[i]) as u32))
}

/// Indexes the token scripts with the given keys, or names the first two that
/// would share an ID.
pub fn build_token_index(keys: &[String]) -> (res: Result<TokenIndex, TokenCollision>)
    ensures
        ({
            let ids = key_ids(string_views(keys@));
            match res {
                Ok(index) => distinct_ids(ids) && index@ == id_map(string_views(keys@), ids),
                Err(collision) => exists|first: int, second: int| #[trigger]
                    first_collision(ids, first, second) && collision.first@ == keys@[first]@
                        && collision.second@ == keys@[second]@ && collision.id == ids[second],
            }
        }),
{
    let mut ids: Vec<TokenScriptId> = Vec::new();
    let ghost wanted = key_ids(string_views(keys@));
    let mut i: usize = 0;
    while i < keys.len()
        invariant
            i <= keys@.len(),
            wanted == key_ids(string_views(keys@)),
            ids@ == wanted.take(i as int),
        decreases keys@.len() - i,
    {
        let id = token_id_for_key(keys[i].as_str());
        proof {
            assert(string_views(keys@)[i as int] == keys@[i as int]@);
            assert(wanted[i as int] == id);
            assert(wanted.take(i + 1) =~= wanted.take(i as int).push(id));
        }
        ids.push(id);
        i += 1;
    }
    assert(wanted.take(wanted.len() as int) =~= wanted);
    index_token_ids(keys, ids.as_slice())
}

/// The index holds each key with the ID at its place, where no ID stands
/// twice.
proof fn lemma_id_map(keys: Seq<Seq<char>>, ids: Seq<TokenScriptId>, at: int)
    requires
        keys.len() == ids.len(),
        0 <= at < keys.len(),
        forall|i: int, j: int|
            0 <= i < keys.len() && 0 <= j < keys.len() && #[trigger] keys[i] == #[trigger] keys[j]
                ==> ids[i] == ids[j],
    ensures
        id_map(keys, ids).dom().contains(keys[at]),
        id_map(keys, ids)[keys[at]] == ids[at],
    decreases keys.len(),
{
    if keys.last() != keys[at] {
        assert(at < keys.len() - 1);
        assert(keys.drop_last()[at] == keys[at]);
        assert(ids.drop_last()[at] == ids[at]);
        assert forall|i: int, j: int|
            0 <= i < keys.len() - 1 && 0 <= j < keys.len() - 1 && #[trigger] keys.drop_last()[i]
                == #[trigger] keys.drop_last()[j] implies ids.drop_last()[i]
            == ids.drop_last()[j] by {
            assert(keys[i] == keys[j]);
        }
        lemma_id_map(keys.drop_last(), ids.drop_last(), at);
    }
}

/// Every indexed token script is found under its key with the ID that its key
/// alone determines, and no two of them share an ID.
pub proof fn law_indexed_tokens_are_found(keys: Seq<Seq<char>>, at: int, other: int)
    requires
        distinct_ids(key_ids(keys)),
        0 <= at < keys.len(),
        0 <= other < keys.len(),
        at != other,
    ensures
        id_map(keys, key_ids(keys)).dom().contains(keys[at]),
        id_map(keys, key_ids(keys))[keys[at]] == TokenScriptId(token_id(keys[at]) as u32),
        key_ids(keys)[at].0 != key_ids(keys)[other].0,
{
    lemma_id_map(keys, key_ids(keys), at);
    if at < other {
        assert(key_ids(keys)[at].0 != key_ids(keys)[other].0);
    } else {
        assert(key_ids(keys)[other].0 != key_ids(keys)[at].0);
    }
}

/// The key and the text of a token script.
pub struct TokenSource {
    pub key: String,
    pub text: String,
}

/// The anonymous token scripts with their IDs, or the first key that the
/// index does not have.
pub open spec fn token_scripts(
    sources: Seq<TokenSource>,
    references: Seq<(Seq<char>, u32)>,
    tokens: Seq<(Seq<char>, TokenScriptId)>,
) -> Result<Seq<(TokenScriptId, Seq<char>)>, Seq<char>>
    decreases sources.len(),
{
    if sources.len() == 0 {
        Ok(Seq::empty())
    } else {
        match token_scripts(sources.drop_last(), references, tokens) {
            Err(key) => Err(key),
            Ok(earlier) => {
                let source = sources.last();
                let index = row_map(tokens);
                if index.dom().contains(source.key@) {
                    let id = index[source.key@];
                    Ok(
                        earlier.push(
                            (id, anonymous_token_script(source.text@, id.0, references, tokens)),
                        ),
                    )
                } else {
                    Err(source.key@)
                }
            },
        }
    }
}

proof fn lemma_token_error(
    sources: Seq<TokenSource>,
    references: Seq<(Seq<char>, u32)>,
    tokens: Seq<(Seq<char>, TokenScriptId)>,
    count: int,
)
    requires
        0 <= count <= sources.len(),
        token_scripts(sources.take(count), references, tokens) is Err,
    ensures
        token_scripts(sources, references, tokens) == token_scripts(
            sources.take(count),
            references,
            tokens,
        ),
    decreases sources.len(),
{
    if count == sources.len() {
        assert(sources.take(count) =~= sources);
    } else {
        assert(sources.drop_last().take(count) =~= sources.take(count));
        lemma_token_error(sources.drop_last(), references, tokens, count);
    }
}

/// The scripts' IDs and texts.
pub open spec fn script_views(scripts: Seq<(TokenScriptId, String)>) -> Seq<
    (TokenScriptId, Seq<char>),
> {
    Seq::new(scripts.len(), |i: int| (scripts[i].0, scripts[i].1@))
}

/// What the result of making token scripts says.
pub open spec fn token_result(res: Result<Vec<(TokenScriptId, String)>, String>) -> Result<
    Seq<(TokenScriptId, Seq<char>)>,
    Seq<char>,
> {
    match res {
        Ok(scripts) => Ok(script_views(scripts@)),
        Err(key) => Err(key@),
    }
}

/// Makes the anonymous token scripts, with the given spellings of card names.
pub fn generate_token_scripts(
    sources: &[TokenSource],
    references: &[(String, CardScriptId)],
    token_index: &TokenIndex,
) -> (res: Result<Vec<(TokenScriptId, String)>, String>)
    ensures
        token_result(res) == token_scripts(
            sources@,
            reference_views(references@),
            token_index.rows(),
        ),
{
    let ghost refs = reference_views(references@);
    let ghost tokens = token_index.rows();
    let mut out: Vec<(TokenScriptId, String)> = Vec::new();
    let mut i: usize = 0;
    assert(script_views(out@) =~= Seq::empty());
    assert(sources@.take(0) =~= Seq::empty());
    while i < sources.len()
        invariant
            i <= sources@.len(),
            refs == reference_views(references@),
            tokens == token_index.rows(),
            token_scripts(sources@.take(i as int), refs, tokens) == Ok::<
                Seq<(TokenScriptId, Seq<char>)>,
                Seq<char>,
            >(script_views(out@)),
        decreases sources@.len() - i,
    {
        let source = &sources[i];
        proof {
            assert(sources@.take(i + 1).drop_last() =~= sources@.take(i as int));
        }
        match token_index.get(source.key.as_str()) {
            Some(id) => {
                let ghost before = script_views(out@);
                let script = sanitize_token_script(
                    source.text.as_str(),
                    *id,
                    references,
                    token_index,
                );
                let ghost pair = (*id, script@);
                out.push((*id, script));
                assert(script_views(out@) =~= before.push(pair));
            },
            None => {
                proof {
                    lemma_token_error(sources@, refs, tokens, i + 1);
                }
                return Err(source.key.clone());
            },
        }
        i += 1;
    }
    assert(sources@.take(sources@.len() as int) =~= sources@);
    Ok(out)
}

/// Makes the anonymous token scripts.
pub fn generate_tokens(
    sources: &[TokenSource],
    card_names: &NameIndex,
    catalog: &CatalogIndex,
    token_index: &TokenIndex,
) -> (res: Result<Vec<(TokenScriptId, String)>, String>)
    ensures
        token_result(res) == token_scripts(
            sources@,
            references_of(card_names@, catalog@),
            token_index.rows(),
        ),
{
    let references = numeric_name_references(card_names, catalog);
    generate_token_scripts(sources, references.as_slice(), token_index)
}

/// With the index that was built from their keys, every token script is made,
/// under the ID of its key.
pub proof fn law_every_token_script_is_made(
    sources: Seq<TokenSource>,
    references: Seq<(Seq<char>, u32)>,
    tokens: Seq<(Seq<char>, TokenScriptId)>,
    keys: Seq<Seq<char>>,
)
    requires
        keys == Seq::new(sources.len(), |i: int| sources[i].key@),
        distinct_ids(key_ids(keys)),
        row_map(tokens) == id_map(keys, key_ids(keys)),
    ensures
        token_scripts(sources, references, tokens) is Ok,
        token_scripts(sources, references, tokens)->Ok_0.len() == sources.len(),
        forall|i: int|
            0 <= i < sources.len() ==> (#[trigger] token_scripts(
                sources,
                references,
                tokens,
            )->Ok_0[i]).0 == key_ids(keys)[i],
{
    assert forall|i: int| 0 <= i < sources.len() implies {
        &&& row_map(tokens).dom().contains((#[trigger] sources[i]).key@)
        &&& row_map(tokens)[sources[i].key@] == key_ids(keys)[i]
    } by {
        assert(keys[i] == sources[i].key@);
        lemma_id_map(keys, key_ids(keys), i);
    }
    assert(sources.take(sources.len() as int) =~= sources);
    lemma_made(sources, references, tokens, key_ids(keys), sources.len() as int);
}

proof fn lemma_made(
    sources: Seq<TokenSource>,
    references: Seq<(Seq<char>, u32)>,
    tokens: Seq<(Seq<char>, TokenScriptId)>,
    ids: Seq<TokenScriptId>,
    count: int,
)
    requires
        0 <= count <= sources.len() == ids.len(),
        forall|i: int|
            0 <= i < sources.len() ==> {
                &&& row_map(tokens).dom().contains((#[trigger] sources[i]).key@)
                &&& row_map(tokens)[sources[i].key@] == ids[i]
            },
    ensures
        token_scripts(sources.take(count), references, tokens) is Ok,
        token_scripts(sources.take(count), references, tokens)->Ok_0.len() == count,
        forall|i: int|
            0 <= i < count ==> (#[trigger] token_scripts(
                sources.take(count),
                references,
                tokens,
            )->Ok_0[i]).0 == ids[i],
    decreases count,
{
    if count > 0 {
        lemma_made(sources, references, tokens, ids, count - 1);
        assert(sources.take(count).drop_last() =~= sources.take(count - 1));
        assert(sources.take(count).last() == sources[count - 1]);
    }
}

} // verus!
