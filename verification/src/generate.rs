//! From source scripts to the anonymous corpus: each script is mapped to its
//! identities, and each identity's IDs get their anonymous script.

use std::collections::BTreeMap;

use vstd::prelude::*;

use crate::catalog::{
    card_numbers, numeric_name_references, references_of, Catalog, CatalogIndex,
};
use crate::ids::{CardScriptId, TokenScriptId};
use crate::names::{
    candidates_for, candidates_view, id_numbers, resolve_oracle_ids, resolved, NameIndex, Names,
    OracleId,
};
use crate::numbered::{ascending_keys, in_order};
use crate::parameters::TokenIndex;
use crate::paths::{relative, relative_display};
use crate::references::reference_views;
use crate::report::{
    all_attempted, conflict_views, expected_names,
    law_nothing_is_unaccounted_where_all_was_attempted, problem_views, reconcile_identities,
    source_views, Attempts, GenerationReport, MappingProblem, Problem, ScriptConflict,
};
use crate::sanitize::{anonymous_script, sanitize_script};
use crate::script::{identity_name, meld_back, meld_back_identity, source_identity_name};
use crate::text::{chars_of, reads, string_views};
use crate::uuids::{hyphenated, hyphenated_text, Uuid};

verus! {

broadcast use vstd::std_specs::btree::group_btree_axioms;

/// A generated script and the source it came from.
#[derive(Debug)]
pub struct GeneratedScript {
    pub source: String,
    pub script: String,
}

impl View for GeneratedScript {
    type V = (Seq<char>, Seq<char>);

    open spec fn view(&self) -> (Seq<char>, Seq<char>) {
        (self.source@, self.script@)
    }
}

/// The outcome of a run: its report, and the script of each ID.
pub struct Generation {
    pub report: GenerationReport,
    pub scripts: BTreeMap<u32, GeneratedScript>,
}

/// What a run works with: the source directory, the names, the catalog, the
/// spellings of card names, and the token index.
pub struct Corpus {
    pub root: Seq<char>,
    pub names: Names,
    pub catalog: Catalog,
    pub references: Seq<(Seq<char>, u32)>,
    pub tokens: Seq<(Seq<char>, TokenScriptId)>,
}

/// How far a run has come.
#[verifier::ext_equal]
pub struct Progress {
    pub generated: Map<u32, (Seq<char>, Seq<char>)>,
    pub duplicates: Seq<u32>,
    pub missing: Seq<Problem>,
    pub ambiguous: Seq<Problem>,
    pub conflicts: Seq<(u32, Seq<char>, Seq<char>)>,
    pub attempted: Set<(Seq<char>, Seq<char>)>,
}

/// The start of a run.
pub open spec fn no_progress() -> Progress {
    Progress {
        generated: Map::empty(),
        duplicates: Seq::empty(),
        missing: Seq::empty(),
        ambiguous: Seq::empty(),
        conflicts: Seq::empty(),
        attempted: Set::empty(),
    }
}

/// The colors of an identity.
pub open spec fn colors_of(names: Names, oracle_id: u128) -> Seq<char> {
    if names.color_identities.dom().contains(oracle_id) {
        names.color_identities[oracle_id]
    } else {
        Seq::empty()
    }
}

/// The anonymous script that an identity's ID gets from a text.
pub open spec fn script_of(corpus: Corpus, text: Seq<char>, oracle_id: u128, id: u32) -> Seq<
    char,
> {
    anonymous_script(
        text,
        id,
        colors_of(corpus.names, oracle_id),
        corpus.catalog.set_group_by_id[id],
        corpus.references,
        corpus.tokens,
    )
}

/// After a script was made for an ID: the first one is kept, the same one
/// again is a duplicate, another one a conflict.
pub open spec fn with_script(
    progress: Progress,
    root: Seq<char>,
    source: Seq<char>,
    id: u32,
    script: Seq<char>,
) -> Progress {
    if !progress.generated.dom().contains(id) {
        Progress { generated: progress.generated.insert(id, (source, script)), ..progress }
    } else if progress.generated[id].1 == script {
        Progress { duplicates: progress.duplicates.push(id), ..progress }
    } else {
        Progress {
            conflicts: progress.conflicts.push(
                (id, relative(root, progress.generated[id].0), relative(root, source)),
            ),
            ..progress
        }
    }
}

/// After the scripts for an identity's IDs were made.
pub open spec fn with_ids(
    progress: Progress,
    corpus: Corpus,
    source: Seq<char>,
    text: Seq<char>,
    oracle_id: u128,
    ids: Seq<u32>,
) -> Progress
    decreases ids.len(),
{
    if ids.len() == 0 {
        progress
    } else {
        with_script(
            with_ids(progress, corpus, source, text, oracle_id, ids.drop_last()),
            corpus.root,
            source,
            ids.last(),
            script_of(corpus, text, oracle_id, ids.last()),
        )
    }
}

/// The problem of an identity that has no ID.
pub open spec fn unlisted(
    corpus: Corpus,
    source: Seq<char>,
    name: Seq<char>,
    oracle_id: u128,
) -> Problem {
    Problem {
        source: relative(corpus.root, source),
        name,
        oracle_ids: seq![hyphenated_text(oracle_id as nat)],
    }
}

/// After the identities of a text were dealt with.
pub open spec fn with_identities(
    progress: Progress,
    corpus: Corpus,
    source: Seq<char>,
    name: Seq<char>,
    text: Seq<char>,
    oracle_ids: Seq<u128>,
) -> Progress
    decreases oracle_ids.len(),
{
    if oracle_ids.len() == 0 {
        progress
    } else {
        let earlier = with_identities(
            progress,
            corpus,
            source,
            name,
            text,
            oracle_ids.drop_last(),
        );
        let oracle_id = oracle_ids.last();
        if corpus.catalog.by_oracle_id.dom().contains(oracle_id) {
            with_ids(
                earlier,
                corpus,
                source,
                text,
                oracle_id,
                corpus.catalog.by_oracle_id[oracle_id],
            )
        } else {
            Progress {
                missing: earlier.missing.push(unlisted(corpus, source, name, oracle_id)),
                ..earlier
            }
        }
    }
}

/// The hyphenated forms of the UUIDs.
pub open spec fn hyphenated_all(ids: Seq<u128>) -> Seq<Seq<char>> {
    Seq::new(ids.len(), |i: int| hyphenated_text(ids[i] as nat))
}

/// After a name was looked up.
pub open spec fn with_name(
    progress: Progress,
    corpus: Corpus,
    source: Seq<char>,
    name: Seq<char>,
    text: Seq<char>,
) -> Progress {
    let attempting = Progress { attempted: progress.attempted.insert((source, name)), ..progress };
    match candidates_for(corpus.names, name) {
        None => Progress {
            missing: progress.missing.push(
                Problem { source: relative(corpus.root, source), name, oracle_ids: Seq::empty() },
            ),
            ..attempting
        },
        Some(candidates) => match resolved(text, candidates) {
            None => Progress {
                ambiguous: progress.ambiguous.push(
                    Problem {
                        source: relative(corpus.root, source),
                        name,
                        oracle_ids: hyphenated_all(in_order(candidates.dom())),
                    },
                ),
                ..attempting
            },
            Some(ids) => with_identities(attempting, corpus, source, name, text, in_order(ids)),
        },
    }
}

/// After a source's front was dealt with.
pub open spec fn with_front(
    progress: Progress,
    corpus: Corpus,
    source: Seq<char>,
    text: Seq<char>,
) -> Progress {
    match identity_name(text) {
        Some(name) => with_name(progress, corpus, source, name, text),
        None => Progress {
            missing: progress.missing.push(
                Problem {
                    source: relative(corpus.root, source),
                    name: "<missing Name field>"@,
                    oracle_ids: Seq::empty(),
                },
            ),
            ..progress
        },
    }
}

/// After a source was dealt with: its front and, where it defines one, its
/// meld back.
pub open spec fn with_source(
    progress: Progress,
    corpus: Corpus,
    source: Seq<char>,
    text: Seq<char>,
) -> Progress {
    let front = with_front(progress, corpus, source, text);
    match meld_back(text) {
        Some((name, back)) => with_name(front, corpus, source, name, back),
        None => front,
    }
}

/// After the sources were dealt with in their order.
pub open spec fn with_sources(
    progress: Progress,
    corpus: Corpus,
    sources: Seq<(Seq<char>, Seq<char>)>,
) -> Progress
    decreases sources.len(),
{
    if sources.len() == 0 {
        progress
    } else {
        with_source(
            with_sources(progress, corpus, sources.drop_last()),
            corpus,
            sources.last().0,
            sources.last().1,
        )
    }
}

/// The scripts of the IDs.
pub open spec fn scripts_view(scripts: Map<u32, GeneratedScript>) -> Map<
    u32,
    (Seq<char>, Seq<char>),
> {
    scripts.map_values(|script: GeneratedScript| script@)
}

/// A run under way.
struct Run {
    generated: BTreeMap<u32, GeneratedScript>,
    duplicates: Vec<CardScriptId>,
    missing: Vec<MappingProblem>,
    ambiguous: Vec<MappingProblem>,
    conflicts: Vec<ScriptConflict>,
    attempted: Attempts,
}

impl View for Run {
    type V = Progress;

    closed spec fn view(&self) -> Progress {
        Progress {
            generated: scripts_view(self.generated@),
            duplicates: card_numbers(self.duplicates@),
            missing: problem_views(self.missing@),
            ambiguous: problem_views(self.ambiguous@),
            conflicts: conflict_views(self.conflicts@),
            attempted: self.attempted@,
        }
    }
}

/// What a run works with.
struct Inputs<'a> {
    root: &'a str,
    index: &'a NameIndex,
    catalog: &'a CatalogIndex,
    references: &'a [(String, CardScriptId)],
    tokens: &'a TokenIndex,
}

impl<'a> View for Inputs<'a> {
    type V = Corpus;

    closed spec fn view(&self) -> Corpus {
        Corpus {
            root: self.root@,
            names: self.index@,
            catalog: self.catalog@,
            references: reference_views(self.references@),
            tokens: self.tokens.rows(),
        }
    }
}

/// Whether the texts are the same.
fn same_text(left: &String, right: &String) -> (res: bool)
    ensures
        res == (left@ == right@),
{
    let chars = chars_of(left.as_str());
    reads(chars.as_slice(), right.as_str())
}

/// The hyphenated forms of the UUIDs.
fn hyphenate_all(ids: &[u128]) -> (out: Vec<String>)
    ensures
        string_views(out@) == hyphenated_all(ids@),
{
    let mut out: Vec<String> = Vec::new();
    let mut i: usize = 0;
    while i < ids.len()
        invariant
            i <= ids@.len(),
            string_views(out@) == hyphenated_all(ids@.take(i as int)),
        decreases ids@.len() - i,
    {
        let ghost before = string_views(out@);
        let text = hyphenated(Uuid(ids[i]));
        out.push(text);
        assert(string_views(out@) =~= before.push(text@));
        assert(hyphenated_all(ids@.take(i + 1)) =~= before.push(text@));
        i += 1;
    }
    assert(ids@.take(ids@.len() as int) =~= ids@);
    out
}

impl Run {
    fn new() -> (run: Run)
        ensures
            run@ == no_progress(),
    {
        let run = Run {
            generated: BTreeMap::new(),
            duplicates: Vec::new(),
            missing: Vec::new(),
            ambiguous: Vec::new(),
            conflicts: Vec::new(),
            attempted: Attempts::new(),
        };
        proof {
            assert(run@.generated =~= Map::empty());
            assert(run@.duplicates =~= Seq::empty());
            assert(run@.missing =~= Seq::empty());
            assert(run@.ambiguous =~= Seq::empty());
            assert(run@.conflicts =~= Seq::empty());
        }
        run
    }

    /// Reports a missing mapping.
    fn report_missing(&mut self, inputs: &Inputs, source: &str, name: &str, oracle_ids: Vec<String>)
        ensures
            final(self)@ == (Progress {
                missing: old(self)@.missing.push(
                    Problem {
                        source: relative(inputs@.root, source@),
                        name: name@,
                        oracle_ids: string_views(oracle_ids@),
                    },
                ),
                ..old(self)@
            }),
    {
        let ghost before = self@;
        let problem = MappingProblem {
            source: relative_display(inputs.root, source),
            name: name.to_string(),
            oracle_ids,
        };
        let ghost view = problem@;
        self.missing.push(problem);
        assert(self@.missing =~= before.missing.push(view));
    }

    /// Keeps a script for an ID, or reports that there is one already.
    fn keep_script(&mut self, inputs: &Inputs, source: &str, id: CardScriptId, script: String)
        ensures
            final(self)@ == with_script(old(self)@, inputs@.root, source@, id.0, script@),
    {
        let ghost before = self@;
        match self.generated.get(&id.0) {
            Some(first) => {
                assert(before.generated[id.0] == first@);
                if same_text(&first.script, &script) {
                    self.duplicates.push(id);
                    assert(self@.duplicates =~= before.duplicates.push(id.0));
                } else {
                    let conflict = ScriptConflict {
                        card_id: id.0,
                        first_source: relative_display(inputs.root, first.source.as_str()),
                        second_source: relative_display(inputs.root, source),
                    };
                    let ghost view = conflict@;
                    self.conflicts.push(conflict);
                    assert(self@.conflicts =~= before.conflicts.push(view));
                }
            },
            None => {
                let generated = GeneratedScript { source: source.to_string(), script };
                let ghost view = generated@;
                self.generated.insert(id.0, generated);
                assert(self@.generated =~= before.generated.insert(id.0, view));
            },
        }
    }

    /// Makes the scripts of an identity's IDs.
    fn make_scripts(
        &mut self,
        inputs: &Inputs,
        source: &str,
        text: &str,
        oracle_id: u128,
        ids: &Vec<CardScriptId>,
    )
        requires
            forall|i: int|
                0 <= i < ids@.len() ==> inputs@.catalog.set_group_by_id.dom().contains(
                    (#[trigger] ids@[i]).0,
                ),
        ensures
            final(self)@ == with_ids(
                old(self)@,
                inputs@,
                source@,
                text@,
                oracle_id,
                card_numbers(ids@),
            ),
    {
        let ghost start = self@;
        let ghost numbers = card_numbers(ids@);
        let no_colors = String::new();
        assert(no_colors@ =~= Seq::<char>::empty());
        let colors: &str = match inputs.index.color_identities.get(&oracle_id) {
            Some(colors) => colors.as_str(),
            None => no_colors.as_str(),
        };
        assert(colors@ == colors_of(inputs@.names, oracle_id));
        let mut i: usize = 0;
        assert(numbers.take(0) =~= Seq::empty());
        while i < ids.len()
            invariant
                i <= ids@.len(),
                numbers == card_numbers(ids@),
                colors@ == colors_of(inputs@.names, oracle_id),
                forall|i: int|
                    0 <= i < ids@.len() ==> inputs@.catalog.set_group_by_id.dom().contains(
                        (#[trigger] ids@[i]).0,
                    ),
                self@ == with_ids(
                    start,
                    inputs@,
                    source@,
                    text@,
                    oracle_id,
                    numbers.take(i as int),
                ),
            decreases ids@.len() - i,
        {
            let id = ids[i];
            proof {
                assert(numbers.take(i + 1).drop_last() =~= numbers.take(i as int));
                assert(numbers.take(i + 1).last() == id.0);
                assert(inputs@.catalog.set_group_by_id.dom().contains(ids@[i as int].0));
            }
            match inputs.catalog.set_group(id) {
                Some(group) => {
                    let script = sanitize_script(
                        text,
                        id,
                        colors,
                        group.as_str(),
                        inputs.references,
                        inputs.tokens,
                    );
                    assert(script@ == script_of(inputs@, text@, oracle_id, id.0));
                    self.keep_script(inputs, source, id, script);
                },
                None => {},
            }
            i += 1;
        }
        assert(numbers.take(numbers.len() as int) =~= numbers);
    }

    /// Deals with the identities of a text.
    fn deal_with_identities(
        &mut self,
        inputs: &Inputs,
        source: &str,
        name: &str,
        text: &str,
        oracle_ids: &Vec<OracleId>,
    )
        ensures
            final(self)@ == with_identities(
                old(self)@,
                inputs@,
                source@,
                name@,
                text@,
                id_numbers(oracle_ids@),
            ),
    {
        let ghost start = self@;
        let ghost numbers = id_numbers(oracle_ids@);
        let mut i: usize = 0;
        assert(numbers.take(0) =~= Seq::empty());
        while i < oracle_ids.len()
            invariant
                i <= oracle_ids@.len(),
                numbers == id_numbers(oracle_ids@),
                self@ == with_identities(
                    start,
                    inputs@,
                    source@,
                    name@,
                    text@,
                    numbers.take(i as int),
                ),
            decreases oracle_ids@.len() - i,
        {
            let oracle_id: u128 = oracle_ids[i].0.0;
            proof {
                assert(numbers.take(i + 1).drop_last() =~= numbers.take(i as int));
                assert(numbers.take(i + 1).last() == oracle_id);
            }
            match inputs.catalog.card_ids(oracle_id) {
                Some(ids) => {
                    self.make_scripts(inputs, source, text, oracle_id, ids);
                },
                None => {
                    let mut texts: Vec<String> = Vec::new();
                    texts.push(hyphenated(oracle_ids[i].0));
                    assert(string_views(texts@) =~= seq![hyphenated_text(oracle_id as nat)]);
                    self.report_missing(inputs, source, name, texts);
                },
            }
            i += 1;
        }
        assert(numbers.take(numbers.len() as int) =~= numbers);
    }

    /// Looks a name up and deals with what it stands for.
    fn resolve_and_generate(&mut self, inputs: &Inputs, source: &str, name: &str, text: &str)
        ensures
            final(self)@ == with_name(old(self)@, inputs@, source@, name@, text@),
    {
        let ghost before = self@;
        self.attempted.insert(source, name);
        match inputs.index.lookup(name) {
            Some(candidates) => {
                match resolve_oracle_ids(text, candidates) {
                    Some(ids) => {
                        self.deal_with_identities(inputs, source, name, text, &ids);
                    },
                    None => {
                        let keys = ascending_keys(candidates);
                        assert(candidates_view(*candidates).dom() =~= candidates@.dom());
                        let problem = MappingProblem {
                            source: relative_display(inputs.root, source),
                            name: name.to_string(),
                            oracle_ids: hyphenate_all(keys.as_slice()),
                        };
                        let ghost view = problem@;
                        self.ambiguous.push(problem);
                        assert(self@.ambiguous =~= before.ambiguous.push(view));
                    },
                }
            },
            None => {
                let none: Vec<String> = Vec::new();
                assert(string_views(none@) =~= Seq::empty());
                self.report_missing(inputs, source, name, none);
            },
        }
    }

    /// Deals with a source: its front and, where it defines one, its meld
    /// back.
    fn deal_with_source(&mut self, inputs: &Inputs, source: &str, text: &str)
        ensures
            final(self)@ == with_source(old(self)@, inputs@, source@, text@),
    {
        match source_identity_name(text) {
            Some(name) => {
                self.resolve_and_generate(inputs, source, name.as_str(), text);
            },
            None => {
                let none: Vec<String> = Vec::new();
                assert(string_views(none@) =~= Seq::empty());
                self.report_missing(inputs, source, "<missing Name field>", none);
            },
        }
        match meld_back_identity(text) {
            Some((name, back)) => {
                self.resolve_and_generate(inputs, source, name.as_str(), back.as_str());
            },
            None => {},
        }
    }
}

/// Whether the list begins with the earlier one.
pub open spec fn extends<A>(before: Seq<A>, after: Seq<A>) -> bool {
    &&& before.len() <= after.len()
    &&& forall|i: int| 0 <= i < before.len() ==> #[trigger] after[i] == before[i]
}

/// Whether a run only ever adds: names stay looked up, reported problems stay
/// reported, and kept scripts stay as they are.
pub open spec fn grows(before: Progress, after: Progress) -> bool {
    &&& before.attempted.subset_of(after.attempted)
    &&& extends(before.missing, after.missing)
    &&& extends(before.ambiguous, after.ambiguous)
    &&& extends(before.conflicts, after.conflicts)
    &&& extends(before.duplicates, after.duplicates)
    &&& forall|id: u32| #[trigger]
        before.generated.dom().contains(id) ==> after.generated.dom().contains(id)
            && after.generated[id] == before.generated[id]
}

proof fn lemma_ids_grow(
    progress: Progress,
    corpus: Corpus,
    source: Seq<char>,
    text: Seq<char>,
    oracle_id: u128,
    ids: Seq<u32>,
)
    ensures
        grows(progress, with_ids(progress, corpus, source, text, oracle_id, ids)),
    decreases ids.len(),
{
    if ids.len() > 0 {
        lemma_ids_grow(progress, corpus, source, text, oracle_id, ids.drop_last());
    }
}

proof fn lemma_identities_grow(
    progress: Progress,
    corpus: Corpus,
    source: Seq<char>,
    name: Seq<char>,
    text: Seq<char>,
    oracle_ids: Seq<u128>,
)
    ensures
        grows(progress, with_identities(progress, corpus, source, name, text, oracle_ids)),
    decreases oracle_ids.len(),
{
    if oracle_ids.len() > 0 {
        let earlier = with_identities(
            progress,
            corpus,
            source,
            name,
            text,
            oracle_ids.drop_last(),
        );
        let oracle_id = oracle_ids.last();
        lemma_identities_grow(progress, corpus, source, name, text, oracle_ids.drop_last());
        lemma_ids_grow(
            earlier,
            corpus,
            source,
            text,
            oracle_id,
            corpus.catalog.by_oracle_id[oracle_id],
        );
    }
}

pub proof fn lemma_name_grows(
    progress: Progress,
    corpus: Corpus,
    source: Seq<char>,
    name: Seq<char>,
    text: Seq<char>,
)
    ensures
        grows(progress, with_name(progress, corpus, source, name, text)),
        with_name(progress, corpus, source, name, text).attempted.contains((source, name)),
{
    let attempting = Progress { attempted: progress.attempted.insert((source, name)), ..progress };
    match candidates_for(corpus.names, name) {
        Some(candidates) => match resolved(text, candidates) {
            Some(ids) => {
                lemma_identities_grow(attempting, corpus, source, name, text, in_order(ids));
                assert(attempting.attempted.contains((source, name)));
            },
            None => {},
        },
        None => {},
    }
}

pub proof fn lemma_source_grows(
    progress: Progress,
    corpus: Corpus,
    source: Seq<char>,
    text: Seq<char>,
)
    ensures
        grows(progress, with_source(progress, corpus, source, text)),
        forall|name: Seq<char>| #[trigger]
            expected_names(text).contains(name) ==> with_source(
                progress,
                corpus,
                source,
                text,
            ).attempted.contains((source, name)),
{
    reveal(expected_names);
    let front = with_front(progress, corpus, source, text);
    let after = with_source(progress, corpus, source, text);
    if let Some(name) = identity_name(text) {
        lemma_name_grows(progress, corpus, source, name, text);
    }
    if let Some((name, back)) = meld_back(text) {
        lemma_name_grows(front, corpus, source, name, back);
    }
    assert forall|name: Seq<char>| #[trigger] expected_names(text).contains(
        name,
    ) implies after.attempted.contains((source, name)) by {
        if let Some(first) = identity_name(text) {
            assert(front.attempted.contains((source, first)));
            assert(after.attempted.contains((source, first)));
        }
    }
}

/// Dealing with more sources takes back nothing: a name stays looked up, what
/// was reported stays reported, and the script that an ID first got stays its
/// script.
pub proof fn law_runs_only_add(
    progress: Progress,
    corpus: Corpus,
    sources: Seq<(Seq<char>, Seq<char>)>,
)
    ensures
        grows(progress, with_sources(progress, corpus, sources)),
    decreases sources.len(),
{
    if sources.len() > 0 {
        law_runs_only_add(progress, corpus, sources.drop_last());
        lemma_source_grows(
            with_sources(progress, corpus, sources.drop_last()),
            corpus,
            sources.last().0,
            sources.last().1,
        );
    }
}

/// A run looks up every name that one of its sources defines.
pub proof fn law_every_name_is_attempted(
    progress: Progress,
    corpus: Corpus,
    sources: Seq<(Seq<char>, Seq<char>)>,
)
    ensures
        all_attempted(sources, with_sources(progress, corpus, sources).attempted),
    decreases sources.len(),
{
    if sources.len() > 0 {
        let earlier = with_sources(progress, corpus, sources.drop_last());
        let after = with_sources(progress, corpus, sources);
        let (source, text) = sources.last();
        law_every_name_is_attempted(progress, corpus, sources.drop_last());
        lemma_source_grows(earlier, corpus, source, text);
        assert forall|i: int, name: Seq<char>|
            0 <= i < sources.len() && #[trigger] expected_names(sources[i].1).contains(
                name,
            ) implies after.attempted.contains((sources[i].0, name)) by {
            if i < sources.len() - 1 {
                assert(sources.drop_last()[i] == sources[i]);
                assert(expected_names(sources.drop_last()[i].1).contains(name));
                assert(earlier.attempted.contains((sources[i].0, name)));
            }
        }
    }
}

/// Whether the text is that of the source's front or of its meld back.
pub open spec fn is_text_of(source: (Seq<char>, Seq<char>), text: Seq<char>) -> bool {
    ||| text == source.1
    ||| meld_back(source.1) is Some && text == (meld_back(source.1)->0).1
}

/// Whether a script is what the ID gets from one of the texts.
pub open spec fn made_from(
    corpus: Corpus,
    texts: Set<(Seq<char>, Seq<char>)>,
    id: u32,
    made: (Seq<char>, Seq<char>),
) -> bool {
    exists|text: Seq<char>, oracle_id: u128|
        {
            &&& #[trigger] texts.contains((made.0, text))
            &&& corpus.catalog.by_oracle_id.dom().contains(oracle_id)
            &&& corpus.catalog.by_oracle_id[oracle_id].contains(id)
            &&& made.1 == #[trigger] script_of(corpus, text, oracle_id, id)
        }
}

/// Whether every script was made from one of the texts.
spec fn all_made_from(
    corpus: Corpus,
    texts: Set<(Seq<char>, Seq<char>)>,
    progress: Progress,
) -> bool {
    forall|id: u32| #[trigger]
        progress.generated.dom().contains(id) ==> made_from(
            corpus,
            texts,
            id,
            progress.generated[id],
        )
}

proof fn lemma_ids_made(
    progress: Progress,
    corpus: Corpus,
    texts: Set<(Seq<char>, Seq<char>)>,
    source: Seq<char>,
    text: Seq<char>,
    oracle_id: u128,
    count: int,
)
    requires
        all_made_from(corpus, texts, progress),
        texts.contains((source, text)),
        corpus.catalog.by_oracle_id.dom().contains(oracle_id),
        0 <= count <= corpus.catalog.by_oracle_id[oracle_id].len(),
    ensures
        all_made_from(
            corpus,
            texts,
            with_ids(
                progress,
                corpus,
                source,
                text,
                oracle_id,
                corpus.catalog.by_oracle_id[oracle_id].take(count),
            ),
        ),
    decreases count,
{
    let ids = corpus.catalog.by_oracle_id[oracle_id];
    if count > 0 {
        lemma_ids_made(progress, corpus, texts, source, text, oracle_id, count - 1);
        assert(ids.take(count).drop_last() =~= ids.take(count - 1));
        let id = ids[count - 1];
        assert(ids.contains(id));
        let made = (source, script_of(corpus, text, oracle_id, id));
        assert(texts.contains((made.0, text)));
        assert(made.1 == script_of(corpus, text, oracle_id, id));
        assert(made_from(corpus, texts, id, made));
    }
}

proof fn lemma_identities_made(
    progress: Progress,
    corpus: Corpus,
    texts: Set<(Seq<char>, Seq<char>)>,
    source: Seq<char>,
    name: Seq<char>,
    text: Seq<char>,
    oracle_ids: Seq<u128>,
)
    requires
        all_made_from(corpus, texts, progress),
        texts.contains((source, text)),
    ensures
        all_made_from(
            corpus,
            texts,
            with_identities(progress, corpus, source, name, text, oracle_ids),
        ),
    decreases oracle_ids.len(),
{
    if oracle_ids.len() > 0 {
        let earlier = with_identities(
            progress,
            corpus,
            source,
            name,
            text,
            oracle_ids.drop_last(),
        );
        let oracle_id = oracle_ids.last();
        lemma_identities_made(progress, corpus, texts, source, name, text, oracle_ids.drop_last());
        if corpus.catalog.by_oracle_id.dom().contains(oracle_id) {
            let ids = corpus.catalog.by_oracle_id[oracle_id];
            lemma_ids_made(earlier, corpus, texts, source, text, oracle_id, ids.len() as int);
            assert(ids.take(ids.len() as int) =~= ids);
        }
    }
}

proof fn lemma_name_made(
    progress: Progress,
    corpus: Corpus,
    texts: Set<(Seq<char>, Seq<char>)>,
    source: Seq<char>,
    name: Seq<char>,
    text: Seq<char>,
)
    requires
        all_made_from(corpus, texts, progress),
        texts.contains((source, text)),
    ensures
        all_made_from(corpus, texts, with_name(progress, corpus, source, name, text)),
{
    let attempting = Progress { attempted: progress.attempted.insert((source, name)), ..progress };
    match candidates_for(corpus.names, name) {
        Some(candidates) => match resolved(text, candidates) {
            Some(ids) => {
                lemma_identities_made(
                    attempting,
                    corpus,
                    texts,
                    source,
                    name,
                    text,
                    in_order(ids),
                );
            },
            None => {},
        },
        None => {},
    }
}

/// The texts of the sources' fronts and meld backs.
spec fn all_texts(sources: Seq<(Seq<char>, Seq<char>)>) -> Set<(Seq<char>, Seq<char>)> {
    Set::new(
        |pair: (Seq<char>, Seq<char>)|
            exists|i: int|
                0 <= i < sources.len() && (#[trigger] sources[i]).0 == pair.0 && is_text_of(
                    sources[i],
                    pair.1,
                ),
    )
}

proof fn lemma_sources_made(
    corpus: Corpus,
    sources: Seq<(Seq<char>, Seq<char>)>,
    count: int,
)
    requires
        0 <= count <= sources.len(),
    ensures
        all_made_from(
            corpus,
            all_texts(sources),
            with_sources(no_progress(), corpus, sources.take(count)),
        ),
    decreases count,
{
    let texts = all_texts(sources);
    if count > 0 {
        lemma_sources_made(corpus, sources, count - 1);
        assert(sources.take(count).drop_last() =~= sources.take(count - 1));
        let (source, text) = sources[count - 1];
        assert(sources.take(count).last() == sources[count - 1]);
        let earlier = with_sources(no_progress(), corpus, sources.take(count - 1));
        assert(texts.contains((source, text))) by {
            assert(is_text_of(sources[count - 1], text));
        }
        if let Some(name) = identity_name(text) {
            lemma_name_made(earlier, corpus, texts, source, name, text);
        }
        if let Some((name, back)) = meld_back(text) {
            assert(texts.contains((source, back))) by {
                assert(is_text_of(sources[count - 1], back));
            }
            lemma_name_made(
                with_front(earlier, corpus, source, text),
                corpus,
                texts,
                source,
                name,
                back,
            );
        }
    }
}

/// Every generated script is the anonymous form of the front or the meld back
/// of one of the sources, under an ID that the catalog lists for an identity.
pub proof fn law_generated_scripts_come_from_sources(
    corpus: Corpus,
    sources: Seq<(Seq<char>, Seq<char>)>,
    id: u32,
) -> (found: (int, Seq<char>, u128))
    requires
        with_sources(no_progress(), corpus, sources).generated.dom().contains(id),
    ensures
        ({
            let made = with_sources(no_progress(), corpus, sources).generated[id];
            let (at, text, oracle_id) = found;
            &&& 0 <= at < sources.len()
            &&& made.0 == sources[at].0
            &&& is_text_of(sources[at], text)
            &&& corpus.catalog.by_oracle_id.dom().contains(oracle_id)
            &&& corpus.catalog.by_oracle_id[oracle_id].contains(id)
            &&& made.1 == script_of(corpus, text, oracle_id, id)
        }),
{
    lemma_sources_made(corpus, sources, sources.len() as int);
    assert(sources.take(sources.len() as int) =~= sources);
    let texts = all_texts(sources);
    let made = with_sources(no_progress(), corpus, sources).generated[id];
    assert(made_from(corpus, texts, id, made));
    let (text, oracle_id) = choose|text: Seq<char>, oracle_id: u128|
        {
            &&& #[trigger] texts.contains((made.0, text))
            &&& corpus.catalog.by_oracle_id.dom().contains(oracle_id)
            &&& corpus.catalog.by_oracle_id[oracle_id].contains(id)
            &&& made.1 == #[trigger] script_of(corpus, text, oracle_id, id)
        };
    assert(texts.contains((made.0, text)));
    let at = choose|i: int|
        0 <= i < sources.len() && (#[trigger] sources[i]).0 == made.0 && is_text_of(
            sources[i],
            text,
        );
    (at, text, oracle_id)
}

/// Whether a generation is what the run came to, with nothing unaccounted.
pub open spec fn reports(generation: Generation, sources: nat, progress: Progress) -> bool {
    &&& scripts_view(generation.scripts@) == progress.generated
    &&& generation.report.source_scripts == sources
    &&& generation.report.generated_scripts == progress.generated.dom().len()
    &&& generation.report.duplicate_identical_scripts == progress.duplicates.len()
    &&& problem_views(generation.report.missing_mappings@) == progress.missing
    &&& problem_views(generation.report.ambiguous_mappings@) == progress.ambiguous
    &&& conflict_views(generation.report.conflicting_scripts@) == progress.conflicts
    &&& generation.report.unaccounted_identities@.len() == 0
}

/// Makes the anonymous scripts, with the given spellings of card names.
pub fn generate_scripts(
    source_root: &str,
    sources: &[(String, String)],
    index: &NameIndex,
    catalog: &CatalogIndex,
    references: &[(String, CardScriptId)],
    token_index: &TokenIndex,
) -> (generation: Generation)
    ensures
        reports(
            generation,
            sources@.len(),
            with_sources(
                no_progress(),
                Corpus {
                    root: source_root@,
                    names: index@,
                    catalog: catalog@,
                    references: reference_views(references@),
                    tokens: token_index.rows(),
                },
                source_views(sources@),
            ),
        ),
{
    let inputs = Inputs { root: source_root, index, catalog, references, tokens: token_index };
    let ghost corpus = inputs@;
    let ghost all = source_views(sources@);
    let mut run = Run::new();
    let mut i: usize = 0;
    assert(all.take(0) =~= Seq::empty());
    while i < sources.len()
        invariant
            i <= sources@.len(),
            all == source_views(sources@),
            corpus == inputs@,
            run@ == with_sources(no_progress(), corpus, all.take(i as int)),
        decreases sources@.len() - i,
    {
        proof {
            assert(all.take(i + 1).drop_last() =~= all.take(i as int));
            assert(all.take(i + 1).last() == (sources@[i as int].0@, sources@[i as int].1@));
        }
        run.deal_with_source(&inputs, sources[i].0.as_str(), sources[i].1.as_str());
        i += 1;
    }
    assert(all.take(all.len() as int) =~= all);
    let ghost progress = run@;
    let mut unaccounted_identities: Vec<MappingProblem> = Vec::new();
    assert(problem_views(unaccounted_identities@) =~= Seq::empty());
    reconcile_identities(source_root, sources, &run.attempted, &mut unaccounted_identities);
    proof {
        law_every_name_is_attempted(no_progress(), corpus, all);
        law_nothing_is_unaccounted_where_all_was_attempted(
            source_root@,
            all,
            progress.attempted,
        );
        assert(problem_views(unaccounted_identities@).len() == unaccounted_identities@.len());
        assert(progress.generated.dom() =~= run.generated@.dom());
        assert(progress.duplicates.len() == run.duplicates@.len());
    }
    let Run { generated, duplicates, missing, ambiguous, conflicts, attempted: _ } = run;
    let report = GenerationReport {
        source_scripts: sources.len(),
        generated_scripts: generated.len(),
        duplicate_identical_scripts: duplicates.len(),
        missing_mappings: missing,
        ambiguous_mappings: ambiguous,
        conflicting_scripts: conflicts,
        unaccounted_identities,
    };
    Generation { report, scripts: generated }
}

/// Makes the anonymous scripts of the sources and reports on them.
pub fn generate(
    source_root: &str,
    sources: &[(String, String)],
    index: &NameIndex,
    catalog: &CatalogIndex,
    token_index: &TokenIndex,
) -> (generation: Generation)
    ensures
        reports(
            generation,
            sources@.len(),
            with_sources(
                no_progress(),
                Corpus {
                    root: source_root@,
                    names: index@,
                    catalog: catalog@,
                    references: references_of(index@, catalog@),
                    tokens: token_index.rows(),
                },
                source_views(sources@),
            ),
        ),
{
    let references = numeric_name_references(index, catalog);
    generate_scripts(source_root, sources, index, catalog, references.as_slice(), token_index)
}

} // verus!
