//! What a run does with one name, one script, one report and one hint.

use vstd::prelude::*;

use crate::generate::{
    hyphenated_all, with_identities, with_ids, with_name, with_script, with_source, Corpus,
    Progress,
};
use crate::manifest::{hint_of, urls_for, ManifestProblem, Member};
use crate::names::{candidates_for, resolved, Evidence};
use crate::numbered::{in_order, lemma_in_order};
use crate::paths::relative;
use crate::report::{
    expected_names, lines_of_problems, problem_line, rest_line, Problem, ProblemKind,
};
use crate::sanitize::anonymous_script;
use crate::script::{identity_name, meld_back};
use crate::text::{lemma_find_char_is, starts_with};
use crate::uuids::hyphenated_text;

verus! {

proof fn lemma_only(id: u128)
    ensures
        in_order(set![id]) == seq![id],
{
    let list = seq![id];
    lemma_in_order(list);
    assert(list.to_set() =~= set![id]) by {
        assert forall|other: u128| list.to_set().contains(other) == set![id].contains(other) by {
            if other == id {
                assert(list[0] == id);
            }
        }
    }
}

/// A card that is found gets its anonymous script under its number, with its
/// colors and its set; nothing else changes.
pub proof fn law_found_cards_get_their_script(
    progress: Progress,
    corpus: Corpus,
    source: Seq<char>,
    name: Seq<char>,
    text: Seq<char>,
    candidates: Map<u128, Evidence>,
    oracle: u128,
    id: u32,
)
    requires
        candidates_for(corpus.names, name) == Some(candidates),
        resolved(text, candidates) == Some(set![oracle]),
        corpus.catalog.by_oracle_id.dom().contains(oracle),
        corpus.catalog.by_oracle_id[oracle] == seq![id],
        !progress.generated.dom().contains(id),
    ensures
        ({
            let colors = if corpus.names.color_identities.dom().contains(oracle) {
                corpus.names.color_identities[oracle]
            } else {
                Seq::empty()
            };
            with_name(progress, corpus, source, name, text) == (Progress {
                attempted: progress.attempted.insert((source, name)),
                generated: progress.generated.insert(
                    id,
                    (
                        source,
                        anonymous_script(
                            text,
                            id,
                            colors,
                            corpus.catalog.set_group_by_id[id],
                            corpus.references,
                            corpus.tokens,
                        ),
                    ),
                ),
                ..progress
            })
        }),
{
    lemma_only(oracle);
    let start = Progress { attempted: progress.attempted.insert((source, name)), ..progress };
    let list = seq![oracle];
    assert(list.drop_last() =~= Seq::empty());
    let ids = seq![id];
    assert(ids.drop_last() =~= Seq::empty());
    assert(with_identities(
        start,
        corpus,
        source,
        name,
        text,
        list.drop_last(),
    ) == start);
    assert(with_ids(start, corpus, source, text, oracle, ids.drop_last())
        == start);
}

/// A name that nothing bears is missing; one whose bearers the script does not
/// tell apart is ambiguous, with all of them; and an identity without a number is
/// missing. Each is told of the source, and nothing else changes.
pub proof fn law_other_names_are_reported(
    progress: Progress,
    corpus: Corpus,
    source: Seq<char>,
    name: Seq<char>,
    text: Seq<char>,
    oracle: u128,
)
    ensures
        ({
            let start = Progress {
                attempted: progress.attempted.insert((source, name)),
                ..progress
            };
            let place = relative(corpus.root, source);
            let out = with_name(progress, corpus, source, name, text);
            let found = candidates_for(corpus.names, name);
            &&& found is None ==> out == (Progress {
                missing: progress.missing.push(
                    Problem { source: place, name, oracle_ids: Seq::empty() },
                ),
                ..start
            })
            &&& found is Some && resolved(text, found->0) is None ==> out == (Progress {
                ambiguous: progress.ambiguous.push(
                    Problem {
                        source: place,
                        name,
                        oracle_ids: Seq::new(
                            in_order((found->0).dom()).len(),
                            |i: int| hyphenated_text(in_order((found->0).dom())[i] as nat),
                        ),
                    },
                ),
                ..start
            })
            &&& found is Some && resolved(text, found->0) == Some(set![oracle])
                && !corpus.catalog.by_oracle_id.dom().contains(oracle) ==> out == (Progress {
                missing: progress.missing.push(
                    Problem { source: place, name, oracle_ids: seq![hyphenated_text(oracle as nat)] },
                ),
                ..start
            })
        }),
{
    lemma_only(oracle);
    let start = Progress { attempted: progress.attempted.insert((source, name)), ..progress };
    let list = seq![oracle];
    assert(list.drop_last() =~= Seq::empty());
    assert(with_identities(
        start,
        corpus,
        source,
        name,
        text,
        list.drop_last(),
    ) == start);
    if let Some(candidates) = candidates_for(corpus.names, name) {
        let all = in_order(candidates.dom());
        assert(hyphenated_all(all) =~= Seq::new(
            all.len(),
            |i: int| hyphenated_text(all[i] as nat),
        ));
    }
}

/// The first script of a number is kept; the same one again is counted, and
/// another one is told with both sources.
pub proof fn law_first_scripts_are_kept(
    progress: Progress,
    root: Seq<char>,
    source: Seq<char>,
    id: u32,
    script: Seq<char>,
)
    ensures
        ({
            let out = with_script(progress, root, source, id, script);
            let known = progress.generated.dom().contains(id);
            &&& !known ==> out.generated == progress.generated.insert(id, (source, script))
                && out.duplicates == progress.duplicates && out.conflicts == progress.conflicts
            &&& known ==> out.generated == progress.generated
            &&& known && progress.generated[id].1 == script ==> out.duplicates
                == progress.duplicates.push(id) && out.conflicts == progress.conflicts
            &&& known && progress.generated[id].1 != script ==> out.duplicates
                == progress.duplicates && out.conflicts == progress.conflicts.push(
                (id, relative(root, progress.generated[id].0), relative(root, source)),
            )
            &&& out.missing == progress.missing && out.ambiguous == progress.ambiguous
                && out.attempted == progress.attempted
        }),
{
}

/// A source is looked up by its name with its whole text, and where it has a
/// back of its own, by the back's name with the back's text. These are the names
/// that are expected of it.
pub proof fn law_fronts_and_backs_are_looked_up(
    progress: Progress,
    corpus: Corpus,
    source: Seq<char>,
    text: Seq<char>,
)
    ensures
        ({
            let out = with_source(progress, corpus, source, text);
            let front = match identity_name(text) {
                Some(name) => with_name(progress, corpus, source, name, text),
                None => Progress {
                    missing: progress.missing.push(
                        Problem {
                            source: relative(corpus.root, source),
                            name: "<missing Name field>"@,
                            oracle_ids: Seq::empty(),
                        },
                    ),
                    ..progress
                },
            };
            &&& meld_back(text) is None ==> out == front
            &&& meld_back(text) matches Some((name, back)) ==> out == with_name(
                front,
                corpus,
                source,
                name,
                back,
            )
            &&& identity_name(text) matches Some(name) ==> expected_names(text).contains(name)
            &&& meld_back(text) matches Some((name, _)) ==> expected_names(text).contains(name)
        }),
{
    reveal(expected_names);
    let names = expected_names(text);
    if identity_name(text) is Some {
        assert(names[0] == identity_name(text)->0);
    }
    if meld_back(text) is Some {
        assert(names[names.len() - 1] == (meld_back(text)->0).0);
    }
}

/// Up to ten problems of a kind are shown, each on its line, and then how many
/// more there are.
pub proof fn law_ten_problems_are_shown(kind: ProblemKind, problems: Seq<Problem>, at: int)
    ensures
        ({
            let shown = lines_of_problems(kind, problems);
            &&& problems.len() <= 10 ==> shown.len() == problems.len()
            &&& problems.len() > 10 ==> shown.len() == 11 && shown[10] == rest_line(
                kind,
                (problems.len() - 10) as nat,
            )
            &&& 0 <= at < problems.len() && at < 10 ==> shown[at] == problem_line(
                kind,
                problems[at],
            )
        }),
{
}

/// The names of the artifacts that hints speak of.
pub open spec fn member_name(member: Member) -> Seq<char> {
    match member {
        Member::Artpack => "artpack"@,
        Member::Bodies => "bodies"@,
        Member::Cardset => "cardset"@,
        Member::Provenance => "provenance"@,
        Member::Titles => "titles"@,
    }
}

/// A hint is an artifact's name and an absolute URL with an equals sign between
/// them.
pub proof fn law_hints_are_read(member: Member, url: Seq<char>)
    ensures
        ({
            let out = hint_of(member_name(member) + seq!['='] + url);
            if starts_with(url, "https://"@) || starts_with(url, "http://"@) {
                out == Ok::<(Member, Seq<char>), ManifestProblem>((member, url))
            } else {
                out == Err::<(Member, Seq<char>), ManifestProblem>(
                    ManifestProblem::NotAbsolute(url),
                )
            }
        }),
{
    reveal_strlit("artpack");
    reveal_strlit("bodies");
    reveal_strlit("cardset");
    reveal_strlit("provenance");
    reveal_strlit("titles");
    let name = member_name(member);
    let hint = name + seq!['='] + url;
    let at = name.len() as int;
    assert(hint[at] == '=');
    assert forall|i: int| 0 <= i < at implies hint[i] != '=' by {
        assert(hint[i] == name[i]);
    }
    lemma_find_char_is(hint, '=', at);
    assert(hint.take(at) =~= name);
    assert(hint.skip(at + 1) =~= url);
    assert("artpack"@[0] != "cardset"@[0]);
    assert("bodies"@[0] != "titles"@[0]);
    assert("bodies"@.len() == 6 && "titles"@.len() == 6 && "artpack"@.len() == 7
        && "cardset"@.len() == 7 && "provenance"@.len() == 10);
}

/// The URLs of an artifact are those of its hints, in their order.
pub proof fn law_urls_come_in_order(
    hints: Seq<(Member, Seq<char>)>,
    hint: (Member, Seq<char>),
    member: Member,
)
    ensures
        urls_for(Seq::empty(), member) == Seq::<Seq<char>>::empty(),
        urls_for(hints.push(hint), member) == if hint.0 == member {
            urls_for(hints, member).push(hint.1)
        } else {
            urls_for(hints, member)
        },
{
    assert(hints.push(hint).drop_last() =~= hints);
}

} // verus!
