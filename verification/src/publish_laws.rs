//! What the published tables and manifests say, and what a report leaves out.

use vstd::prelude::*;

use crate::manifest::{
    json_char, json_chars, json_string, manifest_json, missing_artifact, reference_json, urls_for,
    Member, SkinArtifacts, SkinReferences,
};
use crate::numerals::{decimal, hex_byte, is_digit, law_decimal_reads_back};
use crate::paths::relative;
use crate::provenance::{
    body_of, body_rows, is_identity, oracle_of, oracles_of, ProvenanceProblem, ProvenanceRowProblem,
};
use crate::report::{expected_names, unaccounted, unaccounted_names, Problem};
use crate::segment_laws::{is_blank, law_white_space_is_trimmed};
use crate::table_laws::are_fields;
use crate::tables::lemma_split_join;
use crate::text::{join, trim, unlines};
use crate::uuids::{hyphenated_text, uuid_value};

verus! {

/// A row of the catalog gives the identity of the number that is next; a gap
/// is told.
pub proof fn law_provenance_rows_are_dense(
    fields: Seq<Seq<char>>,
    id_column: int,
    oracle_column: int,
    id: u32,
    oracle: u128,
    expected: nat,
)
    requires
        are_fields(fields),
        0 <= id_column < fields.len(),
        0 <= oracle_column < fields.len(),
        fields[id_column] == decimal(id as nat),
        uuid_value(fields[oracle_column]) == Some(oracle as nat),
        expected <= u64::MAX,
    ensures
        oracle_of(join(fields, seq!['\t']), id_column, oracle_column, expected) == if id
            == expected {
            Ok::<u128, ProvenanceRowProblem>(oracle)
        } else {
            Err(ProvenanceRowProblem::NotDense { expected: expected as u64, found: id })
        },
{
    lemma_split_join(fields, '\t');
    law_decimal_reads_back(id as nat, u32::MAX as nat);
}

/// Blank rows are passed over, and every other row is expected to have the
/// number behind those before it.
pub proof fn law_provenance_rows_count_on(
    rows: Seq<Seq<char>>,
    row: Seq<char>,
    id_column: int,
    oracle_column: int,
)
    requires
        oracles_of(rows, id_column, oracle_column) is Ok,
    ensures
        is_blank(row) ==> oracles_of(rows.push(row), id_column, oracle_column) == oracles_of(
            rows,
            id_column,
            oracle_column,
        ),
        trim(row).len() > 0 ==> {
            let earlier = oracles_of(rows, id_column, oracle_column)->Ok_0;
            match oracle_of(row, id_column, oracle_column, earlier.len() + 1) {
                Ok(oracle) => oracles_of(rows.push(row), id_column, oracle_column) == Ok::<
                    Seq<u128>,
                    ProvenanceProblem,
                >(earlier.push(oracle)),
                Err(problem) => oracles_of(rows.push(row), id_column, oracle_column) == Err::<
                    Seq<u128>,
                    ProvenanceProblem,
                >(ProvenanceProblem::Row { line: rows.len() as int + 2, problem }),
            }
        },
{
    assert(rows.push(row).drop_last() =~= rows);
    if is_blank(row) {
        let none = Seq::<char>::empty();
        assert(row =~= row + none + none);
        law_white_space_is_trimmed(row, none, none);
    }
}

/// The table has a row for each number from one on, with the identity.
pub proof fn law_provenance_rows_are_written(oracles: Seq<u128>, oracle: u128)
    ensures
        body_of(Seq::empty()) == Seq::<char>::empty(),
        body_of(oracles.push(oracle)) == body_of(oracles) + decimal((oracles.len() + 1) as nat)
            + seq!['\t'] + hyphenated_text(oracle as nat) + seq!['\n'],
{
    let more = oracles.push(oracle);
    assert(body_rows(Seq::empty()) =~= Seq::empty());
    assert(body_rows(more).drop_last() =~= body_rows(oracles));
    let row = decimal((oracles.len() + 1) as nat) + seq!['\t'] + hyphenated_text(oracle as nat);
    assert(body_rows(more).last() == row);
    assert(body_of(more) == unlines(body_rows(oracles)) + row + seq!['\n']);
    assert(body_of(more) =~= body_of(oracles) + decimal((oracles.len() + 1) as nat) + seq!['\t']
        + hyphenated_text(oracle as nat) + seq!['\n']);
}

/// The identity of a catalog is 64 digits of a digest, in small letters.
pub proof fn law_catalog_identities_are_checked(text: Seq<char>)
    ensures
        is_identity(text) <==> text.len() == 64 && forall|i: int|
            0 <= i < 64 ==> ('0' <= #[trigger] text[i] <= '9' || 'a' <= text[i] <= 'f'),
{
    if is_identity(text) {
        assert forall|i: int| 0 <= i < 64 implies ('0' <= #[trigger] text[i] <= '9' || 'a'
            <= text[i] <= 'f') by {
            assert(is_digit(text[i]) || 'a' <= text[i] <= 'f');
        }
    }
}

/// What a string in a manifest has for one character: quotes, backslashes and
/// control characters are escaped, everything else stands for itself.
pub open spec fn escaped(c: char) -> Seq<char> {
    if c == '"' {
        seq!['\\', '"']
    } else if c == '\\' {
        seq!['\\', '\\']
    } else if c == '\n' {
        seq!['\\', 'n']
    } else if c == '\r' {
        seq!['\\', 'r']
    } else if c == '\t' {
        seq!['\\', 't']
    } else if c == '\u{8}' {
        seq!['\\', 'b']
    } else if c == '\u{c}' {
        seq!['\\', 'f']
    } else if c <= '\u{1f}' {
        seq!['\\', 'u', '0', '0'] + hex_byte(c as u8)
    } else {
        seq![c]
    }
}

proof fn lemma_chars_concat(left: Seq<char>, right: Seq<char>)
    ensures
        json_chars(left + right) == json_chars(left) + json_chars(right),
    decreases right.len(),
{
    if right.len() == 0 {
        assert(left + right =~= left);
        assert(json_chars(left + right) =~= json_chars(left) + json_chars(right));
    } else {
        lemma_chars_concat(left, right.drop_last());
        assert((left + right).drop_last() =~= left + right.drop_last());
        assert((left + right).last() == right.last());
        assert(json_chars(left + right) =~= json_chars(left) + json_chars(right));
    }
}

/// A string in a manifest is its characters in quotes, each escaped where it has
/// to be.
pub proof fn law_strings_are_escaped(left: Seq<char>, c: char, right: Seq<char>)
    ensures
        json_string(left) == seq!['"'] + json_chars(left) + seq!['"'],
        json_chars(left + seq![c] + right) == json_chars(left) + escaped(c) + json_chars(right),
        json_chars(Seq::empty()) == Seq::<char>::empty(),
{
    reveal_strlit("\"");
    assert("\""@ =~= seq!['"']);
    lemma_chars_concat(left + seq![c], right);
    lemma_chars_concat(left, seq![c]);
    assert(seq![c].drop_last() =~= Seq::empty());
    assert(json_chars(seq![c].drop_last()) =~= Seq::empty());
    assert(json_chars(seq![c]) =~= json_char(c));
    assert(json_char(c) =~= escaped(c));
}

/// A manifest of the required artifacts alone, and what each further one adds to
/// it: its own member, under its name.
pub proof fn law_manifests_list_their_artifacts(references: SkinReferences)
    ensures
        ({
            let of = |name: Seq<char>, at: Seq<char>| "\""@ + name + "\":"@ + at + ","@;
            let artpack = match references.artpack {
                Some(reference) => of("artpack"@, reference_json(reference)),
                None => Seq::empty(),
            };
            let bodies = match references.bodies {
                Some(reference) => of("bodies"@, reference_json(reference)),
                None => Seq::empty(),
            };
            let provenance = match references.provenance {
                Some(reference) => of("provenance"@, reference_json(reference)),
                None => Seq::empty(),
            };
            manifest_json(references) == "{"@ + artpack + bodies + "\"cardset\":"@ + reference_json(
                references.cardset,
            ) + ",\"format\":\"deepscry-card-skin\","@ + provenance + "\"titles\":"@
                + reference_json(references.titles) + ",\"version\":1}"@
        }),
{
}

proof fn lemma_urls(hints: Seq<(Member, Seq<char>)>, at: int)
    requires
        0 <= at < hints.len(),
    ensures
        urls_for(hints, hints[at].0).len() > 0,
    decreases hints.len(),
{
    if at < hints.len() - 1 {
        lemma_urls(hints.drop_last(), at);
        assert(hints.drop_last()[at] == hints[at]);
    }
}

/// A hint for an artifact that was not supplied is refused, and nothing else.
pub proof fn law_hints_need_their_artifact(
    artifacts: SkinArtifacts,
    hints: Seq<(Member, Seq<char>)>,
    at: int,
)
    ensures
        ({
            let lacking = |member: Member|
                (member == Member::Artpack && artifacts.artpack is None) || (member
                    == Member::Bodies && artifacts.bodies is None) || (member
                    == Member::Provenance && artifacts.provenance is None);
            &&& 0 <= at < hints.len() && lacking(hints[at].0) ==> missing_artifact(
                artifacts,
                hints,
            ) is Some
            &&& missing_artifact(artifacts, hints) matches Some(member) ==> lacking(member)
                && urls_for(hints, member).len() > 0
        }),
{
    if 0 <= at < hints.len() {
        lemma_urls(hints, at);
    }
}

proof fn lemma_unaccounted_name(
    root: Seq<char>,
    source: Seq<char>,
    names: Seq<Seq<char>>,
    attempted: Set<(Seq<char>, Seq<char>)>,
    at: int,
)
    requires
        0 <= at < names.len(),
        !attempted.contains((source, names[at])),
    ensures
        unaccounted_names(root, source, names, attempted).contains(
            Problem {
                source: relative(root, source),
                name: names[at],
                oracle_ids: Seq::empty(),
            },
        ),
    decreases names.len(),
{
    let problem = Problem {
        source: relative(root, source),
        name: names[at],
        oracle_ids: Seq::empty(),
    };
    let all = unaccounted_names(root, source, names, attempted);
    if at < names.len() - 1 {
        let earlier = unaccounted_names(root, source, names.drop_last(), attempted);
        assert(names.drop_last()[at] == names[at]);
        lemma_unaccounted_name(root, source, names.drop_last(), attempted, at);
        let i = choose|i: int| 0 <= i < earlier.len() && earlier[i] == problem;
        assert(all[i] == problem);
    } else {
        assert(all[all.len() - 1] == problem);
    }
}

/// Every name that a source defines and that was never looked up is told, with
/// its source.
pub proof fn law_names_that_were_never_looked_up_are_told(
    root: Seq<char>,
    sources: Seq<(Seq<char>, Seq<char>)>,
    attempted: Set<(Seq<char>, Seq<char>)>,
    at: int,
    name: Seq<char>,
)
    requires
        0 <= at < sources.len(),
        expected_names(sources[at].1).contains(name),
        !attempted.contains((sources[at].0, name)),
    ensures
        unaccounted(root, sources, attempted).contains(
            Problem {
                source: relative(root, sources[at].0),
                name,
                oracle_ids: Seq::empty(),
            },
        ),
    decreases sources.len(),
{
    let problem = Problem {
        source: relative(root, sources[at].0),
        name,
        oracle_ids: Seq::empty(),
    };
    let earlier = unaccounted(root, sources.drop_last(), attempted);
    let last = sources.last();
    let own = unaccounted_names(root, last.0, expected_names(last.1), attempted);
    let all = unaccounted(root, sources, attempted);
    if at < sources.len() - 1 {
        assert(sources.drop_last()[at] == sources[at]);
        law_names_that_were_never_looked_up_are_told(
            root,
            sources.drop_last(),
            attempted,
            at,
            name,
        );
        let i = choose|i: int| 0 <= i < earlier.len() && earlier[i] == problem;
        assert(all[i] == problem);
    } else {
        let names = expected_names(last.1);
        let k = choose|k: int| 0 <= k < names.len() && names[k] == name;
        lemma_unaccounted_name(root, last.0, names, attempted, k);
        let i = choose|i: int| 0 <= i < own.len() && own[i] == problem;
        assert(all[earlier.len() + i] == problem);
    }
}

} // verus!
