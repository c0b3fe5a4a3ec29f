//! What a run reports: mappings that are missing or ambiguous, scripts in
//! conflict, and names that were never looked up.

use vstd::prelude::*;

use crate::letters::is_ascii_alphanumeric;
use crate::maps::TextMap;
use crate::numerals::{append_decimal, decimal};
use crate::paths::{relative, relative_display};
use crate::script::{identity_name, meld_back, meld_back_identity, source_identity_name};
use crate::text::{append_str, chars_of, join, string_of, string_views};

verus! {

/// A script's name that was not mapped to an identity.
#[derive(Debug)]
pub struct MappingProblem {
    pub source: String,
    pub name: String,
    pub oracle_ids: Vec<String>,
}

/// Two different scripts for one ID.
#[derive(Debug)]
pub struct ScriptConflict {
    pub card_id: u32,
    pub first_source: String,
    pub second_source: String,
}

/// The report on a run.
#[derive(Debug)]
pub struct GenerationReport {
    pub source_scripts: usize,
    pub generated_scripts: usize,
    pub duplicate_identical_scripts: usize,
    pub missing_mappings: Vec<MappingProblem>,
    pub ambiguous_mappings: Vec<MappingProblem>,
    pub conflicting_scripts: Vec<ScriptConflict>,
    /// Names that a source script defines and that were never looked up.
    /// Unlike the other lists this one tells of a fault of the generator
    /// itself, and is always empty.
    pub unaccounted_identities: Vec<MappingProblem>,
}

/// A mapping problem as texts.
#[verifier::ext_equal]
pub struct Problem {
    pub source: Seq<char>,
    pub name: Seq<char>,
    pub oracle_ids: Seq<Seq<char>>,
}

impl View for MappingProblem {
    type V = Problem;

    open spec fn view(&self) -> Problem {
        Problem {
            source: self.source@,
            name: self.name@,
            oracle_ids: string_views(self.oracle_ids@),
        }
    }
}

impl View for ScriptConflict {
    type V = (u32, Seq<char>, Seq<char>);

    open spec fn view(&self) -> (u32, Seq<char>, Seq<char>) {
        (self.card_id, self.first_source@, self.second_source@)
    }
}

/// The problems as texts.
pub open spec fn problem_views(problems: Seq<MappingProblem>) -> Seq<Problem> {
    Seq::new(problems.len(), |i: int| problems[i]@)
}

/// The conflicts as texts.
pub open spec fn conflict_views(conflicts: Seq<ScriptConflict>) -> Seq<
    (u32, Seq<char>, Seq<char>),
> {
    Seq::new(conflicts.len(), |i: int| conflicts[i]@)
}

/// The paths and the texts of the sources.
pub open spec fn source_views(sources: Seq<(String, String)>) -> Seq<(Seq<char>, Seq<char>)> {
    Seq::new(sources.len(), |i: int| (sources[i].0@, sources[i].1@))
}

/// The names that were looked up, with the sources they came from.
pub struct Attempts {
    by_source: TextMap<TextMap<()>>,
}

impl View for Attempts {
    type V = Set<(Seq<char>, Seq<char>)>;

    closed spec fn view(&self) -> Set<(Seq<char>, Seq<char>)> {
        Set::new(
            |attempt: (Seq<char>, Seq<char>)|
                self.by_source@.dom().contains(attempt.0)
                    && self.by_source@[attempt.0]@.dom().contains(attempt.1),
        )
    }
}

impl Attempts {
    /// No name was looked up yet.
    pub fn new() -> (attempts: Attempts)
        ensures
            attempts@ == Set::<(Seq<char>, Seq<char>)>::empty(),
    {
        let attempts = Attempts { by_source: TextMap::new() };
        assert(attempts@ =~= Set::<(Seq<char>, Seq<char>)>::empty());
        attempts
    }

    /// Records that a source's name was looked up.
    pub fn insert(&mut self, source: &str, name: &str)
        ensures
            final(self)@ == old(self)@.insert((source@, name@)),
    {
        let ghost before = self@;
        let ghost start = self.by_source@;
        let mut names = match self.by_source.remove(source) {
            Some(names) => names,
            None => TextMap::new(),
        };
        let ghost earlier = names@;
        names.insert(name.to_string(), ());
        let ghost now = names@;
        self.by_source.insert(source.to_string(), names);
        proof {
            assert forall|attempt: (Seq<char>, Seq<char>)|
                self@.contains(attempt) == before.insert((source@, name@)).contains(attempt) by {
                if attempt.0 == source@ {
                    assert(self.by_source@[attempt.0]@ == now);
                    assert(now.dom().contains(attempt.1) == (earlier.dom().contains(attempt.1)
                        || attempt.1 == name@));
                    if start.dom().contains(source@) {
                        assert(start[source@]@ == earlier);
                    }
                } else {
                    assert(self.by_source@.dom().contains(attempt.0) == start.dom().contains(
                        attempt.0,
                    ));
                }
            }
            assert(self@ =~= before.insert((source@, name@)));
        }
    }

    /// Whether a source's name was looked up.
    pub fn contains(&self, source: &str, name: &str) -> (res: bool)
        ensures
            res == self@.contains((source@, name@)),
    {
        match self.by_source.get(source) {
            Some(names) => match names.get(name) {
                Some(_) => true,
                None => false,
            },
            None => false,
        }
    }
}

/// The names that a source defines: that of its front, and that of a meld
/// back.
#[verifier::opaque]
pub open spec fn expected_names(text: Seq<char>) -> Seq<Seq<char>> {
    let front = match identity_name(text) {
        Some(name) => seq![name],
        None => Seq::empty(),
    };
    match meld_back(text) {
        Some((name, _)) => front.push(name),
        None => front,
    }
}

/// The problem of a name that was never looked up.
pub open spec fn never_attempted(root: Seq<char>, source: Seq<char>, name: Seq<char>) -> Problem {
    Problem { source: relative(root, source), name, oracle_ids: Seq::empty() }
}

/// The problems for those of the names that were never looked up.
pub open spec fn unaccounted_names(
    root: Seq<char>,
    source: Seq<char>,
    names: Seq<Seq<char>>,
    attempted: Set<(Seq<char>, Seq<char>)>,
) -> Seq<Problem>
    decreases names.len(),
{
    if names.len() == 0 {
        Seq::empty()
    } else {
        let earlier = unaccounted_names(root, source, names.drop_last(), attempted);
        if attempted.contains((source, names.last())) {
            earlier
        } else {
            earlier.push(never_attempted(root, source, names.last()))
        }
    }
}

/// The problems for all names that the sources define and that were never
/// looked up.
pub open spec fn unaccounted(
    root: Seq<char>,
    sources: Seq<(Seq<char>, Seq<char>)>,
    attempted: Set<(Seq<char>, Seq<char>)>,
) -> Seq<Problem>
    decreases sources.len(),
{
    if sources.len() == 0 {
        Seq::empty()
    } else {
        unaccounted(root, sources.drop_last(), attempted) + unaccounted_names(
            root,
            sources.last().0,
            expected_names(sources.last().1),
            attempted,
        )
    }
}

/// Appends the problem of a name that was never looked up.
fn reconcile_name(
    source_root: &str,
    source: &str,
    name: String,
    attempted: &Attempts,
    problems: &mut Vec<MappingProblem>,
)
    ensures
        problem_views(final(problems)@) == (if attempted@.contains((source@, name@)) {
            problem_views(old(problems)@)
        } else {
            problem_views(old(problems)@).push(never_attempted(source_root@, source@, name@))
        }),
{
    if !attempted.contains(source, name.as_str()) {
        let ghost before = problem_views(problems@);
        let problem = MappingProblem {
            source: relative_display(source_root, source),
            name,
            oracle_ids: Vec::new(),
        };
        assert(problem@ =~= never_attempted(source_root@, source@, name@)) by {
            assert(problem@.oracle_ids =~= Seq::empty());
        }
        let ghost view = problem@;
        problems.push(problem);
        assert(problem_views(problems@) =~= before.push(view));
    }
}

/// Derives again from the sources which names should have been looked up, and
/// appends a problem for each one that was not.
pub fn reconcile_identities(
    source_root: &str,
    source_texts: &[(String, String)],
    attempted: &Attempts,
    unaccounted_identities: &mut Vec<MappingProblem>,
)
    ensures
        problem_views(final(unaccounted_identities)@) == problem_views(
            old(unaccounted_identities)@,
        ) + unaccounted(source_root@, source_views(source_texts@), attempted@),
{
    let ghost start = problem_views(unaccounted_identities@);
    let ghost all = source_views(source_texts@);
    let mut i: usize = 0;
    assert(all.take(0) =~= Seq::empty());
    assert(start =~= start + unaccounted(source_root@, all.take(0), attempted@));
    while i < source_texts.len()
        invariant
            i <= source_texts@.len(),
            all == source_views(source_texts@),
            problem_views(unaccounted_identities@) == start + unaccounted(
                source_root@,
                all.take(i as int),
                attempted@,
            ),
        decreases source_texts@.len() - i,
    {
        let source = source_texts[i].0.as_str();
        let text = source_texts[i].1.as_str();
        let ghost before = problem_views(unaccounted_identities@);
        let ghost names = expected_names(text@);
        let ghost mut seen: Seq<Seq<char>> = Seq::empty();
        proof {
            assert(all.take(i + 1).drop_last() =~= all.take(i as int));
            assert(all.take(i + 1).last() == (source@, text@));
            assert(before =~= before + unaccounted_names(source_root@, source@, seen, attempted@));
        }
        match source_identity_name(text) {
            Some(name) => {
                proof {
                    seen = seq![name@];
                    assert(seen.drop_last() =~= Seq::empty());
                    assert(unaccounted_names(source_root@, source@, seen.drop_last(), attempted@)
                        == Seq::<Problem>::empty());
                }
                let ghost front = name@;
                reconcile_name(source_root, source, name, attempted, unaccounted_identities);
                assert(problem_views(unaccounted_identities@) =~= before + unaccounted_names(
                    source_root@,
                    source@,
                    seen,
                    attempted@,
                ));
            },
            None => {},
        }
        match meld_back_identity(text) {
            Some((name, _)) => {
                let ghost earlier = seen;
                proof {
                    seen = earlier.push(name@);
                    assert(seen.drop_last() =~= earlier);
                }
                reconcile_name(source_root, source, name, attempted, unaccounted_identities);
                assert(problem_views(unaccounted_identities@) =~= before + unaccounted_names(
                    source_root@,
                    source@,
                    seen,
                    attempted@,
                ));
            },
            None => {},
        }
        proof {
            reveal(expected_names);
            assert(seen =~= names);
            assert(problem_views(unaccounted_identities@) =~= start + unaccounted(
                source_root@,
                all.take(i + 1),
                attempted@,
            ));
        }
        i += 1;
    }
    assert(all.take(all.len() as int) =~= all);
}

/// Nothing is unaccounted where every name that a source defines was looked
/// up, and only there.
pub proof fn law_nothing_is_unaccounted_where_all_was_attempted(
    root: Seq<char>,
    sources: Seq<(Seq<char>, Seq<char>)>,
    attempted: Set<(Seq<char>, Seq<char>)>,
)
    ensures
        unaccounted(root, sources, attempted).len() == 0 <==> all_attempted(sources, attempted),
    decreases sources.len(),
{
    if sources.len() > 0 {
        let earlier = sources.drop_last();
        law_nothing_is_unaccounted_where_all_was_attempted(root, earlier, attempted);
        let (source, text) = sources.last();
        lemma_unaccounted_names(root, source, expected_names(text), attempted);
        if all_attempted(sources, attempted) {
            assert forall|i: int, name: Seq<char>|
                0 <= i < earlier.len() && #[trigger] expected_names(earlier[i].1).contains(
                    name,
                ) implies attempted.contains((earlier[i].0, name)) by {
                assert(expected_names(sources[i].1).contains(name));
            }
            let at = sources.len() - 1;
            assert forall|name: Seq<char>| #[trigger]
                expected_names(text).contains(name) implies attempted.contains((source, name)) by {
                assert(expected_names(sources[at].1).contains(name));
            }
        }
        if unaccounted(root, sources, attempted).len() == 0 {
            assert forall|i: int, name: Seq<char>|
                0 <= i < sources.len() && #[trigger] expected_names(sources[i].1).contains(
                    name,
                ) implies attempted.contains((sources[i].0, name)) by {
                if i < earlier.len() {
                    assert(expected_names(earlier[i].1).contains(name));
                }
            }
        }
    }
}

/// Whether every name that a source defines was looked up.
pub open spec fn all_attempted(
    sources: Seq<(Seq<char>, Seq<char>)>,
    attempted: Set<(Seq<char>, Seq<char>)>,
) -> bool {
    forall|i: int, name: Seq<char>|
        0 <= i < sources.len() && #[trigger] expected_names(sources[i].1).contains(name)
            ==> attempted.contains((sources[i].0, name))
}

proof fn lemma_unaccounted_names(
    root: Seq<char>,
    source: Seq<char>,
    names: Seq<Seq<char>>,
    attempted: Set<(Seq<char>, Seq<char>)>,
)
    ensures
        unaccounted_names(root, source, names, attempted).len() == 0 <==> forall|name: Seq<char>|
            #[trigger] names.contains(name) ==> attempted.contains((source, name)),
    decreases names.len(),
{
    if names.len() > 0 {
        let earlier = names.drop_last();
        lemma_unaccounted_names(root, source, earlier, attempted);
        assert(names.contains(names.last()));
        assert forall|name: Seq<char>| #[trigger] earlier.contains(name) implies names.contains(
            name,
        ) by {
            let i = choose|i: int| 0 <= i < earlier.len() && earlier[i] == name;
            assert(names[i] == name);
        }
        assert forall|name: Seq<char>| #[trigger] names.contains(name) implies earlier.contains(
            name,
        ) || name == names.last() by {
            let i = choose|i: int| 0 <= i < names.len() && names[i] == name;
            if i < earlier.len() {
                assert(earlier[i] == name);
            }
        }
    }
}

/// Why a run's output is rejected.
#[derive(Clone, Copy, Debug, Eq, PartialEq, Structural)]
pub enum Rejection {
    /// Names were never looked up.
    Unaccounted(usize),
    /// Different scripts contend for one ID.
    Conflicts(usize),
    /// Mappings are missing or ambiguous, and strictness was asked for.
    Mappings(u128),
}

/// Decides whether a run's output stands. Names that were never looked up and
/// scripts in conflict always reject it, missing and ambiguous mappings only
/// where strictness is asked for.
pub fn accept(report: &GenerationReport, strict: bool) -> (res: Result<(), Rejection>)
    ensures
        ({
            let unaccounted = report.unaccounted_identities@.len();
            let conflicts = report.conflicting_scripts@.len();
            let mappings = report.missing_mappings@.len() + report.ambiguous_mappings@.len();
            match res {
                Err(Rejection::Unaccounted(count)) => count == unaccounted && unaccounted > 0,
                Err(Rejection::Conflicts(count)) => unaccounted == 0 && count == conflicts
                    && conflicts > 0,
                Err(Rejection::Mappings(count)) => unaccounted == 0 && conflicts == 0 && strict
                    && count == mappings && mappings > 0,
                Ok(_) => unaccounted == 0 && conflicts == 0 && (!strict || mappings == 0),
            }
        }),
{
    if report.unaccounted_identities.len() > 0 {
        return Err(Rejection::Unaccounted(report.unaccounted_identities.len()));
    }
    if report.conflicting_scripts.len() > 0 {
        return Err(Rejection::Conflicts(report.conflicting_scripts.len()));
    }
    let mappings: u128 = report.missing_mappings.len() as u128 + report.ambiguous_mappings.len() as u128;
    if strict && mappings > 0 {
        return Err(Rejection::Mappings(mappings));
    }
    Ok(())
}

/// Where a run's report is recorded.
pub const REPORT_PATH: &'static str = ".cache/reports/generate-report.json";

/// How many problems of one kind are shown.
pub const SHOWN: usize = 10;

/// The kinds of problems that are shown.
#[derive(Clone, Copy, Debug, Eq, PartialEq, Structural)]
pub enum ProblemKind {
    /// A name that was never looked up.
    Unaccounted,
    /// A name without an identity.
    Missing,
    /// A name with several identities.
    Ambiguous,
}

/// What `{:?}` shows of a list of strings.
pub uninterp spec fn debug_list(texts: Seq<Seq<char>>) -> Seq<char>;

/// Whether a text is made of ASCII letters, digits and hyphens, as UUIDs are.
pub open spec fn is_plain(text: Seq<char>) -> bool {
    forall|i: int|
        0 <= i < text.len() ==> is_ascii_alphanumeric(#[trigger] text[i]) || text[i] == '-'
}

/// The texts in quotes.
pub open spec fn quoted(texts: Seq<Seq<char>>) -> Seq<Seq<char>> {
    Seq::new(texts.len(), |i: int| "\""@ + texts[i] + "\""@)
}

/// `format!` with `{:?}` on a list of strings: the list depends on the strings
/// alone. Strings without anything to escape stand in quotes between brackets,
/// with commas between them; how other strings are escaped is left unsaid.
#[verifier::external_body]
fn format_list(texts: &Vec<String>) -> (out: String)
    ensures
        out@ == debug_list(string_views(texts@)),
        (forall|i: int| 0 <= i < texts@.len() ==> is_plain(#[trigger] string_views(texts@)[i]))
            ==> out@ == "["@ + join(quoted(string_views(texts@)), ", "@) + "]"@,
{
    format!("{:?}", texts)
}

/// The line on the scripts that were made.
pub open spec fn scripts_line(generated: nat, sources: nat, duplicates: nat) -> Seq<char> {
    "Generated "@ + decimal(generated) + " numeric-ID scripts from "@ + decimal(sources)
        + " source scripts ("@ + decimal(duplicates) + " identical duplicates)"@
}

/// The line that counts the problems.
pub open spec fn problems_line(
    missing: nat,
    ambiguous: nat,
    conflicts: nat,
    unaccounted: nat,
) -> Seq<char> {
    "Unmapped: "@ + decimal(missing) + "; ambiguous: "@ + decimal(ambiguous)
        + "; conflicting numeric scripts: "@ + decimal(conflicts) + "; UNACCOUNTED: "@ + decimal(
        unaccounted,
    )
}

/// The line on a problem with several identities, as they are shown.
pub open spec fn ambiguous_text(source: Seq<char>, name: Seq<char>, shown: Seq<char>) -> Seq<char> {
    "WARNING: ambiguous Scryfall oracle_id for "@ + source + " ("@ + name + "): "@ + shown
}

/// The line on a problem.
pub open spec fn problem_line(kind: ProblemKind, problem: Problem) -> Seq<char> {
    match kind {
        ProblemKind::Unaccounted => "FAIL: "@ + problem.source + " ("@ + problem.name
            + ") was never looked up at all - present in the Forge source, no Scryfall lookup attempted"@,
        ProblemKind::Missing => "WARNING: no Scryfall oracle_id for "@ + problem.source + " ("@
            + problem.name + ")"@,
        ProblemKind::Ambiguous => ambiguous_text(
            problem.source,
            problem.name,
            debug_list(problem.oracle_ids),
        ),
    }
}

/// The line on the problems that are not shown.
pub open spec fn rest_line(kind: ProblemKind, count: nat) -> Seq<char> {
    match kind {
        ProblemKind::Unaccounted => "FAIL: "@ + decimal(count)
            + " additional unaccounted identities are recorded in "@ + REPORT_PATH@,
        ProblemKind::Missing => "WARNING: "@ + decimal(count)
            + " additional missing mappings are recorded in "@ + REPORT_PATH@,
        ProblemKind::Ambiguous => "WARNING: "@ + decimal(count)
            + " additional ambiguous mappings are recorded in "@ + REPORT_PATH@,
    }
}

/// The lines on the first problems of one kind, and one on the rest, if any.
pub open spec fn lines_of_problems(kind: ProblemKind, problems: Seq<Problem>) -> Seq<Seq<char>> {
    let lines = |count: nat| Seq::new(count, |i: int| problem_line(kind, problems[i]));
    if problems.len() > SHOWN {
        lines(SHOWN as nat).push(rest_line(kind, (problems.len() - SHOWN) as nat))
    } else {
        lines(problems.len())
    }
}

/// The lines that show a report.
pub open spec fn lines_of_report(report: GenerationReport) -> Seq<Seq<char>> {
    seq![
        scripts_line(
            report.generated_scripts as nat,
            report.source_scripts as nat,
            report.duplicate_identical_scripts as nat,
        ),
        problems_line(
            report.missing_mappings@.len(),
            report.ambiguous_mappings@.len(),
            report.conflicting_scripts@.len(),
            report.unaccounted_identities@.len(),
        ),
    ] + lines_of_problems(
        ProblemKind::Unaccounted,
        problem_views(report.unaccounted_identities@),
    ) + lines_of_problems(
        ProblemKind::Missing,
        problem_views(report.missing_mappings@),
    ) + lines_of_problems(ProblemKind::Ambiguous, problem_views(report.ambiguous_mappings@))
}

/// Appends a number.
fn append_count(out: &mut Vec<char>, count: usize)
    ensures
        final(out)@ == old(out)@ + decimal(count as nat),
{
    append_decimal(out, count as u64);
}

/// The line on a name with several identities, given as they are shown.
pub fn ambiguous_line(source: &str, name: &str, shown: &str) -> (out: String)
    ensures
        out@ == ambiguous_text(source@, name@, shown@),
{
    let mut out = chars_of("WARNING: ambiguous Scryfall oracle_id for ");
    append_str(&mut out, source);
    append_str(&mut out, " (");
    append_str(&mut out, name);
    append_str(&mut out, "): ");
    append_str(&mut out, shown);
    string_of(out.as_slice())
}

/// The line on a problem.
fn line_of_problem(kind: ProblemKind, problem: &MappingProblem) -> (out: String)
    ensures
        out@ == problem_line(kind, problem@),
{
    match kind {
        ProblemKind::Unaccounted => {
            let mut out = chars_of("FAIL: ");
            append_str(&mut out, problem.source.as_str());
            append_str(&mut out, " (");
            append_str(&mut out, problem.name.as_str());
            append_str(
                &mut out,
                ") was never looked up at all - present in the Forge source, no Scryfall lookup attempted",
            );
            string_of(out.as_slice())
        },
        ProblemKind::Missing => {
            let mut out = chars_of("WARNING: no Scryfall oracle_id for ");
            append_str(&mut out, problem.source.as_str());
            append_str(&mut out, " (");
            append_str(&mut out, problem.name.as_str());
            append_str(&mut out, ")");
            string_of(out.as_slice())
        },
        ProblemKind::Ambiguous => {
            let shown = format_list(&problem.oracle_ids);
            ambiguous_line(problem.source.as_str(), problem.name.as_str(), shown.as_str())
        },
    }
}

/// The line on the problems that are not shown.
fn line_of_rest(kind: ProblemKind, count: usize) -> (out: String)
    ensures
        out@ == rest_line(kind, count as nat),
{
    let mut out: Vec<char> = match kind {
        ProblemKind::Unaccounted => chars_of("FAIL: "),
        ProblemKind::Missing => chars_of("WARNING: "),
        ProblemKind::Ambiguous => chars_of("WARNING: "),
    };
    append_count(&mut out, count);
    match kind {
        ProblemKind::Unaccounted => append_str(
            &mut out,
            " additional unaccounted identities are recorded in ",
        ),
        ProblemKind::Missing => append_str(&mut out, " additional missing mappings are recorded in "),
        ProblemKind::Ambiguous => append_str(
            &mut out,
            " additional ambiguous mappings are recorded in ",
        ),
    }
    append_str(&mut out, REPORT_PATH);
    string_of(out.as_slice())
}

/// Appends the lines on the problems of one kind.
fn append_problems(out: &mut Vec<String>, kind: ProblemKind, problems: &Vec<MappingProblem>)
    ensures
        string_views(final(out)@) == string_views(old(out)@) + lines_of_problems(
            kind,
            problem_views(problems@),
        ),
{
    let ghost start = string_views(out@);
    let ghost all = problem_views(problems@);
    let shown: usize = if problems.len() > SHOWN {
        SHOWN
    } else {
        problems.len()
    };
    let mut i: usize = 0;
    assert(string_views(out@) =~= start + Seq::new(0, |j: int| problem_line(kind, all[j])));
    while i < shown
        invariant
            i <= shown <= problems@.len(),
            all == problem_views(problems@),
            string_views(out@) == start + Seq::new(i as nat, |j: int| problem_line(kind, all[j])),
        decreases shown - i,
    {
        let ghost before = string_views(out@);
        let line = line_of_problem(kind, &problems[i]);
        let ghost view = line@;
        out.push(line);
        proof {
            assert(view == problem_line(kind, all[i as int]));
            assert(string_views(out@) =~= before.push(view));
            assert(string_views(out@) =~= start + Seq::new(
                (i + 1) as nat,
                |j: int| problem_line(kind, all[j]),
            ));
        }
        i += 1;
    }
    if problems.len() > SHOWN {
        let ghost before = string_views(out@);
        let line = line_of_rest(kind, problems.len() - SHOWN);
        let ghost view = line@;
        out.push(line);
        assert(string_views(out@) =~= before.push(view));
    }
    assert(string_views(out@) =~= start + lines_of_problems(kind, all));
}

/// The lines that show a report: what was made, how many problems there are,
/// and of each kind the first few problems and the number of the rest.
pub fn report_lines(report: &GenerationReport) -> (out: Vec<String>)
    ensures
        string_views(out@) == lines_of_report(*report),
{
    let mut first = chars_of("Generated ");
    append_count(&mut first, report.generated_scripts);
    append_str(&mut first, " numeric-ID scripts from ");
    append_count(&mut first, report.source_scripts);
    append_str(&mut first, " source scripts (");
    append_count(&mut first, report.duplicate_identical_scripts);
    append_str(&mut first, " identical duplicates)");
    let mut second = chars_of("Unmapped: ");
    append_count(&mut second, report.missing_mappings.len());
    append_str(&mut second, "; ambiguous: ");
    append_count(&mut second, report.ambiguous_mappings.len());
    append_str(&mut second, "; conflicting numeric scripts: ");
    append_count(&mut second, report.conflicting_scripts.len());
    append_str(&mut second, "; UNACCOUNTED: ");
    append_count(&mut second, report.unaccounted_identities.len());
    let mut out: Vec<String> = Vec::new();
    out.push(string_of(first.as_slice()));
    out.push(string_of(second.as_slice()));
    assert(string_views(out@) =~= seq![first@, second@]);
    append_problems(&mut out, ProblemKind::Unaccounted, &report.unaccounted_identities);
    append_problems(&mut out, ProblemKind::Missing, &report.missing_mappings);
    append_problems(&mut out, ProblemKind::Ambiguous, &report.ambiguous_mappings);
    out
}

} // verus!
