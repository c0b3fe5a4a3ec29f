//! Which names of objects a script has, and how they are replaced after
//! `named`.

use vstd::prelude::*;

use crate::digest::runtime_object_id;
use crate::numerals::decimal;
use crate::parameter_laws::takes_object;
use crate::parameters::{api_of, parameter_of};
use crate::runtime::{
    line_object_names, numbered_names, object_values, row_object_names,
};
use crate::text::{find, lemma_find, occurs_at, replace, replace_char, split};

verus! {

/// Whether a parameter of the row names the object.
pub open spec fn names_object_in(row: Seq<char>, name: Seq<char>) -> bool {
    exists|at: int|
        1 <= at < split(row, '|').len() && (#[trigger] parameter_of(split(row, '|')[at]) matches Some((
            key,
            value,
        )) && value == name && takes_object(api_of(split(row, '|')[0]), key))
}

proof fn lemma_values(effect: Seq<char>, segments: Seq<Seq<char>>, name: Seq<char>)
    ensures
        object_values(effect, segments).contains(name) <==> exists|at: int|
            0 <= at < segments.len() && (#[trigger] parameter_of(segments[at]) matches Some((
                key,
                value,
            )) && value == name && takes_object(effect, key)),
    decreases segments.len(),
{
    if segments.len() > 0 {
        let front = segments.drop_last();
        let earlier = object_values(effect, front);
        let all = object_values(effect, segments);
        lemma_values(effect, front, name);
        if all.contains(name) {
            let i = choose|i: int| 0 <= i < all.len() && all[i] == name;
            if i < earlier.len() {
                assert(earlier[i] == name);
                let at = choose|at: int|
                    0 <= at < front.len() && (#[trigger] parameter_of(front[at]) matches Some((
                        key,
                        value,
                    )) && value == name && takes_object(effect, key));
                assert(front[at] == segments[at]);
                assert(parameter_of(segments[at]) == parameter_of(front[at]));
            } else {
                let at = segments.len() - 1;
                assert(parameter_of(segments[at]) is Some);
            }
        }
        if exists|at: int|
            0 <= at < segments.len() && (#[trigger] parameter_of(segments[at]) matches Some((
                key,
                value,
            )) && value == name && takes_object(effect, key)) {
            let at = choose|at: int|
                0 <= at < segments.len() && (#[trigger] parameter_of(segments[at]) matches Some((
                    key,
                    value,
                )) && value == name && takes_object(effect, key));
            if at < front.len() {
                assert(front[at] == segments[at]);
                assert(parameter_of(front[at]) == parameter_of(segments[at]));
                let i = choose|i: int| 0 <= i < earlier.len() && earlier[i] == name;
                assert(all[i] == name);
            } else {
                assert(all.last() == name);
                assert(all[all.len() - 1] == name);
            }
        }
    }
}

proof fn lemma_line_names(row: Seq<char>, name: Seq<char>)
    ensures
        line_object_names(row).contains(name) == names_object_in(row, name),
{
    let segments = split(row, '|');
    let effect = api_of(segments[0]);
    let later = segments.skip(1);
    lemma_values(effect, later, name);
    if line_object_names(row).contains(name) {
        let at = choose|at: int|
            0 <= at < later.len() && (#[trigger] parameter_of(later[at]) matches Some((key, value))
                && value == name && takes_object(effect, key));
        assert(later[at] == segments[at + 1]);
        assert(parameter_of(segments[at + 1]) == parameter_of(later[at]));
    }
    if names_object_in(row, name) {
        let at = choose|at: int|
            1 <= at < segments.len() && (#[trigger] parameter_of(segments[at]) matches Some((
                key,
                value,
            )) && value == name && takes_object(effect, key));
        assert(later[at - 1] == segments[at]);
        assert(parameter_of(later[at - 1]) == parameter_of(segments[at]));
    }
}

/// The objects of a script are those that a parameter on one of its rows names.
pub proof fn law_objects_are_named_by_parameters(rows: Seq<Seq<char>>, name: Seq<char>)
    ensures
        row_object_names(rows).contains(name) <==> exists|i: int|
            0 <= i < rows.len() && #[trigger] names_object_in(rows[i], name),
    decreases rows.len(),
{
    if rows.len() > 0 {
        let front = rows.drop_last();
        let earlier = row_object_names(front);
        let own = line_object_names(rows.last());
        let all = row_object_names(rows);
        law_objects_are_named_by_parameters(front, name);
        lemma_line_names(rows.last(), name);
        if all.contains(name) {
            let i = choose|i: int| 0 <= i < all.len() && all[i] == name;
            if i < earlier.len() {
                assert(earlier[i] == name);
                let at = choose|at: int|
                    0 <= at < front.len() && #[trigger] names_object_in(front[at], name);
                assert(front[at] == rows[at]);
                assert(names_object_in(rows[at], name));
            } else {
                assert(own[i - earlier.len()] == name);
                assert(names_object_in(rows[rows.len() - 1], name));
            }
        }
        if exists|i: int| 0 <= i < rows.len() && #[trigger] names_object_in(rows[i], name) {
            let at = choose|i: int| 0 <= i < rows.len() && #[trigger] names_object_in(rows[i], name);
            if at < front.len() {
                assert(front[at] == rows[at]);
                assert(names_object_in(front[at], name));
                let i = choose|i: int| 0 <= i < earlier.len() && earlier[i] == name;
                assert(all[i] == name);
            } else {
                let i = choose|i: int| 0 <= i < own.len() && own[i] == name;
                assert(all[earlier.len() + i] == name);
            }
        }
    }
}

proof fn lemma_one_replaced(
    before: Seq<char>,
    pattern: Seq<char>,
    after: Seq<char>,
    by: Seq<char>,
)
    requires
        pattern.len() > 0,
        forall|at: int|
            0 <= at < before.len() ==> !#[trigger] occurs_at(
                before + pattern + after,
                pattern,
                at,
            ),
        forall|at: int| !#[trigger] occurs_at(after, pattern, at),
    ensures
        replace(before + pattern + after, pattern, by) == before + by + after,
{
    let text = before + pattern + after;
    let k = before.len() as int;
    let size = pattern.len() as int;
    lemma_find(text, pattern);
    lemma_find(after, pattern);
    assert(text.subrange(k, k + size) =~= pattern);
    assert(occurs_at(text, pattern, k));
    assert(find(text, pattern) == Some(k));
    assert(text.take(k) =~= before);
    assert(text.skip(k + size) =~= after);
    assert(replace(after, pattern, by) == after);
}

/// The name of an object behind `named` becomes the object's number, also where
/// it is written with semicolons for its commas.
pub proof fn law_named_objects_become_numbers(
    before: Seq<char>,
    name: Seq<char>,
    after: Seq<char>,
)
    ensures
        ({
            let plain = "named"@ + name;
            let other = "named"@ + replace_char(name, ',', ';');
            let number = "named"@ + decimal(runtime_object_id(name));
            let out = before + number + after;
            &&& (forall|at: int|
                0 <= at < before.len() ==> !#[trigger] occurs_at(
                    before + plain + after,
                    plain,
                    at,
                )) && (forall|at: int| !#[trigger] occurs_at(after, plain, at)) && (forall|at: int|
                !#[trigger] occurs_at(out, other, at)) ==> numbered_names(
                before + plain + after,
                seq![name],
            ) == out
            &&& (forall|at: int| !#[trigger] occurs_at(before + other + after, plain, at)) && (
            forall|at: int|
                0 <= at < before.len() ==> !#[trigger] occurs_at(
                    before + other + after,
                    other,
                    at,
                )) && (forall|at: int| !#[trigger] occurs_at(after, other, at)) ==> numbered_names(
                before + other + after,
                seq![name],
            ) == out
        }),
{
    reveal_strlit("named");
    let plain = "named"@ + name;
    let other = "named"@ + replace_char(name, ',', ';');
    let number = "named"@ + decimal(runtime_object_id(name));
    let out = before + number + after;
    assert(seq![name].drop_last() =~= Seq::empty());
    let first = before + plain + after;
    let second = before + other + after;
    assert(numbered_names(first, seq![name].drop_last()) == first);
    assert(numbered_names(second, seq![name].drop_last()) == second);
    if (forall|at: int| 0 <= at < before.len() ==> !#[trigger] occurs_at(first, plain, at)) && (
    forall|at: int| !#[trigger] occurs_at(after, plain, at)) && (forall|at: int|
        !#[trigger] occurs_at(out, other, at)) {
        lemma_one_replaced(before, plain, after, number);
        lemma_find(out, other);
    }
    if (forall|at: int| !#[trigger] occurs_at(second, plain, at)) && (forall|at: int|
        0 <= at < before.len() ==> !#[trigger] occurs_at(second, other, at)) && (forall|at: int|
        !#[trigger] occurs_at(after, other, at)) {
        lemma_find(second, plain);
        lemma_one_replaced(before, other, after, number);
    }
}

/// Names that stand nowhere behind `named` leave the line as it is.
pub proof fn law_absent_objects_change_nothing(line: Seq<char>, names: Seq<Seq<char>>)
    requires
        forall|i: int, at: int|
            0 <= i < names.len() ==> !#[trigger] occurs_at(line, "named"@ + names[i], at)
                && !occurs_at(line, "named"@ + replace_char(names[i], ',', ';'), at),
    ensures
        numbered_names(line, names) == line,
    decreases names.len(),
{
    if names.len() > 0 {
        let front = names.drop_last();
        let last = names.len() - 1;
        assert forall|i: int, at: int| 0 <= i < front.len() implies !#[trigger] occurs_at(
            line,
            "named"@ + front[i],
            at,
        ) && !occurs_at(line, "named"@ + replace_char(front[i], ',', ';'), at) by {
            assert(!occurs_at(line, "named"@ + names[i], at));
        }
        law_absent_objects_change_nothing(line, front);
        let plain = "named"@ + names[last];
        let other = "named"@ + replace_char(names[last], ',', ';');
        lemma_find(line, plain);
        lemma_find(line, other);
        if let Some(at) = find(line, plain) {
            assert(!occurs_at(line, "named"@ + names[last], at));
        }
        if let Some(at) = find(line, other) {
            assert(!occurs_at(line, "named"@ + names[last], at));
        }
    }
}

} // verus!
