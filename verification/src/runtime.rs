//! Objects that a script names at run time, and the numbers that replace
//! their names.

use vstd::prelude::*;

use crate::digest::{runtime_object_id, stable_runtime_object_id};
use crate::maps::{has_key, row_holds, TextMap};
use crate::numerals::{append_decimal, decimal};
use crate::order::{lemma_text_less_irreflexive, longer_first, text_less};
use crate::parameters::{
    api_name, api_of, is_object_key, lemma_split_not_empty, names_object, parameter, parameter_of,
};
use crate::sorting::{lemma_longest_first_unique, longest_first, row_views, sort_longest_first};
use crate::text::{
    append, append_str, chars_of, join, joined, line_slices, lines, owned_views, pieces, replace,
    replace_char, replaced, replaced_char, split, string_of, string_views, to_owned, trim, trimmed,
    views,
};

verus! {

/// The object names among the segments, in their order.
pub open spec fn object_values(api: Seq<char>, segments: Seq<Seq<char>>) -> Seq<Seq<char>>
    decreases segments.len(),
{
    if segments.len() == 0 {
        Seq::empty()
    } else {
        let earlier = object_values(api, segments.drop_last());
        match parameter_of(segments.last()) {
            Some((key, value)) => if is_object_key(api, key) {
                earlier.push(value)
            } else {
                earlier
            },
            None => earlier,
        }
    }
}

/// The object names in the parameters of a line.
pub open spec fn line_object_names(line: Seq<char>) -> Seq<Seq<char>> {
    let segments = split(line, '|');
    object_values(api_of(segments[0]), segments.skip(1))
}

/// The object names in the rows, in their order.
pub open spec fn row_object_names(rows: Seq<Seq<char>>) -> Seq<Seq<char>>
    decreases rows.len(),
{
    if rows.len() == 0 {
        Seq::empty()
    } else {
        row_object_names(rows.drop_last()) + line_object_names(rows.last())
    }
}

/// Whether each name comes before all later ones when longer names come first.
pub open spec fn names_longest_first(names: Seq<Seq<char>>) -> bool {
    forall|i: int, j: int|
        0 <= i < j < names.len() ==> longer_first(#[trigger] names[i], #[trigger] names[j])
}

/// The names of the set, the longer ones first.
pub open spec fn ordered_names(names: Set<Seq<char>>) -> Seq<Seq<char>> {
    choose|ordered: Seq<Seq<char>>|
        #![trigger names_longest_first(ordered)]
        names_longest_first(ordered) && ordered.to_set() == names
}

/// The names of the objects that a script names, each once, the longer ones
/// first.
pub open spec fn object_names(script: Seq<char>) -> Seq<Seq<char>> {
    ordered_names(row_object_names(lines(script)).to_set())
}

/// The line with the names after `named` replaced by numbers.
pub open spec fn numbered_names(line: Seq<char>, names: Seq<Seq<char>>) -> Seq<char>
    decreases names.len(),
{
    if names.len() == 0 {
        line
    } else {
        let earlier = numbered_names(line, names.drop_last());
        let name = names.last();
        let number = "named"@ + decimal(runtime_object_id(name));
        replace(
            replace(earlier, "named"@ + name, number),
            "named"@ + replace_char(name, ',', ';'),
            number,
        )
    }
}

/// A segment with the object name in it replaced by its number.
pub open spec fn object_segment(api: Seq<char>, segment: Seq<char>) -> Seq<char> {
    match parameter_of(segment) {
        Some((key, value)) => if is_object_key(api, key) {
            key + "$ "@ + decimal(runtime_object_id(value))
        } else {
            trim(segment)
        },
        None => trim(segment),
    }
}

/// The line with the names of runtime objects replaced by numbers.
pub open spec fn object_parameters(line: Seq<char>, names: Seq<Seq<char>>) -> Seq<char> {
    let segments = split(numbered_names(line, names), '|');
    let api = api_of(segments[0]);
    join(
        Seq::new(
            segments.len(),
            |i: int|
                if i == 0 {
                    trim(segments[0])
                } else {
                    object_segment(api, segments[i])
                },
        ),
        " | "@,
    )
}

/// Ordered names are fixed by the set they come from.
pub proof fn lemma_ordered_names_unique(left: Seq<Seq<char>>, right: Seq<Seq<char>>)
    requires
        names_longest_first(left),
        names_longest_first(right),
        left.to_set() == right.to_set(),
    ensures
        left == right,
{
    let a = left.map_values(|name: Seq<char>| (name, ()));
    let b = right.map_values(|name: Seq<char>| (name, ()));
    assert forall|row: (Seq<char>, ())| a.to_set().contains(row) == b.to_set().contains(row) by {
        if a.contains(row) {
            let i = choose|i: int| 0 <= i < a.len() && a[i] == row;
            assert(left.to_set().contains(left[i]));
            let j = choose|j: int| 0 <= j < right.len() && right[j] == left[i];
            assert(b[j] == row);
        }
        if b.contains(row) {
            let i = choose|i: int| 0 <= i < b.len() && b[i] == row;
            assert(right.to_set().contains(right[i]));
            let j = choose|j: int| 0 <= j < left.len() && left[j] == right[i];
            assert(a[j] == row);
        }
    }
    assert(a.to_set() =~= b.to_set());
    assert(longest_first(a)) by {
        assert forall|i: int, j: int| 0 <= i < j < a.len() implies longer_first(
            #[trigger] a[i].0,
            #[trigger] a[j].0,
        ) by {
            assert(longer_first(left[i], left[j]));
        }
    }
    assert(longest_first(b)) by {
        assert forall|i: int, j: int| 0 <= i < j < b.len() implies longer_first(
            #[trigger] b[i].0,
            #[trigger] b[j].0,
        ) by {
            assert(longer_first(right[i], right[j]));
        }
    }
    lemma_longest_first_unique(a, b);
    assert(left =~= right) by {
        assert forall|i: int| 0 <= i < left.len() implies left[i] == right[i] by {
            assert(a[i] == b[i]);
        }
    }
}

/// A list that is ordered and holds the names of the set is the list of the
/// set's names.
pub proof fn lemma_ordered_names_is(names: Set<Seq<char>>, ordered: Seq<Seq<char>>)
    requires
        names_longest_first(ordered),
        ordered.to_set() == names,
    ensures
        ordered_names(names) == ordered,
{
    let chosen = ordered_names(names);
    assert(names_longest_first(chosen) && chosen.to_set() == names);
    lemma_ordered_names_unique(chosen, ordered);
}

/// Adds the object names in a line's parameters to the names.
fn collect_names(line: &[char], names: &mut TextMap<()>)
    ensures
        final(names)@.dom() == old(names)@.dom().union(line_object_names(line@).to_set()),
{
    let segments = pieces(line, '|');
    let ghost all = split(line@, '|');
    proof {
        lemma_split_not_empty(line@, '|');
        assert(all.len() == segments@.len());
        assert(all[0] == segments@[0]@);
    }
    let api = api_name(segments[0]);
    let ghost tail = all.skip(1);
    let ghost before = names@.dom();
    let mut i: usize = 1;
    assert(object_values(api@, tail.take(0)).to_set() =~= Set::empty());
    assert(before =~= before.union(object_values(api@, tail.take(0)).to_set()));
    while i < segments.len()
        invariant
            1 <= i <= segments@.len(),
            all == views(segments@),
            tail == all.skip(1),
            names@.dom() == before.union(object_values(api@, tail.take(i - 1)).to_set()),
        decreases segments@.len() - i,
    {
        let ghost so_far = object_values(api@, tail.take(i - 1));
        proof {
            assert(tail.take(i as int).drop_last() == tail.take(i - 1));
            assert(tail.take(i as int).last() == segments@[i as int]@);
        }
        match parameter(segments[i]) {
            Some((key, value)) => {
                if names_object(api, key) {
                    let name = string_of(value);
                    names.insert(name, ());
                    proof {
                        lemma_pushed_set(so_far, value@);
                        assert(names@.dom() =~= before.union(so_far.push(value@).to_set()));
                    }
                }
            },
            None => {},
        }
        i += 1;
    }
    assert(tail.take(tail.len() as int) == tail);
}

proof fn lemma_pushed_set(items: Seq<Seq<char>>, item: Seq<char>)
    ensures
        items.push(item).to_set() == items.to_set().insert(item),
{
    let pushed = items.push(item);
    assert forall|x: Seq<char>| pushed.to_set().contains(x) == items.to_set().insert(
        item,
    ).contains(x) by {
        if items.contains(x) {
            let i = choose|i: int| 0 <= i < items.len() && items[i] == x;
            assert(pushed[i] == x);
        }
        assert(pushed[items.len() as int] == item);
    }
    assert(pushed.to_set() =~= items.to_set().insert(item));
}

proof fn lemma_concat_set(left: Seq<Seq<char>>, right: Seq<Seq<char>>)
    ensures
        (left + right).to_set() == left.to_set().union(right.to_set()),
{
    let both = left + right;
    assert forall|x: Seq<char>| both.to_set().contains(x) == left.to_set().union(
        right.to_set(),
    ).contains(x) by {
        if left.contains(x) {
            let i = choose|i: int| 0 <= i < left.len() && left[i] == x;
            assert(both[i] == x);
        }
        if right.contains(x) {
            let i = choose|i: int| 0 <= i < right.len() && right[i] == x;
            assert(both[i + left.len()] == x);
        }
    }
    assert(both.to_set() =~= left.to_set().union(right.to_set()));
}

/// The names of the objects that a script names at run time, each once, the
/// longer ones first.
pub fn runtime_object_names(script: &str) -> (out: Vec<String>)
    ensures
        string_views(out@) == object_names(script@),
        names_longest_first(string_views(out@)),
        string_views(out@).to_set() == row_object_names(lines(script@)).to_set(),
{
    let chars = chars_of(script);
    let rows = line_slices(chars.as_slice());
    let ghost all = lines(script@);
    let mut names: TextMap<()> = TextMap::new();
    let mut i: usize = 0;
    assert(row_object_names(all.take(0)).to_set() =~= Set::empty());
    while i < rows.len()
        invariant
            i <= rows@.len(),
            all == views(rows@),
            names@.dom() == row_object_names(all.take(i as int)).to_set(),
        decreases rows@.len() - i,
    {
        collect_names(rows[i], &mut names);
        proof {
            assert(all.take(i + 1).drop_last() == all.take(i as int));
            assert(all.take(i + 1).last() == rows@[i as int]@);
            lemma_concat_set(row_object_names(all.take(i as int)), line_object_names(all[i as int]));
        }
        i += 1;
    }
    assert(all.take(all.len() as int) == all);
    let ghost wanted = row_object_names(all).to_set();
    let ghost named_rows = names.rows();
    let unsorted = names.into_rows();
    proof {
        assert forall|a: int, b: int| 0 <= a < b < named_rows.len() implies (
        #[trigger] named_rows[a]).0 != (#[trigger] named_rows[b]).0 by {
            lemma_text_less_irreflexive(named_rows[a].0);
            assert(text_less(named_rows[a].0, named_rows[b].0));
        }
    }
    let sorted = sort_longest_first(unsorted);
    let ghost sorted_rows = row_views(sorted@);
    let mut out: Vec<String> = Vec::new();
    let mut at: usize = 0;
    while at < sorted.len()
        invariant
            at <= sorted@.len(),
            sorted_rows == row_views(sorted@),
            out@.len() == at,
            forall|j: int| 0 <= j < at ==> #[trigger] out@[j]@ == sorted_rows[j].0,
        decreases sorted@.len() - at,
    {
        out.push(sorted[at].0.clone());
        at += 1;
    }
    proof {
        let ordered = string_views(out@);
        assert forall|a: int, b: int| 0 <= a < b < ordered.len() implies longer_first(
            #[trigger] ordered[a],
            #[trigger] ordered[b],
        ) by {
            assert(ordered[a] == out@[a]@);
            assert(ordered[b] == out@[b]@);
            assert(longer_first(sorted_rows[a].0, sorted_rows[b].0));
        }
        assert forall|name: Seq<char>| ordered.to_set().contains(name) == wanted.contains(name) by {
            if ordered.contains(name) {
                let j = choose|j: int| 0 <= j < ordered.len() && ordered[j] == name;
                assert(out@[j]@ == sorted_rows[j].0);
                assert(sorted_rows.to_set().contains(sorted_rows[j]));
                let k = choose|k: int| 0 <= k < named_rows.len() && named_rows[k] == sorted_rows[j];
                assert(row_holds(named_rows, name, k));
            }
            if wanted.contains(name) {
                assert(has_key(named_rows, name));
                let k = choose|k: int| row_holds(named_rows, name, k);
                assert(named_rows.to_set().contains(named_rows[k]));
                let j = choose|j: int| 0 <= j < sorted_rows.len() && sorted_rows[j]
                    == named_rows[k];
                assert(out@[j]@ == sorted_rows[j].0);
                assert(ordered[j] == name);
            }
        }
        assert(ordered.to_set() =~= wanted);
        lemma_ordered_names_is(wanted, ordered);
    }
    out
}

/// One segment with the object name in it replaced.
fn rewritten_object_segment(api: &[char], segment: &[char]) -> (out: Vec<char>)
    ensures
        out@ == object_segment(api@, segment@),
{
    match parameter(segment) {
        Some((key, value)) => {
            if names_object(api, key) {
                let name = string_of(value);
                let mut out = to_owned(key);
                append_str(&mut out, "$ ");
                append_decimal(&mut out, stable_runtime_object_id(name.as_str()));
                out
            } else {
                to_owned(trimmed(segment))
            }
        },
        None => to_owned(trimmed(segment)),
    }
}

/// The line with the names after `named` replaced.
fn with_numbered_names(line: &str, runtime_names: &[String]) -> (out: Vec<char>)
    ensures
        out@ == numbered_names(line@, string_views(runtime_names@)),
{
    let ghost names = string_views(runtime_names@);
    let mut text = chars_of(line);
    let mut i: usize = 0;
    assert(names.take(0) =~= Seq::<Seq<char>>::empty());
    while i < runtime_names.len()
        invariant
            i <= runtime_names@.len(),
            names == string_views(runtime_names@),
            text@ == numbered_names(line@, names.take(i as int)),
        decreases runtime_names@.len() - i,
    {
        proof {
            reveal_strlit("named");
            assert(names.take(i + 1).drop_last() == names.take(i as int));
            assert(names.take(i + 1).last() == runtime_names@[i as int]@);
        }
        let name = runtime_names[i].as_str();
        let name_chars = chars_of(name);
        let mut number = chars_of("named");
        append_decimal(&mut number, stable_runtime_object_id(name));
        let mut plain = chars_of("named");
        append(&mut plain, name_chars.as_slice());
        let mut escaped = chars_of("named");
        let escaped_name = replaced_char(name_chars.as_slice(), ',', ';');
        append(&mut escaped, escaped_name.as_slice());
        let once = replaced(text.as_slice(), plain.as_slice(), number.as_slice());
        text = replaced(once.as_slice(), escaped.as_slice(), number.as_slice());
        i += 1;
    }
    assert(names.take(names.len() as int) == names);
    text
}

/// Replaces the names of runtime objects in a line by numbers.
pub fn anonymize_runtime_object_names(line: &str, runtime_names: &[String]) -> (out: String)
    ensures
        out@ == object_parameters(line@, string_views(runtime_names@)),
{
    let numbered = with_numbered_names(line, runtime_names);
    let segments = pieces(numbered.as_slice(), '|');
    let ghost all = split(numbered@, '|');
    proof {
        lemma_split_not_empty(numbered@, '|');
        assert(all.len() == segments@.len());
        assert(all[0] == segments@[0]@);
    }
    let api = api_name(segments[0]);
    let mut out: Vec<Vec<char>> = Vec::new();
    out.push(to_owned(trimmed(segments[0])));
    let ghost wanted = Seq::new(
        all.len(),
        |i: int|
            if i == 0 {
                trim(all[0])
            } else {
                object_segment(api@, all[i])
            },
    );
    let mut i: usize = 1;
    while i < segments.len()
        invariant
            1 <= i <= segments@.len(),
            all == views(segments@),
            wanted == Seq::new(
                all.len(),
                |i: int|
                    if i == 0 {
                        trim(all[0])
                    } else {
                        object_segment(api@, all[i])
                    },
            ),
            out@.len() == i,
            forall|j: int| 0 <= j < i ==> #[trigger] out@[j]@ == wanted[j],
        decreases segments@.len() - i,
    {
        assert(all[i as int] == segments@[i as int]@);
        out.push(rewritten_object_segment(api, segments[i]));
        i += 1;
    }
    assert(owned_views(out@) =~= wanted);
    let text = joined(&out, " | ");
    string_of(text.as_slice())
}

} // verus!
