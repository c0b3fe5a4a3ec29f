//! Slash-separated paths as texts.

use vstd::prelude::*;
use vstd::slice::slice_subrange;

use crate::ids::path_join;
use crate::script::optional_view;
use crate::text::{
    append, append_str, chars_of, find_char_from, lemma_find_char_from, pieces, reads, same, split,
    string_of, views,
};

verus! {

/// Why a path cannot name the output.
#[derive(Clone, Copy, Debug, Eq, PartialEq, Structural)]
pub enum OutputPathError {
    /// The path is empty or the root directory.
    Unsafe,
    /// The path leads through a parent directory.
    ParentTraversal,
    /// The path has no final name.
    NoFinalName,
}

/// Whether a piece between slashes names a step of the path; empty pieces and
/// `.` do not.
pub open spec fn is_step(piece: Seq<char>) -> bool {
    piece.len() > 0 && piece != "."@
}

/// Whether one of the pieces is a step.
pub open spec fn has_step(pieces: Seq<Seq<char>>) -> bool {
    exists|i: int| 0 <= i < pieces.len() && is_step(#[trigger] pieces[i])
}

/// The problem with an output path.
pub open spec fn output_path_problem(path: Seq<char>) -> Option<OutputPathError> {
    let pieces = split(path, '/');
    if path.len() == 0 || (path[0] == '/' && !has_step(pieces)) {
        Some(OutputPathError::Unsafe)
    } else if pieces.contains(".."@) {
        Some(OutputPathError::ParentTraversal)
    } else if !has_step(pieces) {
        Some(OutputPathError::NoFinalName)
    } else {
        None
    }
}

/// Whether one of the pieces is a step.
fn any_step(list: &Vec<&[char]>) -> (res: bool)
    ensures
        res == has_step(views(list@)),
{
    let ghost all = views(list@);
    let mut i: usize = 0;
    while i < list.len()
        invariant
            i <= list@.len(),
            all == views(list@),
            forall|j: int| 0 <= j < i ==> !is_step(#[trigger] all[j]),
        decreases list@.len() - i,
    {
        assert(all[i as int] == list@[i as int]@);
        if list[i].len() > 0 && !reads(list[i], ".") {
            return true;
        }
        i += 1;
    }
    false
}

/// Whether one of the pieces leads to a parent directory.
fn any_parent(list: &Vec<&[char]>) -> (res: bool)
    ensures
        res == views(list@).contains(".."@),
{
    let ghost all = views(list@);
    let mut i: usize = 0;
    while i < list.len()
        invariant
            i <= list@.len(),
            all == views(list@),
            forall|j: int| 0 <= j < i ==> #[trigger] all[j] != ".."@,
        decreases list@.len() - i,
    {
        assert(all[i as int] == list@[i as int]@);
        if reads(list[i], "..") {
            return true;
        }
        i += 1;
    }
    false
}

/// Checks that a path can name the output: it is neither empty nor the root,
/// leads through no parent directory and ends in a name.
pub fn validate_output_path(output: &str) -> (res: Result<(), OutputPathError>)
    ensures
        match res {
            Ok(_) => output_path_problem(output@) is None,
            Err(problem) => output_path_problem(output@) == Some(problem),
        },
{
    let chars = chars_of(output);
    let list = pieces(chars.as_slice(), '/');
    let named = any_step(&list);
    if chars.len() == 0 || (chars[0] == '/' && !named) {
        return Err(OutputPathError::Unsafe);
    }
    if any_parent(&list) {
        return Err(OutputPathError::ParentTraversal);
    }
    if !named {
        return Err(OutputPathError::NoFinalName);
    }
    Ok(())
}

/// Where the piece that begins at `from` ends.
pub open spec fn piece_end(path: Seq<char>, from: int) -> int {
    match find_char_from(path, '/', from) {
        Some(at) => at,
        None => path.len() as int,
    }
}

/// The steps of a path from the piece that begins at `from` on, each as where
/// it begins and where it ends.
pub open spec fn steps_from(path: Seq<char>, from: int) -> Seq<(int, int)>
    decreases path.len() + 1 - from,
{
    if from < 0 || from > path.len() {
        Seq::empty()
    } else {
        let end = piece_end(path, from);
        proof {
            lemma_find_char_from(path, '/', from);
        }
        let later = steps_from(path, end + 1);
        if is_step(path.subrange(from, end)) {
            seq![(from, end)] + later
        } else {
            later
        }
    }
}

/// Whether a path begins with the root directory or with `.`, which counts as a
/// part of its own in front of the steps.
pub open spec fn has_start(path: Seq<char>) -> bool {
    &&& path.len() > 0
    &&& path[0] == '/' || path[0] == '.' && piece_end(path, 0) == 1
}

/// The parts of a path: what it begins with, if that counts, and its steps.
pub open spec fn parts_of(path: Seq<char>) -> Seq<(int, int)> {
    if has_start(path) {
        seq![(0int, 1int)] + steps_from(path, 0)
    } else {
        steps_from(path, 0)
    }
}

/// What a part reads.
pub open spec fn part_text(path: Seq<char>, part: (int, int)) -> Seq<char> {
    path.subrange(part.0, part.1)
}

/// Whether the parts of `root` are the first parts of `path`.
pub open spec fn lies_below(root: Seq<char>, path: Seq<char>) -> bool {
    &&& parts_of(root).len() <= parts_of(path).len()
    &&& forall|i: int|
        0 <= i < parts_of(root).len() ==> part_text(root, #[trigger] parts_of(root)[i])
            == part_text(path, parts_of(path)[i])
}

/// `path` as seen from the directory `root`: what it reads behind the parts of
/// `root`, up to its last part. A path that does not lie below `root` is shown
/// as it is.
#[verifier::opaque]
pub open spec fn relative(root: Seq<char>, path: Seq<char>) -> Seq<char> {
    let depth = parts_of(root).len() as int;
    let parts = parts_of(path);
    if !lies_below(root, path) {
        path
    } else if depth == parts.len() {
        Seq::empty()
    } else {
        path.subrange(parts[depth].0, parts.last().1)
    }
}

/// Steps follow each other and stay inside the path.
proof fn lemma_steps(path: Seq<char>, from: int)
    requires
        0 <= from,
    ensures
        forall|i: int|
            0 <= i < steps_from(path, from).len() ==> {
                let part = #[trigger] steps_from(path, from)[i];
                from <= part.0 < part.1 <= path.len()
            },
        forall|i: int, j: int|
            0 <= i < j < steps_from(path, from).len() ==> (#[trigger] steps_from(path, from)[i]).1
                < (#[trigger] steps_from(path, from)[j]).0,
    decreases path.len() + 1 - from,
{
    if from <= path.len() {
        lemma_find_char_from(path, '/', from);
        let end = piece_end(path, from);
        lemma_steps(path, end + 1);
        let all = steps_from(path, from);
        let later = steps_from(path, end + 1);
        if is_step(path.subrange(from, end)) {
            assert(forall|i: int| 0 < i < all.len() ==> #[trigger] all[i] == later[i - 1]);
        } else {
            assert(all == later);
        }
    }
}

/// Parts follow each other and stay inside the path.
proof fn lemma_parts(path: Seq<char>)
    ensures
        forall|i: int|
            0 <= i < parts_of(path).len() ==> {
                let part = #[trigger] parts_of(path)[i];
                0 <= part.0 < part.1 <= path.len()
            },
        forall|i: int, j: int|
            0 <= i <= j < parts_of(path).len() ==> (#[trigger] parts_of(path)[i]).0 < (
            #[trigger] parts_of(path)[j]).1,
{
    lemma_steps(path, 0);
    let steps = steps_from(path, 0);
    let parts = parts_of(path);
    if has_start(path) {
        assert(forall|i: int| 0 < i < parts.len() ==> #[trigger] parts[i] == steps[i - 1]);
    }
}

/// The parts as numbers of any size.
spec fn spans_view(spans: Seq<(usize, usize)>) -> Seq<(int, int)> {
    Seq::new(spans.len(), |i: int| (spans[i].0 as int, spans[i].1 as int))
}

/// The parts of a path.
fn find_parts(path: &[char]) -> (out: Vec<(usize, usize)>)
    ensures
        spans_view(out@) == parts_of(path@),
{
    let mut out: Vec<(usize, usize)> = Vec::new();
    let total: usize = path.len();
    if total > 0 && (path[0] == '/' || (path[0] == '.' && (total == 1 || path[1] == '/'))) {
        out.push((0, 1));
    }
    let ghost start = spans_view(out@);
    proof {
        if total > 0 {
            lemma_find_char_from(path@, '/', 0);
        }
        assert(has_start(path@) ==> start =~= seq![(0int, 1int)]);
        assert(!has_start(path@) ==> start =~= Seq::empty());
        assert(parts_of(path@) =~= start + steps_from(path@, 0));
    }
    let mut from: usize = 0;
    loop
        invariant
            from <= total == path@.len(),
            spans_view(out@) + steps_from(path@, from as int) == parts_of(path@),
        decreases total - from,
    {
        let mut end: usize = from;
        while end < total && path[end] != '/'
            invariant
                from <= end <= total == path@.len(),
                find_char_from(path@, '/', from as int) == find_char_from(path@, '/', end as int),
            decreases total - end,
        {
            end += 1;
        }
        assert(end == piece_end(path@, from as int));
        let piece = slice_subrange(path, from, end);
        let ghost before = spans_view(out@);
        let ghost later = steps_from(path@, end + 1);
        if piece.len() > 0 && !reads(piece, ".") {
            out.push((from, end));
            proof {
                assert(spans_view(out@) =~= before.push((from as int, end as int)));
                assert(before + (seq![(from as int, end as int)] + later) =~= spans_view(out@)
                    + later);
            }
        }
        assert(spans_view(out@) + later == parts_of(path@));
        if end == total {
            assert(later =~= Seq::empty());
            assert(spans_view(out@) =~= parts_of(path@));
            return out;
        }
        from = end + 1;
    }
}

/// Whether the parts of `root` are the first parts of `path`.
fn is_below(root: &[char], roots: &[(usize, usize)], path: &[char], parts: &[(usize, usize)]) -> (res:
    bool)
    requires
        spans_view(roots@) == parts_of(root@),
        spans_view(parts@) == parts_of(path@),
    ensures
        res == lies_below(root@, path@),
{
    if roots.len() > parts.len() {
        return false;
    }
    proof {
        lemma_parts(root@);
        lemma_parts(path@);
    }
    let ghost root_parts = spans_view(roots@);
    let ghost path_parts = spans_view(parts@);
    let mut i: usize = 0;
    while i < roots.len()
        invariant
            i <= roots@.len() <= parts@.len(),
            root_parts == spans_view(roots@),
            path_parts == spans_view(parts@),
            root_parts == parts_of(root@),
            path_parts == parts_of(path@),
            forall|j: int| 0 <= j < root_parts.len() ==> 0 <= (#[trigger] root_parts[j]).0
                < root_parts[j].1 <= root@.len(),
            forall|j: int| 0 <= j < path_parts.len() ==> 0 <= (#[trigger] path_parts[j]).0
                < path_parts[j].1 <= path@.len(),
            forall|j: int|
                0 <= j < i ==> part_text(root@, #[trigger] root_parts[j]) == part_text(
                    path@,
                    path_parts[j],
                ),
        decreases roots@.len() - i,
    {
        assert(root_parts[i as int] == (roots@[i as int].0 as int, roots@[i as int].1 as int));
        assert(path_parts[i as int] == (parts@[i as int].0 as int, parts@[i as int].1 as int));
        let left = slice_subrange(root, roots[i].0, roots[i].1);
        let right = slice_subrange(path, parts[i].0, parts[i].1);
        if !same(left, right) {
            assert(part_text(root@, parts_of(root@)[i as int]) != part_text(
                path@,
                parts_of(path@)[i as int],
            ));
            return false;
        }
        i += 1;
    }
    true
}

/// How a source is named in reports: by its path below the source directory.
pub fn relative_display(root: &str, path: &str) -> (out: String)
    ensures
        out@ == relative(root@, path@),
{
    reveal(relative);
    let root_chars = chars_of(root);
    let path_chars = chars_of(path);
    let roots = find_parts(root_chars.as_slice());
    let parts = find_parts(path_chars.as_slice());
    assert(spans_view(roots@).len() == roots@.len());
    assert(spans_view(parts@).len() == parts@.len());
    if !is_below(root_chars.as_slice(), roots.as_slice(), path_chars.as_slice(), parts.as_slice()) {
        return string_of(path_chars.as_slice());
    }
    if roots.len() == parts.len() {
        return String::new();
    }
    let depth: usize = roots.len();
    let last: usize = parts.len() - 1;
    proof {
        lemma_parts(path@);
        let spans = spans_view(parts@);
        assert(spans[depth as int] == (parts@[depth as int].0 as int, parts@[depth as int].1 as int));
        assert(spans[last as int] == (parts@[last as int].0 as int, parts@[last as int].1 as int));
    }
    string_of(slice_subrange(path_chars.as_slice(), parts[depth].0, parts[last].1))
}

/// What a path reads in front of its last part.
pub open spec fn parent_of(path: Seq<char>) -> Seq<char> {
    let parts = parts_of(path);
    if parts.len() < 2 {
        Seq::empty()
    } else {
        path.subrange(0, parts[parts.len() - 2].1)
    }
}

/// The hidden neighbour of a path: in the same directory, its name between
/// dots and in front of the suffix.
pub open spec fn sibling(path: Seq<char>, suffix: Seq<char>) -> Option<Seq<char>> {
    let parts = parts_of(path);
    if parts.len() == 0 {
        None
    } else {
        let name = part_text(path, parts.last());
        if name == "/"@ || name == "."@ || name == ".."@ {
            None
        } else {
            Some(path_join(parent_of(path), "."@ + name + "."@ + suffix))
        }
    }
}

/// The hidden neighbour of a path that an output is built in or kept as.
pub fn sibling_with_suffix(path: &str, suffix: &str) -> (res: Option<String>)
    ensures
        optional_view(res) == sibling(path@, suffix@),
{
    let chars = chars_of(path);
    let whole = chars.as_slice();
    let parts = find_parts(whole);
    let ghost spans = spans_view(parts@);
    proof {
        lemma_parts(path@);
        assert(spans.len() == parts@.len());
    }
    let count: usize = parts.len();
    if count == 0 {
        return None;
    }
    assert(spans[count - 1] == (parts@[count - 1].0 as int, parts@[count - 1].1 as int));
    let name = slice_subrange(whole, parts[count - 1].0, parts[count - 1].1);
    if reads(name, "/") || reads(name, ".") || reads(name, "..") {
        return None;
    }
    let mut out: Vec<char> = Vec::new();
    if count >= 2 {
        assert(spans[count - 2] == (parts@[count - 2].0 as int, parts@[count - 2].1 as int));
        append(&mut out, slice_subrange(whole, 0, parts[count - 2].1));
    }
    assert(out@ =~= parent_of(path@));
    let ghost parent = out@;
    if out.len() > 0 && out[out.len() - 1] != '/' {
        out.push('/');
    }
    append_str(&mut out, ".");
    append(&mut out, name);
    append_str(&mut out, ".");
    append_str(&mut out, suffix);
    assert(out@ =~= path_join(parent, "."@ + name@ + "."@ + suffix@));
    Some(string_of(out.as_slice()))
}

} // verus!
