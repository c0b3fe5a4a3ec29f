//! How paths are shown and which of them are written to.

use vstd::prelude::*;

use crate::paths::{
    has_start, has_step, is_step, lies_below, output_path_problem, part_text, parts_of, piece_end,
    relative, steps_from, OutputPathError,
};
use crate::tables::{lacks, lemma_split_join};
use crate::text::{find_char_from, join, join_tail, lemma_find_char_from};

verus! {

/// An output path needs a name that is neither empty nor a dot, and no piece of
/// it may lead to a parent directory.
pub proof fn law_output_paths_are_checked(pieces: Seq<Seq<char>>)
    requires
        pieces.len() > 0,
        forall|i: int| 0 <= i < pieces.len() ==> lacks(#[trigger] pieces[i], '/'),
    ensures
        ({
            let path = join(pieces, seq!['/']);
            let out = output_path_problem(path);
            let climbs = exists|i: int| 0 <= i < pieces.len() && #[trigger] pieces[i] == ".."@;
            let names = exists|i: int|
                0 <= i < pieces.len() && (#[trigger] pieces[i]).len() > 0 && pieces[i] != "."@;
            &&& climbs ==> out == Some(OutputPathError::ParentTraversal)
            &&& !climbs && names ==> out is None
            &&& !names && (path.len() == 0 || path[0] == '/') ==> out == Some(
                OutputPathError::Unsafe,
            )
            &&& !names && path.len() > 0 && path[0] != '/' ==> out == Some(
                OutputPathError::NoFinalName,
            )
        }),
{
    reveal_strlit("..");
    reveal_strlit(".");
    let path = join(pieces, seq!['/']);
    lemma_split_join(pieces, '/');
    if exists|i: int| 0 <= i < pieces.len() && #[trigger] pieces[i] == ".."@ {
        let i = choose|i: int| 0 <= i < pieces.len() && #[trigger] pieces[i] == ".."@;
        assert("."@.len() == 1 && ".."@.len() == 2);
        assert(is_step(pieces[i]));
        assert(has_step(pieces));
        assert(pieces.contains(".."@));
    }
    if exists|i: int|
        0 <= i < pieces.len() && (#[trigger] pieces[i]).len() > 0 && pieces[i] != "."@ {
        let i = choose|i: int|
            0 <= i < pieces.len() && (#[trigger] pieces[i]).len() > 0 && pieces[i] != "."@;
        assert(is_step(pieces[i]));
        assert(has_step(pieces));
    }
    if path.len() == 0 && has_step(pieces) {
        lemma_no_pieces(pieces);
    }
}

proof fn lemma_no_pieces(pieces: Seq<Seq<char>>)
    requires
        pieces.len() > 0,
        join(pieces, seq!['/']).len() == 0,
    ensures
        !has_step(pieces),
{
    let later = pieces.drop_first();
    if later.len() > 0 {
        assert(join_tail(later, seq!['/']) == seq!['/'] + later[0] + join_tail(
            later.drop_first(),
            seq!['/'],
        ));
    }
    assert forall|i: int| 0 <= i < pieces.len() implies !is_step(#[trigger] pieces[i]) by {}
}

/// The steps with their places moved on.
spec fn moved(steps: Seq<(int, int)>, by: int) -> Seq<(int, int)> {
    Seq::new(steps.len(), |i: int| (steps[i].0 + by, steps[i].1 + by))
}

proof fn lemma_found_behind(path: Seq<char>, by: int, from: int)
    requires
        0 <= by <= by + from <= path.len(),
    ensures
        match find_char_from(path.skip(by), '/', from) {
            Some(at) => find_char_from(path, '/', by + from) == Some(at + by),
            None => find_char_from(path, '/', by + from) is None,
        },
    decreases path.len() - by - from,
{
    if by + from < path.len() {
        lemma_found_behind(path, by, from + 1);
    }
}

proof fn lemma_steps_behind(path: Seq<char>, by: int, from: int)
    requires
        0 <= by <= path.len(),
        0 <= from,
    ensures
        steps_from(path, by + from) == moved(steps_from(path.skip(by), from), by),
    decreases path.len() + 1 - by - from,
{
    let rest = path.skip(by);
    if by + from <= path.len() {
        lemma_found_behind(path, by, from);
        lemma_find_char_from(rest, '/', from);
        let end = piece_end(rest, from);
        assert(piece_end(path, by + from) == end + by);
        assert(rest.subrange(from, end) =~= path.subrange(by + from, by + end));
        lemma_steps_behind(path, by, end + 1);
        assert(steps_from(path, by + from) =~= moved(steps_from(rest, from), by));
    } else {
        assert(steps_from(path, by + from) =~= moved(steps_from(rest, from), by));
    }
}

proof fn lemma_end_in_root(root: Seq<char>, rest: Seq<char>, from: int)
    requires
        0 <= from <= root.len(),
    ensures
        piece_end(root + seq!['/'] + rest, from) == piece_end(root, from),
        from <= piece_end(root, from) <= root.len(),
{
    let path = root + seq!['/'] + rest;
    lemma_find_char_from(root, '/', from);
    lemma_find_char_from(path, '/', from);
    assert(path[root.len() as int] == '/');
    assert(forall|i: int| 0 <= i < root.len() ==> path[i] == root[i]);
}

proof fn lemma_steps_below(root: Seq<char>, rest: Seq<char>, from: int)
    requires
        0 <= from <= root.len(),
    ensures
        steps_from(root + seq!['/'] + rest, from) == steps_from(root, from) + moved(
            steps_from(rest, 0),
            root.len() as int + 1,
        ),
        forall|i: int|
            0 <= i < steps_from(root, from).len() ==> 0 <= (#[trigger] steps_from(root, from)[i]).0
                <= steps_from(root, from)[i].1 <= root.len(),
    decreases root.len() + 1 - from,
{
    let path = root + seq!['/'] + rest;
    let by = root.len() as int + 1;
    lemma_end_in_root(root, rest, from);
    let end = piece_end(root, from);
    assert(path.subrange(from, end) =~= root.subrange(from, end));
    if end < root.len() {
        lemma_steps_below(root, rest, end + 1);
    } else {
        assert(path.skip(by) =~= rest);
        lemma_steps_behind(path, by, 0);
        assert(steps_from(root, end + 1) =~= Seq::empty());
    }
    assert(steps_from(path, from) =~= steps_from(root, from) + moved(steps_from(rest, 0), by));
}

/// Whether a path begins with a name: neither with a slash nor with a dot for
/// the directory itself.
pub open spec fn begins_with_name(path: Seq<char>) -> bool {
    &&& path.len() > 0
    &&& path[0] != '/'
    &&& path[0] == '.' ==> path.len() > 1 && path[1] != '/'
}

/// Whether a path ends with a name: neither with a slash nor with a dot for
/// the directory itself.
pub open spec fn ends_with_name(path: Seq<char>) -> bool {
    let last = path.len() - 1;
    &&& path.len() > 0
    &&& path[last] != '/'
    &&& path[last] == '.' ==> path.len() > 1 && path[last - 1] != '/'
}

proof fn lemma_first_step(path: Seq<char>)
    requires
        begins_with_name(path),
    ensures
        steps_from(path, 0).len() > 0,
        steps_from(path, 0)[0].0 == 0,
{
    reveal_strlit(".");
    lemma_find_char_from(path, '/', 0);
    let end = piece_end(path, 0);
    let piece = path.subrange(0, end);
    assert(end > 0);
    assert(piece[0] == path[0]);
    if piece == "."@ {
        assert(piece.len() == end);
        assert(piece[0] == '.');
    }
}

proof fn lemma_last_step(path: Seq<char>, from: int)
    requires
        ends_with_name(path),
        0 <= from <= path.len(),
        from == 0 || path[from - 1] == '/',
    ensures
        steps_from(path, from).len() > 0,
        steps_from(path, from).last().1 == path.len(),
    decreases path.len() + 1 - from,
{
    reveal_strlit(".");
    lemma_find_char_from(path, '/', from);
    let end = piece_end(path, from);
    let later = steps_from(path, end + 1);
    if end < path.len() {
        lemma_last_step(path, end + 1);
        assert(steps_from(path, from).last() == later.last());
    } else {
        let piece = path.subrange(from, end);
        assert(from < path.len());
        assert(piece.last() == path.last());
        if piece == "."@ {
            assert(from == path.len() - 1);
            assert(piece[0] == path[from]);
        }
        assert(is_step(piece));
        assert(later =~= Seq::empty());
        assert(steps_from(path, from) =~= seq![(from, end)]);
    }
}

/// A path below a directory is shown as it reads behind the directory.
pub proof fn law_paths_are_shown_from_their_root(root: Seq<char>, rest: Seq<char>)
    requires
        root.len() > 0,
        begins_with_name(rest),
        ends_with_name(rest),
    ensures
        relative(root, root + seq!['/'] + rest) == rest,
{
    reveal(relative);
    let path = root + seq!['/'] + rest;
    let by = root.len() as int + 1;
    lemma_steps_below(root, rest, 0);
    lemma_first_step(rest);
    lemma_last_step(rest, 0);
    lemma_end_in_root(root, rest, 0);
    assert(path[0] == root[0]);
    assert(has_start(path) == has_start(root));
    let own = parts_of(root);
    let parts = parts_of(path);
    let below = moved(steps_from(rest, 0), by);
    assert(parts =~= own + below);
    assert forall|i: int| 0 <= i < own.len() implies part_text(root, #[trigger] own[i])
        == part_text(path, parts[i]) by {
        assert(parts[i] == own[i]);
        let start: int = if has_start(root) {
            1
        } else {
            0
        };
        if i >= start {
            assert(own[i] == steps_from(root, 0)[i - start]);
        }
        assert(0 <= own[i].0 <= own[i].1 <= root.len());
        assert(root.subrange(own[i].0, own[i].1) =~= path.subrange(own[i].0, own[i].1));
    }
    assert(lies_below(root, path));
    let depth = own.len() as int;
    assert(parts[depth] == below[0]);
    assert(parts.last() == below.last());
    assert(path.subrange(by, path.len() as int) =~= rest);
}

} // verus!
