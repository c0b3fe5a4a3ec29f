//! Sorting named rows so that longer names come first.

use vstd::prelude::*;

use crate::order::{
    is_longer_first, lemma_longer_first_irreflexive, lemma_longer_first_total,
    lemma_longer_first_transitive, longer_first,
};

verus! {

/// The names and values of the rows.
pub open spec fn row_views<V>(items: Seq<(String, V)>) -> Seq<(Seq<char>, V)> {
    Seq::new(items.len(), |i: int| (items[i].0@, items[i].1))
}

/// Whether each name is one that comes first before all later ones.
pub open spec fn longest_first<V>(rows: Seq<(Seq<char>, V)>) -> bool {
    forall|i: int, j: int|
        0 <= i < j < rows.len() ==> longer_first(#[trigger] rows[i].0, #[trigger] rows[j].0)
}

/// Whether no name stands twice.
pub open spec fn distinct_names<V>(rows: Seq<(Seq<char>, V)>) -> bool {
    forall|i: int, j: int|
        0 <= i < j < rows.len() ==> (#[trigger] rows[i]).0 != (#[trigger] rows[j]).0
}

/// Whether no name of one list stands in the other.
spec fn disjoint_names<V>(left: Seq<(Seq<char>, V)>, right: Seq<(Seq<char>, V)>) -> bool {
    forall|i: int, j: int|
        0 <= i < left.len() && 0 <= j < right.len() ==> (#[trigger] left[i]).0 != (
        #[trigger] right[j]).0
}

/// Whether all names of `early` come before all names of `late`.
spec fn all_before<V>(early: Seq<(Seq<char>, V)>, late: Seq<(Seq<char>, V)>) -> bool {
    forall|i: int, j: int|
        0 <= i < early.len() && 0 <= j < late.len() ==> longer_first(
            (#[trigger] early[i]).0,
            (#[trigger] late[j]).0,
        )
}

/// Whether the rows stand in the opposite order.
spec fn longest_last<V>(rows: Seq<(Seq<char>, V)>) -> bool {
    forall|i: int, j: int|
        0 <= i < j < rows.len() ==> longer_first(#[trigger] rows[j].0, #[trigger] rows[i].0)
}

proof fn lemma_push_set<A>(items: Seq<A>, item: A)
    ensures
        items.push(item).to_set() == items.to_set().insert(item),
{
    let pushed = items.push(item);
    assert forall|x: A| pushed.to_set().contains(x) == items.to_set().insert(item).contains(x) by {
        if items.contains(x) {
            let i = choose|i: int| 0 <= i < items.len() && items[i] == x;
            assert(pushed[i] == x);
        }
        assert(pushed[items.len() as int] == item);
    }
    assert(pushed.to_set() =~= items.to_set().insert(item));
}

/// Moves the last row of `from` to the end of `to`.
fn move_last<V>(from: &mut Vec<(String, V)>, to: &mut Vec<(String, V)>)
    requires
        old(from)@.len() > 0,
    ensures
        row_views(final(from)@) == row_views(old(from)@).drop_last(),
        row_views(final(to)@) == row_views(old(to)@).push(row_views(old(from)@).last()),
        row_views(final(from)@).to_set().union(row_views(final(to)@).to_set()) == row_views(
            old(from)@,
        ).to_set().union(row_views(old(to)@).to_set()),
{
    let ghost source = row_views(from@);
    let ghost target = row_views(to@);
    match from.pop() {
        Some(item) => {
            to.push(item);
        },
        None => {},
    }
    proof {
        assert(row_views(from@) =~= source.drop_last());
        assert(row_views(to@) =~= target.push(source.last()));
        assert(source =~= source.drop_last().push(source.last()));
        lemma_push_set(source.drop_last(), source.last());
        lemma_push_set(target, source.last());
        assert(row_views(from@).to_set().union(row_views(to@).to_set()) =~= source.to_set().union(
            target.to_set(),
        ));
    }
}

/// The rows in the opposite order.
fn reversed<V>(mut items: Vec<(String, V)>) -> (out: Vec<(String, V)>)
    requires
        longest_last(row_views(items@)),
    ensures
        longest_first(row_views(out@)),
        row_views(out@).len() == row_views(items@).len(),
        row_views(out@).to_set() == row_views(items@).to_set(),
{
    let ghost all = row_views(items@);
    let mut out: Vec<(String, V)> = Vec::new();
    assert(row_views(out@).to_set() =~= Set::empty());
    assert(all.to_set() =~= all.to_set().union(row_views(out@).to_set()));
    while items.len() > 0
        invariant
            longest_last(row_views(items@)),
            longest_first(row_views(out@)),
            all_before(row_views(out@), row_views(items@)),
            row_views(items@).len() + row_views(out@).len() == all.len(),
            row_views(items@).to_set().union(row_views(out@).to_set()) == all.to_set(),
        decreases items@.len(),
    {
        let ghost left = row_views(items@);
        move_last(&mut items, &mut out);
        assert(left.last() == left[left.len() - 1]);
    }
    assert(row_views(items@) =~= Seq::empty());
    assert(row_views(items@).to_set() =~= Set::empty());
    assert(row_views(out@).to_set() =~= all.to_set());
    out
}

/// Merges two sorted lists that share no name.
fn merged<V>(mut left: Vec<(String, V)>, mut right: Vec<(String, V)>) -> (out: Vec<(String, V)>)
    requires
        longest_first(row_views(left@)),
        longest_first(row_views(right@)),
        disjoint_names(row_views(left@), row_views(right@)),
    ensures
        longest_first(row_views(out@)),
        row_views(out@).len() == row_views(left@).len() + row_views(right@).len(),
        row_views(out@).to_set() == row_views(left@).to_set().union(row_views(right@).to_set()),
{
    let ghost all = row_views(left@).to_set().union(row_views(right@).to_set());
    let ghost count = row_views(left@).len() + row_views(right@).len();
    let mut back: Vec<(String, V)> = Vec::new();
    assert(row_views(back@).to_set() =~= Set::empty());
    assert(all =~= row_views(left@).to_set().union(row_views(right@).to_set()).union(
        row_views(back@).to_set(),
    ));
    while left.len() > 0 || right.len() > 0
        invariant
            longest_first(row_views(left@)),
            longest_first(row_views(right@)),
            disjoint_names(row_views(left@), row_views(right@)),
            longest_last(row_views(back@)),
            all_before(row_views(left@), row_views(back@)),
            all_before(row_views(right@), row_views(back@)),
            row_views(left@).len() + row_views(right@).len() + row_views(back@).len() == count,
            row_views(left@).to_set().union(row_views(right@).to_set()).union(
                row_views(back@).to_set(),
            ) == all,
        decreases left@.len() + right@.len(),
    {
        let ghost l = row_views(left@);
        let ghost r = row_views(right@);
        let ghost b = row_views(back@);
        let from_left = if left.len() == 0 {
            false
        } else if right.len() == 0 {
            true
        } else {
            is_longer_first(
                right[right.len() - 1].0.as_str(),
                left[left.len() - 1].0.as_str(),
            )
        };
        if from_left {
            move_last(&mut left, &mut back);
            proof {
                let moved = l.last();
                assert(moved == l[l.len() - 1]);
                assert forall|i: int| 0 <= i < r.len() implies longer_first(
                    #[trigger] r[i].0,
                    moved.0,
                ) by {
                    let end = r.len() - 1;
                    assert(r[end].0 == right@[right@.len() - 1].0@);
                    if i < end {
                        lemma_longer_first_transitive(r[i].0, r[end].0, moved.0);
                    }
                }
                assert(row_views(left@).to_set().union(r.to_set()).union(row_views(back@).to_set())
                    =~= row_views(left@).to_set().union(row_views(back@).to_set()).union(
                    r.to_set(),
                ));
                assert(l.to_set().union(b.to_set()).union(r.to_set()) =~= all);
            }
        } else {
            move_last(&mut right, &mut back);
            proof {
                let moved = r.last();
                assert(moved == r[r.len() - 1]);
                assert forall|i: int| 0 <= i < l.len() implies longer_first(
                    #[trigger] l[i].0,
                    moved.0,
                ) by {
                    let end = l.len() - 1;
                    assert(l[end].0 == left@[left@.len() - 1].0@);
                    lemma_longer_first_total(l[end].0, moved.0);
                    if i < end {
                        lemma_longer_first_transitive(l[i].0, l[end].0, moved.0);
                    }
                }
                assert(l.to_set().union(row_views(right@).to_set()).union(row_views(back@).to_set())
                    =~= row_views(right@).to_set().union(row_views(back@).to_set()).union(
                    l.to_set(),
                ));
                assert(r.to_set().union(b.to_set()).union(l.to_set()) =~= all);
            }
        }
    }
    assert(row_views(left@).to_set() =~= Set::empty());
    assert(row_views(right@).to_set() =~= Set::empty());
    assert(row_views(back@).to_set() =~= all);
    reversed(back)
}

/// Sorts rows with distinct names so that longer names come first.
pub fn sort_longest_first<V>(mut items: Vec<(String, V)>) -> (out: Vec<(String, V)>)
    requires
        distinct_names(row_views(items@)),
    ensures
        longest_first(row_views(out@)),
        row_views(out@).len() == row_views(items@).len(),
        row_views(out@).to_set() == row_views(items@).to_set(),
    decreases items@.len(),
{
    let count: usize = items.len();
    if count <= 1 {
        return items;
    }
    let ghost all = row_views(items@);
    let half: usize = count / 2;
    let tail = items.split_off(half);
    let ghost l = row_views(items@);
    let ghost r = row_views(tail@);
    proof {
        assert(l =~= all.take(half as int));
        assert(r =~= all.skip(half as int));
        assert(all =~= l + r);
        assert forall|x: (Seq<char>, V)|
            all.to_set().contains(x) == l.to_set().union(r.to_set()).contains(x) by {
            if all.contains(x) {
                let i = choose|i: int| 0 <= i < all.len() && all[i] == x;
                if i < half {
                    assert(l[i] == x);
                } else {
                    assert(r[i - half] == x);
                }
            }
            if l.contains(x) {
                let i = choose|i: int| 0 <= i < l.len() && l[i] == x;
                assert(all[i] == x);
            }
            if r.contains(x) {
                let i = choose|i: int| 0 <= i < r.len() && r[i] == x;
                assert(all[i + half] == x);
            }
        }
        assert(all.to_set() =~= l.to_set().union(r.to_set()));
    }
    let left = sort_longest_first(items);
    let right = sort_longest_first(tail);
    proof {
        let sl = row_views(left@);
        let sr = row_views(right@);
        assert forall|i: int, j: int| 0 <= i < sl.len() && 0 <= j < sr.len() implies (
        #[trigger] sl[i]).0 != (#[trigger] sr[j]).0 by {
            assert(sl.to_set().contains(sl[i]));
            assert(sr.to_set().contains(sr[j]));
            let a = choose|a: int| 0 <= a < l.len() && l[a] == sl[i];
            let b = choose|b: int| 0 <= b < r.len() && r[b] == sr[j];
            assert(all[a] == sl[i]);
            assert(all[b + half] == sr[j]);
        }
    }
    merged(left, right)
}

/// Two lists that are sorted alike and hold the same rows are the same.
pub proof fn lemma_longest_first_unique<V>(
    left: Seq<(Seq<char>, V)>,
    right: Seq<(Seq<char>, V)>,
)
    requires
        longest_first(left),
        longest_first(right),
        left.to_set() == right.to_set(),
    ensures
        left == right,
    decreases left.len(),
{
    if left.len() == 0 {
        if right.len() > 0 {
            assert(right.to_set().contains(right[0]));
        }
        assert(left =~= right);
    } else {
        assert(left.to_set().contains(left.last()));
        let j = choose|j: int| 0 <= j < right.len() && right[j] == left.last();
        assert(right.to_set().contains(right.last()));
        let i = choose|i: int| 0 <= i < left.len() && left[i] == right.last();
        if j < right.len() - 1 {
            assert(longer_first(right[j].0, right[right.len() - 1].0));
            if i < left.len() - 1 {
                assert(longer_first(left[i].0, left[left.len() - 1].0));
                lemma_longer_first_transitive(left.last().0, right.last().0, left.last().0);
            }
            lemma_longer_first_irreflexive(left.last().0);
        }
        assert(left.last() == right.last());
        let x = left.last();
        assert forall|y: (Seq<char>, V)|
            left.drop_last().to_set().contains(y) == right.drop_last().to_set().contains(y) by {
            lemma_longer_first_irreflexive(x.0);
            if left.drop_last().contains(y) {
                let a = choose|a: int| 0 <= a < left.len() - 1 && left.drop_last()[a] == y;
                assert(left[a] == y);
                assert(longer_first(left[a].0, left[left.len() - 1].0));
                assert(left.to_set().contains(y));
                let b = choose|b: int| 0 <= b < right.len() && right[b] == y;
                assert(right.drop_last()[b] == y);
            }
            if right.drop_last().contains(y) {
                let b = choose|b: int| 0 <= b < right.len() - 1 && right.drop_last()[b] == y;
                assert(right[b] == y);
                assert(longer_first(right[b].0, right[right.len() - 1].0));
                assert(right.to_set().contains(y));
                let a = choose|a: int| 0 <= a < left.len() && left[a] == y;
                assert(left.drop_last()[a] == y);
            }
        }
        assert(left.drop_last().to_set() =~= right.drop_last().to_set());
        lemma_longest_first_unique(left.drop_last(), right.drop_last());
        assert(left =~= left.drop_last().push(x));
        assert(right =~= right.drop_last().push(x));
    }
}

} // verus!
