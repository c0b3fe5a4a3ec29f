//! Maps with numbers for keys, read in the order of the keys.

use std::collections::BTreeMap;

use vstd::prelude::*;
use vstd::std_specs::cmp::OrdSpec;
use vstd::std_specs::iter::IteratorSpec;

verus! {

broadcast use vstd::std_specs::btree::group_btree_axioms;

/// Whether each number is smaller than all later ones.
pub open spec fn increasing(numbers: Seq<u128>) -> bool {
    forall|i: int, j: int| 0 <= i < j < numbers.len() ==> #[trigger] numbers[i] < #[trigger] numbers[j]
}

/// The numbers of a set in ascending order.
pub open spec fn in_order(numbers: Set<u128>) -> Seq<u128> {
    choose|list: Seq<u128>| increasing(list) && #[trigger] list.to_set() == numbers
}

/// Two ascending lists of the same numbers are the same list.
proof fn lemma_increasing_unique(left: Seq<u128>, right: Seq<u128>)
    requires
        increasing(left),
        increasing(right),
        left.to_set() == right.to_set(),
    ensures
        left == right,
    decreases left.len(),
{
    if left.len() == 0 {
        if right.len() > 0 {
            assert(right.to_set().contains(right[0]));
        }
        assert(left =~= right);
    } else {
        assert(left.to_set().contains(left[0]));
        assert(left.to_set().contains(left.last()));
        let at = choose|i: int| 0 <= i < right.len() && right[i] == left.last();
        assert(right.to_set().contains(right.last()));
        let back = choose|i: int| 0 <= i < left.len() && left[i] == right.last();
        assert(right[at] == left.last());
        assert(left[back] == right.last());
        assert(left.last() == right.last());
        let a = left.drop_last();
        let b = right.drop_last();
        assert forall|x: u128| a.to_set().contains(x) == b.to_set().contains(x) by {
            if a.contains(x) {
                let i = choose|i: int| 0 <= i < a.len() && a[i] == x;
                assert(left[i] == x);
                assert(left.to_set().contains(x));
                let j = choose|j: int| 0 <= j < right.len() && right[j] == x;
                assert(right[j] == x);
                assert(j < right.len() - 1);
                assert(b[j] == x);
            }
            if b.contains(x) {
                let i = choose|i: int| 0 <= i < b.len() && b[i] == x;
                assert(right[i] == x);
                assert(right.to_set().contains(x));
                let j = choose|j: int| 0 <= j < left.len() && left[j] == x;
                assert(left[j] == x);
                assert(j < left.len() - 1);
                assert(a[j] == x);
            }
        }
        assert(a.to_set() =~= b.to_set());
        lemma_increasing_unique(a, b);
        assert(left =~= a.push(left.last()));
        assert(right =~= b.push(right.last()));
    }
}

/// An ascending list is the list of its numbers in order, and has as many
/// elements as there are numbers.
pub proof fn lemma_in_order(list: Seq<u128>)
    requires
        increasing(list),
    ensures
        in_order(list.to_set()) == list,
        list.to_set().len() == list.len(),
        list.to_set().finite(),
{
    let chosen = in_order(list.to_set());
    assert(increasing(list) && list.to_set() == list.to_set());
    lemma_increasing_unique(chosen, list);
    assert(list.no_duplicates());
    list.unique_seq_to_set();
}

proof fn lemma_increasing(numbers: Seq<u128>)
    requires
        vstd::std_specs::btree::increasing_seq(numbers),
    ensures
        increasing(numbers),
{
    assert forall|i: int, j: int| 0 <= i < j < numbers.len() implies #[trigger] numbers[i]
        < #[trigger] numbers[j] by {
        assert(numbers[i].cmp_spec(&numbers[j]) is Less);
    }
}

/// The keys of a map in ascending order.
pub fn ascending_keys<V>(map: &BTreeMap<u128, V>) -> (keys: Vec<u128>)
    ensures
        increasing(keys@),
        keys@.to_set() == map@.dom(),
        keys@ == in_order(map@.dom()),
{
    let mut keys: Vec<u128> = Vec::new();
    let ghost pairs = vstd::std_specs::btree::spec_btree_map_iter(map).remaining();
    let ghost all = pairs.map_values(|pair: (&u128, &V)| *pair.0);
    for pair in it: map.iter()
        invariant
            it.seq() == pairs,
            all == pairs.map_values(|pair: (&u128, &V)| *pair.0),
            keys@ == all.take(it.index()),
    {
        keys.push(*pair.0);
        assert(all.take(it.index() + 1) =~= all.take(it.index()).push(*pair.0));
    }
    proof {
        assert(all.take(all.len() as int) =~= all);
        lemma_increasing(all);
        assert forall|key: u128| keys@.to_set().contains(key) == map@.dom().contains(key) by {
            if keys@.contains(key) {
                let i = choose|i: int| 0 <= i < keys@.len() && keys@[i] == key;
                assert(map@.contains_key(*pairs[i].0));
            }
            if map@.contains_key(key) {
                let i = choose|i: int| 0 <= i < pairs.len() && pairs[i] == (&key, &map@[key]);
                assert(keys@[i] == key);
            }
        }
        assert(keys@.to_set() =~= map@.dom());
        lemma_in_order(keys@);
    }
    keys
}

/// A set of numbers that is not empty has a greatest one.
proof fn lemma_greatest(numbers: Set<u128>) -> (greatest: u128)
    requires
        numbers.finite(),
        numbers.len() > 0,
    ensures
        numbers.contains(greatest),
        forall|n: u128| #[trigger] numbers.contains(n) ==> n <= greatest,
    decreases numbers.len(),
{
    let some = numbers.choose();
    let others = numbers.remove(some);
    if others.len() == 0 {
        assert forall|n: u128| #[trigger] numbers.contains(n) implies n <= some by {
            if n != some {
                assert(others.contains(n));
            }
        }
        some
    } else {
        let rest = lemma_greatest(others);
        let greatest = if rest < some {
            some
        } else {
            rest
        };
        assert forall|n: u128| #[trigger] numbers.contains(n) implies n <= greatest by {
            if n != some {
                assert(others.contains(n));
            }
        }
        greatest
    }
}

/// Every finite set of numbers can be listed in ascending order.
pub proof fn lemma_in_order_lists(numbers: Set<u128>)
    requires
        numbers.finite(),
    ensures
        increasing(in_order(numbers)),
        in_order(numbers).to_set() == numbers,
    decreases numbers.len(),
{
    if numbers.len() == 0 {
        let list = Seq::<u128>::empty();
        assert(list.to_set() =~= numbers);
        assert(increasing(list) && list.to_set() == numbers);
    } else {
        let greatest = lemma_greatest(numbers);
        let others = numbers.remove(greatest);
        lemma_in_order_lists(others);
        let front = in_order(others);
        let list = front.push(greatest);
        assert forall|i: int, j: int| 0 <= i < j < list.len() implies #[trigger] list[i]
            < #[trigger] list[j] by {
            assert(list[i] == front[i]);
            assert(front.to_set().contains(front[i]));
            if j < front.len() {
                assert(list[j] == front[j]);
            }
        }
        assert forall|n: u128| list.to_set().contains(n) == numbers.contains(n) by {
            if numbers.contains(n) && n != greatest {
                assert(front.to_set().contains(n));
                let i = choose|i: int| 0 <= i < front.len() && front[i] == n;
                assert(list[i] == n);
            }
            if n == greatest {
                assert(list[front.len() as int] == n);
            }
            if list.to_set().contains(n) {
                let i = choose|i: int| 0 <= i < list.len() && list[i] == n;
                if i < front.len() {
                    assert(front.to_set().contains(front[i]));
                }
            }
        }
        assert(list.to_set() =~= numbers);
        assert(increasing(list) && list.to_set() == numbers);
    }
}

} // verus!
