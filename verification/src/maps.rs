//! A map from texts to values that keeps its rows in the order of their keys.

use vstd::prelude::*;

use crate::order::{
    lemma_text_less_irreflexive, lemma_text_less_total, lemma_text_less_transitive, less,
    text_less,
};
use crate::sorting::row_views;
use crate::text::{chars_of, same, string_views};

verus! {

/// Whether each key comes before all later ones.
pub open spec fn ascending<V>(rows: Seq<(Seq<char>, V)>) -> bool {
    forall|i: int, j: int|
        0 <= i < j < rows.len() ==> text_less(#[trigger] rows[i].0, #[trigger] rows[j].0)
}

/// Whether `key` stands in row `at`.
pub open spec fn row_holds<V>(rows: Seq<(Seq<char>, V)>, key: Seq<char>, at: int) -> bool {
    0 <= at < rows.len() && rows[at].0 == key
}

/// Whether some row has the key.
pub open spec fn has_key<V>(rows: Seq<(Seq<char>, V)>, key: Seq<char>) -> bool {
    exists|at: int| row_holds(rows, key, at)
}

/// The rows as a map.
pub open spec fn row_map<V>(rows: Seq<(Seq<char>, V)>) -> Map<Seq<char>, V> {
    Map::new(|key: Seq<char>| has_key(rows, key), |key: Seq<char>|
        rows[choose|at: int| row_holds(rows, key, at)].1)
}

/// A map made from ascending rows has as many keys as there are rows.
pub proof fn lemma_row_count<V>(rows: Seq<(Seq<char>, V)>)
    requires
        ascending(rows),
    ensures
        row_map(rows).dom().finite(),
        row_map(rows).dom().len() == rows.len(),
{
    let keys = Seq::new(rows.len(), |i: int| rows[i].0);
    assert forall|i: int, j: int| 0 <= i < j < keys.len() implies keys[i] != keys[j] by {
        assert(text_less(rows[i].0, rows[j].0));
        lemma_text_less_irreflexive(rows[i].0);
    }
    assert(keys.no_duplicates());
    keys.unique_seq_to_set();
    assert forall|key: Seq<char>| keys.to_set().contains(key) == row_map(rows).dom().contains(
        key,
    ) by {
        if keys.contains(key) {
            let i = choose|i: int| 0 <= i < keys.len() && keys[i] == key;
            assert(row_holds(rows, key, i));
        }
        if has_key(rows, key) {
            let i = choose|i: int| row_holds(rows, key, i);
            assert(keys[i] == key);
        }
    }
    assert(keys.to_set() =~= row_map(rows).dom());
}

/// Two lists of ascending rows that make the same map are the same list.
pub proof fn lemma_rows_unique<V>(left: Seq<(Seq<char>, V)>, right: Seq<(Seq<char>, V)>)
    requires
        ascending(left),
        ascending(right),
        row_map(left) == row_map(right),
    ensures
        left == right,
    decreases left.len(),
{
    lemma_row_count(left);
    lemma_row_count(right);
    if left.len() == 0 {
        assert(left =~= right);
    } else {
        let x = left.last();
        let y = right.last();
        lemma_row_map(left, left.len() - 1);
        lemma_row_map(right, right.len() - 1);
        let i = choose|i: int| row_holds(right, x.0, i);
        assert(has_key(right, x.0));
        assert(row_holds(right, x.0, i));
        let j = choose|j: int| row_holds(left, y.0, j);
        assert(has_key(left, y.0));
        assert(row_holds(left, y.0, j));
        if x.0 != y.0 {
            assert(text_less(right[i].0, right[right.len() - 1].0));
            assert(text_less(left[j].0, left[left.len() - 1].0));
            lemma_text_less_transitive(x.0, y.0, x.0);
            lemma_text_less_irreflexive(x.0);
        }
        let a = left.drop_last();
        let b = right.drop_last();
        lemma_drop_last_map(left);
        lemma_drop_last_map(right);
        lemma_rows_unique(a, b);
        assert(left =~= a.push(x));
        assert(right =~= b.push(y));
    }
}

/// Whether the list holds the keys, each before all that come after it.
pub open spec fn is_text_order(list: Seq<Seq<char>>, keys: Set<Seq<char>>) -> bool {
    &&& list.to_set() == keys
    &&& forall|i: int, j: int|
        0 <= i < j < list.len() ==> text_less(#[trigger] list[i], #[trigger] list[j])
}

/// The keys in their order.
pub open spec fn in_text_order(keys: Set<Seq<char>>) -> Seq<Seq<char>> {
    choose|list: Seq<Seq<char>>| is_text_order(list, keys)
}

/// There is one list of the keys in their order.
pub proof fn lemma_in_text_order(list: Seq<Seq<char>>, keys: Set<Seq<char>>)
    requires
        is_text_order(list, keys),
    ensures
        in_text_order(keys) == list,
{
    let other = in_text_order(keys);
    let a = list.map_values(|key: Seq<char>| (key, ()));
    let b = other.map_values(|key: Seq<char>| (key, ()));
    lemma_list_map(list, keys);
    lemma_list_map(other, keys);
    lemma_rows_unique(a, b);
    assert forall|i: int| 0 <= i < list.len() implies list[i] == other[i] by {
        assert(a[i] == b[i]);
    }
    assert(a.len() == b.len());
    assert(list =~= other);
}

proof fn lemma_list_map(list: Seq<Seq<char>>, keys: Set<Seq<char>>)
    requires
        is_text_order(list, keys),
    ensures
        ascending(list.map_values(|key: Seq<char>| (key, ()))),
        row_map(list.map_values(|key: Seq<char>| (key, ()))) == Map::new(
            |key: Seq<char>| keys.contains(key),
            |key: Seq<char>| (),
        ),
{
    let rows = list.map_values(|key: Seq<char>| (key, ()));
    assert forall|i: int, j: int| 0 <= i < j < rows.len() implies text_less(
        #[trigger] rows[i].0,
        #[trigger] rows[j].0,
    ) by {
        assert(text_less(list[i], list[j]));
    }
    assert forall|key: Seq<char>| #[trigger] row_map(rows).dom().contains(key) == keys.contains(
        key,
    ) by {
        if has_key(rows, key) {
            let i = choose|i: int| row_holds(rows, key, i);
            assert(list[i] == key);
            assert(list.to_set().contains(key));
        }
        if keys.contains(key) {
            assert(list.to_set().contains(key));
            let i = choose|i: int| 0 <= i < list.len() && list[i] == key;
            assert(row_holds(rows, key, i));
        }
    }
    assert(row_map(rows) =~= Map::new(|key: Seq<char>| keys.contains(key), |key: Seq<char>| ()));
}

/// Without its last row the map lacks that row's key.
proof fn lemma_drop_last_map<V>(rows: Seq<(Seq<char>, V)>)
    requires
        ascending(rows),
        rows.len() > 0,
    ensures
        ascending(rows.drop_last()),
        row_map(rows.drop_last()) == row_map(rows).remove(rows.last().0),
{
    let shorter = rows.drop_last();
    let last = rows.last().0;
    assert forall|i: int, j: int| 0 <= i < j < shorter.len() implies text_less(
        #[trigger] shorter[i].0,
        #[trigger] shorter[j].0,
    ) by {
        assert(text_less(rows[i].0, rows[j].0));
    }
    assert forall|key: Seq<char>| #[trigger]
        row_map(shorter).dom().contains(key) == row_map(rows).remove(last).dom().contains(key) by {
        if has_key(shorter, key) {
            let i = choose|i: int| row_holds(shorter, key, i);
            assert(row_holds(rows, key, i));
            assert(text_less(rows[i].0, rows[rows.len() - 1].0));
            lemma_text_less_irreflexive(last);
        }
        if has_key(rows, key) && key != last {
            let i = choose|i: int| row_holds(rows, key, i);
            assert(row_holds(shorter, key, i));
        }
    }
    assert forall|key: Seq<char>| row_map(shorter).dom().contains(key) implies #[trigger] row_map(
        shorter,
    )[key] == row_map(rows).remove(last)[key] by {
        let i = choose|i: int| row_holds(shorter, key, i);
        assert(row_holds(shorter, key, i));
        lemma_row_map(shorter, i);
        lemma_row_map(rows, i);
    }
    assert(row_map(shorter) =~= row_map(rows).remove(last));
}

/// In ascending rows a key stands once.
pub proof fn lemma_row_map<V>(rows: Seq<(Seq<char>, V)>, at: int)
    requires
        ascending(rows),
        0 <= at < rows.len(),
    ensures
        row_map(rows).dom().contains(rows[at].0),
        row_map(rows)[rows[at].0] == rows[at].1,
{
    let key = rows[at].0;
    assert(row_holds(rows, key, at));
    let other = choose|i: int| row_holds(rows, key, i);
    lemma_text_less_irreflexive(key);
    assert(row_holds(rows, key, other));
    if other < at {
        assert(text_less(rows[other].0, rows[at].0));
    } else if at < other {
        assert(text_less(rows[at].0, rows[other].0));
    }
}

/// A map from texts to values.
pub struct TextMap<V> {
    pub(crate) entries: Vec<(String, V)>,
}

impl<V> TextMap<V> {
    /// The keys and values in the order of the keys.
    pub closed spec fn rows(self) -> Seq<(Seq<char>, V)> {
        Seq::new(self.entries@.len(), |i: int| (self.entries@[i].0@, self.entries@[i].1))
    }

    #[verifier::type_invariant]
    spec fn ordered(self) -> bool {
        ascending(self.rows())
    }

    /// The empty map.
    pub fn new() -> (map: TextMap<V>)
        ensures
            map.rows() == Seq::<(Seq<char>, V)>::empty(),
            map@ == Map::<Seq<char>, V>::empty(),
    {
        let map = TextMap { entries: Vec::new() };
        assert(map.rows() =~= Seq::<(Seq<char>, V)>::empty());
        assert(map@ =~= Map::<Seq<char>, V>::empty());
        map
    }

    /// The number of rows.
    pub fn len(&self) -> (count: usize)
        ensures
            count == self.rows().len(),
            ascending(self.rows()),
            self@.dom().finite(),
            count == self@.dom().len(),
    {
        proof {
            use_type_invariant(self);
            lemma_row_count(self.rows());
        }
        self.entries.len()
    }

    /// The key of a row.
    pub fn key_at(&self, at: usize) -> (key: &String)
        requires
            at < self.rows().len(),
        ensures
            key@ == self.rows()[at as int].0,
    {
        &self.entries[at].0
    }

    /// The value of a row.
    pub fn value_at(&self, at: usize) -> (value: &V)
        requires
            at < self.rows().len(),
        ensures
            *value == self.rows()[at as int].1,
    {
        &self.entries[at].1
    }

    /// The row that holds the key, or the row in front of which it belongs.
    fn search(&self, key: &[char]) -> (res: (bool, usize))
        ensures
            res.1 <= self.rows().len(),
            res.0 == has_key(self.rows(), key@),
            res.0 ==> res.1 < self.rows().len() && self.rows()[res.1 as int].0 == key@,
            forall|i: int| 0 <= i < res.1 ==> text_less(#[trigger] self.rows()[i].0, key@),
            !res.0 ==> forall|i: int|
                res.1 <= i < self.rows().len() ==> text_less(key@, #[trigger] self.rows()[i].0),
    {
        proof {
            use_type_invariant(self);
        }
        let ghost rows = self.rows();
        let mut low: usize = 0;
        let mut high: usize = self.entries.len();
        while low < high
            invariant
                low <= high <= rows.len(),
                rows == self.rows(),
                rows.len() == self.entries@.len(),
                ascending(rows),
                forall|i: int| 0 <= i < low ==> text_less(#[trigger] rows[i].0, key@),
                forall|i: int|
                    high <= i < rows.len() ==> !text_less(#[trigger] rows[i].0, key@),
            decreases high - low,
        {
            let middle: usize = low + (high - low) / 2;
            let held = chars_of(self.entries[middle].0.as_str());
            assert(held@ == rows[middle as int].0);
            if less(held.as_slice(), key) {
                assert forall|i: int| 0 <= i < middle + 1 implies text_less(
                    #[trigger] rows[i].0,
                    key@,
                ) by {
                    if i < middle {
                        lemma_text_less_transitive(rows[i].0, rows[middle as int].0, key@);
                    }
                }
                low = middle + 1;
            } else {
                assert forall|i: int| middle <= i < rows.len() implies !text_less(
                    #[trigger] rows[i].0,
                    key@,
                ) by {
                    if i > middle && text_less(rows[i].0, key@) {
                        lemma_text_less_transitive(rows[middle as int].0, rows[i].0, key@);
                    }
                }
                high = middle;
            }
        }
        let found = low < self.entries.len() && {
            let held = chars_of(self.entries[low].0.as_str());
            same(held.as_slice(), key)
        };
        proof {
            if found {
                assert(row_holds(rows, key@, low as int));
            } else {
                assert forall|i: int| low <= i < rows.len() implies text_less(
                    key@,
                    #[trigger] rows[i].0,
                ) by {
                    lemma_text_less_total(key@, rows[i].0);
                    if i > low && rows[i].0 == key@ {
                        assert(text_less(rows[low as int].0, rows[i].0));
                    }
                }
                assert forall|i: int| !row_holds(rows, key@, i) by {
                    lemma_text_less_irreflexive(key@);
                }
            }
        }
        (found, low)
    }

    /// The value for a key.
    pub fn get(&self, key: &str) -> (res: Option<&V>)
        ensures
            match res {
                Some(value) => self@.dom().contains(key@) && *value == self@[key@],
                None => !self@.dom().contains(key@),
            },
    {
        let chars = chars_of(key);
        let (found, at) = self.search(chars.as_slice());
        if found {
            proof {
                use_type_invariant(self);
                lemma_row_map(self.rows(), at as int);
            }
            Some(&self.entries[at].1)
        } else {
            None
        }
    }

    /// Sets the value for a key.
    pub fn insert(&mut self, key: String, value: V)
        ensures
            final(self)@ == old(self)@.insert(key@, value),
    {
        let chars = chars_of(key.as_str());
        let (found, at) = self.search(chars.as_slice());
        let ghost before = self.rows();
        let ghost before_map = self@;
        proof {
            use_type_invariant(&*self);
        }
        let mut entries: Vec<(String, V)> = Vec::new();
        std::mem::swap(&mut entries, &mut self.entries);
        let ghost name = key@;
        let ghost rows: Seq<(Seq<char>, V)>;
        if found {
            proof {
                rows = before.update(at as int, (name, value));
            }
            entries[at] = (key, value);
        } else {
            proof {
                rows = before.insert(at as int, (name, value));
            }
            entries.insert(at, (key, value));
        }
        proof {
            assert(Seq::new(entries@.len(), |i: int| (entries@[i].0@, entries@[i].1)) =~= rows);
            assert forall|i: int, j: int| 0 <= i < j < rows.len() implies text_less(
                #[trigger] rows[i].0,
                #[trigger] rows[j].0,
            ) by {
                if found {
                    assert(before[i].0 == rows[i].0);
                    assert(before[j].0 == rows[j].0);
                } else {
                    if i < at && j > at {
                        assert(text_less(before[i].0, before[j - 1].0));
                    } else if i > at {
                        assert(text_less(before[i - 1].0, before[j - 1].0));
                    } else if j < at {
                        assert(text_less(before[i].0, before[j].0));
                    }
                }
            }
        }
        self.entries = entries;
        proof {
            assert(self.rows() =~= rows);
            lemma_row_map(rows, at as int);
            assert forall|k: Seq<char>| #[trigger]
                self@.dom().contains(k) == before_map.insert(name, value).dom().contains(k) by {
                if has_key(rows, k) {
                    let i = choose|i: int| row_holds(rows, k, i);
                    if found || i < at {
                        assert(i == at || row_holds(before, k, i));
                    } else if i > at {
                        assert(row_holds(before, k, i - 1));
                    }
                }
                if has_key(before, k) {
                    let i = choose|i: int| row_holds(before, k, i);
                    if found || i < at {
                        assert(row_holds(rows, k, i));
                    } else {
                        assert(row_holds(rows, k, i + 1));
                    }
                }
                assert(row_holds(rows, name, at as int));
            }
            assert forall|k: Seq<char>| self@.dom().contains(k) implies #[trigger] self@[k]
                == before_map.insert(name, value)[k] by {
                if k != name {
                    let i = choose|i: int| row_holds(rows, k, i);
                    assert(row_holds(rows, k, i));
                    lemma_row_map(rows, i);
                    if found || i < at {
                        assert(before[i] == rows[i]);
                        lemma_row_map(before, i);
                    } else {
                        assert(before[i - 1] == rows[i]);
                        lemma_row_map(before, i - 1);
                    }
                }
            }
            assert(self@ =~= before_map.insert(name, value));
        }
    }

    /// Takes the value for a key out of the map.
    pub fn remove(&mut self, key: &str) -> (res: Option<V>)
        ensures
            final(self)@ == old(self)@.remove(key@),
            match res {
                Some(value) => old(self)@.dom().contains(key@) && value == old(self)@[key@],
                None => !old(self)@.dom().contains(key@),
            },
    {
        let chars = chars_of(key);
        let (found, at) = self.search(chars.as_slice());
        let ghost before = self.rows();
        let ghost before_map = self@;
        if !found {
            assert(self@ =~= before_map.remove(key@));
            return None;
        }
        proof {
            use_type_invariant(&*self);
            lemma_row_map(before, at as int);
        }
        let mut entries: Vec<(String, V)> = Vec::new();
        std::mem::swap(&mut entries, &mut self.entries);
        let (_, value) = entries.remove(at);
        let ghost rows = before.remove(at as int);
        proof {
            assert(Seq::new(entries@.len(), |i: int| (entries@[i].0@, entries@[i].1)) =~= rows);
            assert forall|i: int, j: int| 0 <= i < j < rows.len() implies text_less(
                #[trigger] rows[i].0,
                #[trigger] rows[j].0,
            ) by {
                let a = if i < at { i } else { i + 1 };
                let b = if j < at { j } else { j + 1 };
                assert(text_less(before[a].0, before[b].0));
            }
        }
        self.entries = entries;
        proof {
            assert(self.rows() =~= rows);
            assert forall|k: Seq<char>| #[trigger]
                self@.dom().contains(k) == before_map.remove(key@).dom().contains(k) by {
                if has_key(rows, k) {
                    let i = choose|i: int| row_holds(rows, k, i);
                    let a = if i < at { i } else { i + 1 };
                    assert(row_holds(before, k, a));
                    lemma_text_less_irreflexive(k);
                    assert(a < at ==> text_less(before[a].0, before[at as int].0));
                    assert(a > at ==> text_less(before[at as int].0, before[a].0));
                }
                if has_key(before, k) && k != key@ {
                    let i = choose|i: int| row_holds(before, k, i);
                    let a = if i < at { i } else { i - 1 };
                    assert(row_holds(rows, k, a));
                }
            }
            assert forall|k: Seq<char>| self@.dom().contains(k) implies #[trigger] self@[k]
                == before_map.remove(key@)[k] by {
                let i = choose|i: int| row_holds(rows, k, i);
                assert(row_holds(rows, k, i));
                lemma_row_map(rows, i);
                let a = if i < at { i } else { i + 1 };
                assert(before[a] == rows[i]);
                lemma_row_map(before, a);
            }
            assert(self@ =~= before_map.remove(key@));
        }
        Some(value)
    }

    /// The keys, in their order.
    pub fn keys(&self) -> (out: Vec<String>)
        ensures
            string_views(out@) == in_text_order(self@.dom()),
            string_views(out@).to_set() == self@.dom(),
    {
        proof {
            use_type_invariant(self);
        }
        let ghost rows = self.rows();
        let ghost all = Seq::new(rows.len(), |i: int| rows[i].0);
        let mut out: Vec<String> = Vec::new();
        let mut i: usize = 0;
        while i < self.entries.len()
            invariant
                i <= self.entries@.len(),
                rows == self.rows(),
                all == Seq::new(rows.len(), |i: int| rows[i].0),
                string_views(out@) == all.take(i as int),
            decreases self.entries@.len() - i,
        {
            let ghost before = string_views(out@);
            let key = self.entries[i].0.clone();
            out.push(key);
            assert(string_views(out@) =~= before.push(key@));
            assert(all.take(i + 1) =~= before.push(key@));
            i += 1;
        }
        proof {
            assert(all.take(all.len() as int) =~= all);
            assert forall|key: Seq<char>| all.to_set().contains(key) == self@.dom().contains(
                key,
            ) by {
                if all.contains(key) {
                    let i = choose|i: int| 0 <= i < all.len() && all[i] == key;
                    assert(row_holds(rows, key, i));
                }
                if has_key(rows, key) {
                    let i = choose|i: int| row_holds(rows, key, i);
                    assert(all[i] == key);
                }
            }
            assert(all.to_set() =~= self@.dom());
            assert(is_text_order(all, self@.dom())) by {
                assert forall|i: int, j: int| 0 <= i < j < all.len() implies text_less(
                    #[trigger] all[i],
                    #[trigger] all[j],
                ) by {
                    assert(text_less(rows[i].0, rows[j].0));
                }
            }
            lemma_in_text_order(all, self@.dom());
        }
        out
    }

    /// The rows, in the order of their keys.
    pub fn into_rows(self) -> (out: Vec<(String, V)>)
        ensures
            row_views(out@) == self.rows(),
            ascending(self.rows()),
    {
        proof {
            use_type_invariant(&self);
            assert(row_views(self.entries@) =~= self.rows());
        }
        self.entries
    }
}

impl<V> View for TextMap<V> {
    type V = Map<Seq<char>, V>;

    open spec fn view(&self) -> Map<Seq<char>, V> {
        row_map(self.rows())
    }
}

} // verus!
