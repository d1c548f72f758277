//! A map from text to values, kept in a vector that is sorted by key.
use crate::text::less;
use crate::text::same;
use vstd::prelude::*;

verus! {

/// A map from text to values, walked in the order of its keys.
pub struct Table<V> {
    rows: Vec<(String, V)>,
}

/// Some row has this key.
pub open spec fn has_key<V>(entries: Seq<(Seq<char>, V)>, key: Seq<char>) -> bool {
    exists|i: int| 0 <= i < entries.len() && (#[trigger] entries[i]).0 == key
}

/// Each key comes before the keys of the rows that follow it.
pub open spec fn ascending<V>(entries: Seq<(Seq<char>, V)>) -> bool {
    forall|i: int, j: int|
        #![trigger entries[i], entries[j]]
        0 <= i < j < entries.len() ==> crate::text::before(entries[i].0, entries[j].0)
}

/// The map that a list of rows with different keys stands for.
pub open spec fn as_map<V>(entries: Seq<(Seq<char>, V)>) -> Map<Seq<char>, V> {
    Map::new(
        |key: Seq<char>| has_key(entries, key),
        |key: Seq<char>|
            {
                let i = choose|i: int| 0 <= i < entries.len() && (#[trigger] entries[i]).0 == key;
                entries[i].1
            },
    )
}

impl<V> View for Table<V> {
    type V = Map<Seq<char>, V>;

    open spec fn view(&self) -> Map<Seq<char>, V> {
        as_map(self.entries())
    }
}

proof fn lemma_row<V>(entries: Seq<(Seq<char>, V)>, i: int)
    requires
        ascending(entries),
        0 <= i < entries.len(),
    ensures
        as_map(entries).contains_key(entries[i].0),
        as_map(entries)[entries[i].0] == entries[i].1,
{
    let key = entries[i].0;
    let j = choose|j: int| 0 <= j < entries.len() && (#[trigger] entries[j]).0 == key;
    assert(entries[i].0 == key);
    crate::text::before_is_total(key, key);
    if j < i {
        assert(crate::text::before(entries[j].0, entries[i].0));
    } else if i < j {
        assert(crate::text::before(entries[i].0, entries[j].0));
    }
}

proof fn lemma_map_is<V>(entries: Seq<(Seq<char>, V)>, map: Map<Seq<char>, V>)
    requires
        ascending(entries),
        forall|i: int|
            0 <= i < entries.len() ==> map.contains_key((#[trigger] entries[i]).0)
                && map[entries[i].0] == entries[i].1,
        forall|key: Seq<char>| #[trigger] map.contains_key(key) ==> has_key(entries, key),
    ensures
        as_map(entries) == map,
{
    assert forall|key: Seq<char>| as_map(entries).contains_key(key) implies as_map(entries)[key]
        == map[key] && map.contains_key(key) by {
        let i = choose|i: int| 0 <= i < entries.len() && (#[trigger] entries[i]).0 == key;
        lemma_row(entries, i);
    }
    assert(as_map(entries) =~= map);
}

proof fn lemma_len<V>(entries: Seq<(Seq<char>, V)>)
    requires
        ascending(entries),
    ensures
        as_map(entries).dom().finite(),
        as_map(entries).dom().len() == entries.len(),
{
    let keys = entries.map_values(|row: (Seq<char>, V)| row.0);
    assert(keys.no_duplicates()) by {
        assert forall|i: int, j: int|
            0 <= i < keys.len() && 0 <= j < keys.len() && i != j implies keys[i] != keys[j] by {
            crate::text::before_is_total(entries[i].0, entries[j].0);
            assert(i < j ==> crate::text::before(entries[i].0, entries[j].0));
            assert(j < i ==> crate::text::before(entries[j].0, entries[i].0));
        }
    }
    keys.unique_seq_to_set();
    assert(keys.to_set() =~= as_map(entries).dom()) by {
        assert forall|key: Seq<char>| keys.to_set().contains(key) == as_map(entries).dom().contains(
            key,
        ) by {
            if keys.contains(key) {
                let i = choose|i: int| 0 <= i < keys.len() && keys[i] == key;
                assert(entries[i].0 == key);
            }
            if has_key(entries, key) {
                let i = choose|i: int| 0 <= i < entries.len() && (#[trigger] entries[i]).0 == key;
                assert(keys[i] == key);
            }
        }
    }
}

/// The rows of a map in the order of their keys.
pub open spec fn rows_of<V>(map: Map<Seq<char>, V>) -> Seq<(Seq<char>, V)> {
    choose|rows: Seq<(Seq<char>, V)>| #[trigger] ascending(rows) && as_map(rows) == map
}

proof fn lemma_without_last<V>(entries: Seq<(Seq<char>, V)>)
    requires
        ascending(entries),
        entries.len() > 0,
    ensures
        ascending(entries.drop_last()),
        as_map(entries.drop_last()) == as_map(entries).remove(entries.last().0),
{
    let rest = entries.drop_last();
    let map = as_map(entries).remove(entries.last().0);
    assert forall|i: int| 0 <= i < rest.len() implies map.contains_key((#[trigger] rest[i]).0)
        && map[rest[i].0] == rest[i].1 by {
        lemma_row(entries, i);
        crate::text::before_is_total(entries[i].0, entries[i].0);
        assert(crate::text::before(entries[i].0, entries[entries.len() - 1].0));
    }
    assert forall|key: Seq<char>| #[trigger] map.contains_key(key) implies has_key(rest, key) by {
        let i = choose|i: int| 0 <= i < entries.len() && (#[trigger] entries[i]).0 == key;
        assert(i < rest.len());
        assert(rest[i].0 == key);
    }
    lemma_map_is(rest, map);
}

proof fn lemma_last_key<V>(a: Seq<(Seq<char>, V)>, b: Seq<(Seq<char>, V)>)
    requires
        ascending(a),
        ascending(b),
        as_map(a) == as_map(b),
        a.len() > 0,
        b.len() > 0,
    ensures
        a.last().0 == b.last().0,
{
    lemma_row(a, a.len() - 1);
    lemma_row(b, b.len() - 1);
    assert(has_key(b, a.last().0));
    assert(has_key(a, b.last().0));
    let i = choose|i: int| 0 <= i < a.len() && (#[trigger] a[i]).0 == b.last().0;
    let j = choose|j: int| 0 <= j < b.len() && (#[trigger] b[j]).0 == a.last().0;
    if i < a.len() - 1 && j < b.len() - 1 {
        assert(crate::text::before(a[i].0, a[a.len() - 1].0));
        assert(crate::text::before(b[j].0, b[b.len() - 1].0));
        crate::text::before_is_total(a.last().0, b.last().0);
    }
}

proof fn lemma_same_rows<V>(a: Seq<(Seq<char>, V)>, b: Seq<(Seq<char>, V)>)
    requires
        ascending(a),
        ascending(b),
        as_map(a) == as_map(b),
    ensures
        a == b,
    decreases a.len(),
{
    lemma_len(a);
    lemma_len(b);
    if a.len() > 0 {
        lemma_last_key(a, b);
        lemma_row(a, a.len() - 1);
        lemma_row(b, b.len() - 1);
        lemma_without_last(a);
        lemma_without_last(b);
        lemma_same_rows(a.drop_last(), b.drop_last());
        assert(a =~= a.drop_last().push(a.last()));
        assert(b =~= b.drop_last().push(b.last()));
    } else {
        assert(a =~= b);
    }
}

/// Rows in ascending order of their keys, which hold a map and nothing else, are the rows of the map.
pub proof fn rows_in_order<V>(rows: Seq<(Seq<char>, V)>, map: Map<Seq<char>, V>)
    requires
        ascending(rows),
        forall|i: int|
            0 <= i < rows.len() ==> map.contains_key((#[trigger] rows[i]).0) && map[rows[i].0]
                == rows[i].1,
        forall|key: Seq<char>| #[trigger] map.contains_key(key) ==> has_key(rows, key),
    ensures
        rows == rows_of(map),
{
    lemma_map_is(rows, map);
    lemma_same_rows(rows, rows_of(map));
}

impl<V> Table<V> {
    /// The rows in the order of their keys.
    pub closed spec fn entries(&self) -> Seq<(Seq<char>, V)> {
        self.rows@.map_values(|row: (String, V)| (row.0@, row.1))
    }

    /// The rows are in ascending order of their keys, so no key occurs twice.
    pub open spec fn wf(&self) -> bool {
        ascending(self.entries())
    }

    /// An empty table.
    pub fn new() -> (table: Self)
        ensures
            table.wf(),
            table.entries() == Seq::<(Seq<char>, V)>::empty(),
            table@ == Map::<Seq<char>, V>::empty(),
    {
        let table = Table { rows: Vec::new() };
        assert(table.entries() =~= Seq::empty());
        assert(table@ =~= Map::empty());
        table
    }

    /// The map alone says what the rows are.
    pub proof fn rows_are_unique(&self)
        requires
            self.wf(),
        ensures
            self.entries() == rows_of(self@),
    {
        self.rows_are_the_map();
        rows_in_order(self.entries(), self@);
    }

    /// What the rows say of the map: each row is in it, and it holds nothing else.
    pub proof fn rows_are_the_map(&self)
        requires
            self.wf(),
        ensures
            self@.dom().finite(),
            self@.dom().len() == self.entries().len(),
            forall|i: int|
                0 <= i < self.entries().len() ==> self@.contains_key(
                    (#[trigger] self.entries()[i]).0,
                ) && self@[self.entries()[i].0] == self.entries()[i].1,
            forall|key: Seq<char>| #[trigger]
                self@.contains_key(key) ==> has_key(self.entries(), key),
    {
        lemma_len(self.entries());
        assert forall|i: int| 0 <= i < self.entries().len() implies self@.contains_key(
            (#[trigger] self.entries()[i]).0,
        ) && self@[self.entries()[i].0] == self.entries()[i].1 by {
            lemma_row(self.entries(), i);
        }
    }

    /// The number of rows.
    pub fn len(&self) -> (count: usize)
        requires
            self.wf(),
        ensures
            count == self.entries().len(),
            self@.dom().finite(),
            count == self@.dom().len(),
    {
        proof {
            self.rows_are_the_map();
        }
        self.rows.len()
    }

    /// The key of row `i`.
    pub fn key(&self, i: usize) -> (key: &str)
        requires
            i < self.entries().len(),
        ensures
            key@ == self.entries()[i as int].0,
    {
        self.rows[i].0.as_str()
    }

    /// The value of row `i`.
    pub fn value(&self, i: usize) -> (value: &V)
        requires
            i < self.entries().len(),
        ensures
            *value == self.entries()[i as int].1,
    {
        &self.rows[i].1
    }

    /// Where `key` stands, or where it belongs.
    fn find(&self, key: &str) -> (place: (bool, usize))
        requires
            self.wf(),
        ensures
            place.1 <= self.rows@.len(),
            place.0 ==> place.1 < self.rows@.len() && self.entries()[place.1 as int].0 == key@,
            !place.0 ==> !has_key(self.entries(), key@),
            forall|i: int|
                0 <= i < place.1 ==> crate::text::before(#[trigger] self.entries()[i].0, key@),
            !place.0 ==> forall|i: int|
                place.1 <= i < self.entries().len() ==> crate::text::before(
                    key@,
                    #[trigger] self.entries()[i].0,
                ),
    {
        let ghost entries = self.entries();
        let mut low: usize = 0;
        let mut high: usize = self.rows.len();
        while low < high
            invariant
                self.wf(),
                entries == self.entries(),
                low <= high <= self.rows@.len(),
                entries.len() == self.rows@.len(),
                forall|i: int| 0 <= i < low ==> crate::text::before(#[trigger] entries[i].0, key@),
                forall|i: int|
                    high <= i < entries.len() ==> crate::text::before(
                        key@,
                        #[trigger] entries[i].0,
                    ),
            decreases high - low,
        {
            let middle: usize = low + (high - low) / 2;
            let here = self.rows[middle].0.as_str();
            assert(entries[middle as int].0 == here@);
            if same(here, key) {
                assert forall|i: int| 0 <= i < middle implies crate::text::before(
                    #[trigger] entries[i].0,
                    key@,
                ) by {
                    assert(crate::text::before(entries[i].0, entries[middle as int].0));
                }
                return (true, middle);
            }
            if less(here, key) {
                assert forall|i: int| 0 <= i < middle + 1 implies crate::text::before(
                    #[trigger] entries[i].0,
                    key@,
                ) by {
                    if i < middle {
                        assert(crate::text::before(entries[i].0, entries[middle as int].0));
                        crate::text::before_is_transitive(
                            entries[i].0,
                            entries[middle as int].0,
                            key@,
                        );
                    }
                }
                low = middle + 1;
            } else {
                proof {
                    crate::text::before_is_total(here@, key@);
                }
                assert forall|i: int| middle <= i < entries.len() implies crate::text::before(
                    key@,
                    #[trigger] entries[i].0,
                ) by {
                    if middle < i {
                        assert(crate::text::before(entries[middle as int].0, entries[i].0));
                        crate::text::before_is_transitive(
                            key@,
                            entries[middle as int].0,
                            entries[i].0,
                        );
                    }
                }
                high = middle;
            }
        }
        proof {
            if has_key(entries, key@) {
                let i = choose|i: int| 0 <= i < entries.len() && (#[trigger] entries[i]).0 == key@;
                crate::text::before_is_total(entries[i].0, key@);
            }
        }
        (false, low)
    }

    /// The value under `key`.
    pub fn get(&self, key: &str) -> (value: Option<&V>)
        requires
            self.wf(),
        ensures
            value is Some <==> self@.contains_key(key@),
            value matches Some(found) ==> *found == self@[key@],
    {
        let place = self.find(key);
        if place.0 {
            proof {
                lemma_row(self.entries(), place.1 as int);
            }
            Some(&self.rows[place.1].1)
        } else {
            None
        }
    }

    /// Whether there is a value under `key`.
    pub fn contains_key(&self, key: &str) -> (yes: bool)
        requires
            self.wf(),
        ensures
            yes == self@.contains_key(key@),
    {
        self.get(key).is_some()
    }

    /// Puts `value` under `key`, in place of what stood there.
    pub fn insert(&mut self, key: String, value: V)
        requires
            old(self).wf(),
        ensures
            final(self).wf(),
            final(self)@ == old(self)@.insert(key@, value),
    {
        let ghost entries = self.entries();
        let ghost target = self@.insert(key@, value);
        let place = self.find(key.as_str());
        let i: usize = place.1;
        if place.0 {
            let ghost here = key@;
            self.rows.set(i, (key, value));
            assert(self.entries() =~= entries.update(i as int, (here, value)));
            assert forall|k: int| 0 <= k < self.entries().len() implies target.contains_key(
                (#[trigger] self.entries()[k]).0,
            ) && target[self.entries()[k].0] == self.entries()[k].1 by {
                lemma_row(entries, k);
                if k != i {
                    crate::text::before_is_total(entries[k].0, entries[i as int].0);
                    assert(k < i ==> crate::text::before(entries[k].0, entries[i as int].0));
                    assert(i < k ==> crate::text::before(entries[i as int].0, entries[k].0));
                }
            }
            assert forall|k: Seq<char>| #[trigger] target.contains_key(k) implies has_key(
                self.entries(),
                k,
            ) by {
                if k == here {
                    assert(self.entries()[i as int].0 == k);
                } else {
                    let j = choose|j: int|
                        0 <= j < entries.len() && (#[trigger] entries[j]).0 == k;
                    assert(self.entries()[j].0 == k);
                }
            }
        } else {
            let ghost here = key@;
            self.rows.insert(i, (key, value));
            assert(self.entries() =~= entries.insert(i as int, (here, value)));
            assert forall|a: int, b: int|
                #![trigger self.entries()[a], self.entries()[b]]
                0 <= a < b < self.entries().len() implies crate::text::before(
                self.entries()[a].0,
                self.entries()[b].0,
            ) by {
                let from = if a < i {
                    a
                } else {
                    a - 1
                };
                let to = if b < i {
                    b
                } else {
                    b - 1
                };
                if a != i && b != i {
                    assert(crate::text::before(entries[from].0, entries[to].0));
                } else if a == i {
                    assert(crate::text::before(here, entries[to].0));
                } else {
                    assert(crate::text::before(entries[from].0, here));
                }
            }
            assert forall|k: int| 0 <= k < self.entries().len() implies target.contains_key(
                (#[trigger] self.entries()[k]).0,
            ) && target[self.entries()[k].0] == self.entries()[k].1 by {
                if k != i {
                    let j = if k < i {
                        k
                    } else {
                        k - 1
                    };
                    lemma_row(entries, j);
                    assert(entries[j].0 != here);
                }
            }
            assert forall|k: Seq<char>| #[trigger] target.contains_key(k) implies has_key(
                self.entries(),
                k,
            ) by {
                if k == here {
                    assert(self.entries()[i as int].0 == k);
                } else {
                    let j = choose|j: int|
                        0 <= j < entries.len() && (#[trigger] entries[j]).0 == k;
                    let l = if j < i {
                        j
                    } else {
                        j + 1
                    };
                    assert(self.entries()[l].0 == k);
                }
            }
        }
        proof {
            lemma_map_is(self.entries(), target);
        }
    }

    /// Takes row `i` out.
    pub fn remove_row(&mut self, i: usize)
        requires
            old(self).wf(),
            i < old(self).entries().len(),
        ensures
            final(self).wf(),
            final(self).entries() == old(self).entries().remove(i as int),
            final(self)@ == old(self)@.remove(old(self).entries()[i as int].0),
    {
        let ghost entries = self.entries();
        let ghost target = self@.remove(entries[i as int].0);
        self.rows.remove(i);
        assert(self.entries() =~= entries.remove(i as int));
        assert forall|a: int, b: int|
            #![trigger self.entries()[a], self.entries()[b]]
            0 <= a < b < self.entries().len() implies crate::text::before(
            self.entries()[a].0,
            self.entries()[b].0,
        ) by {
            let from = if a < i {
                a
            } else {
                a + 1
            };
            let to = if b < i {
                b
            } else {
                b + 1
            };
            assert(crate::text::before(entries[from].0, entries[to].0));
        }
        assert forall|k: int| 0 <= k < self.entries().len() implies target.contains_key(
            (#[trigger] self.entries()[k]).0,
        ) && target[self.entries()[k].0] == self.entries()[k].1 by {
            let j = if k < i {
                k
            } else {
                k + 1
            };
            lemma_row(entries, j);
            crate::text::before_is_total(entries[j].0, entries[i as int].0);
            assert(j < i ==> crate::text::before(entries[j].0, entries[i as int].0));
            assert(i < j ==> crate::text::before(entries[i as int].0, entries[j].0));
        }
        assert forall|k: Seq<char>| #[trigger] target.contains_key(k) implies has_key(
            self.entries(),
            k,
        ) by {
            let j = choose|j: int| 0 <= j < entries.len() && (#[trigger] entries[j]).0 == k;
            let l = if j < i {
                j
            } else {
                j - 1
            };
            assert(self.entries()[l].0 == k);
        }
        proof {
            lemma_map_is(self.entries(), target);
        }
    }
}

} // verus!
