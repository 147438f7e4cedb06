//! A table of rows with distinct keys, whose meaning is a map.

use vstd::prelude::*;

verus! {

/// A key that executable code can compare.
pub trait Key: Copy {
    /// Whether two keys are the same key.
    fn same(&self, other: &Self) -> (b: bool)
        ensures
            b == (*self == *other),
    ;
}

impl Key for u32 {
    fn same(&self, other: &Self) -> (b: bool) {
        *self == *other
    }
}

/// No key occurs in two rows.
pub open spec fn distinct_keys<K, V>(rows: Seq<(K, V)>) -> bool {
    forall|i: int, j: int| 0 <= i < j < rows.len() ==> rows[i].0 != rows[j].0
}

/// The map that results from writing the rows in order. Of two rows with the
/// same key the later one counts.
pub open spec fn rows_map<K, V>(rows: Seq<(K, V)>) -> Map<K, V>
    decreases rows.len(),
{
    if rows.len() == 0 {
        Map::empty()
    } else {
        rows_map(rows.drop_last()).insert(rows.last().0, rows.last().1)
    }
}

/// The rows are the entries of the map, each of them once, in some order.
pub open spec fn lists<K, V>(rows: Seq<(K, V)>, m: Map<K, V>) -> bool {
    distinct_keys(rows) && rows_map(rows) == m
}

/// What the map of a sequence of rows holds.
pub proof fn lemma_rows_map<K, V>(rows: Seq<(K, V)>)
    ensures
        rows_map(rows).dom().finite(),
        forall|k: K| #[trigger]
            rows_map(rows).contains_key(k) <==> exists|i: int|
                0 <= i < rows.len() && (#[trigger] rows[i]).0 == k,
        distinct_keys(rows) ==> rows_map(rows).len() == rows.len(),
        distinct_keys(rows) ==> forall|i: int|
            0 <= i < rows.len() ==> rows_map(rows)[(#[trigger] rows[i]).0] == rows[i].1,
    decreases rows.len(),
{
    if rows.len() > 0 {
        let front = rows.drop_last();
        lemma_rows_map(front);
        assert forall|k: K| #[trigger] rows_map(rows).contains_key(k) implies exists|i: int|
            0 <= i < rows.len() && (#[trigger] rows[i]).0 == k by {
            if rows_map(front).contains_key(k) {
                let i = choose|i: int| 0 <= i < front.len() && (#[trigger] front[i]).0 == k;
                assert(rows[i].0 == k);
            } else {
                assert(rows[rows.len() - 1].0 == k);
            }
        }
        assert forall|k: K|
            (exists|i: int| 0 <= i < rows.len() && (#[trigger] rows[i]).0 == k) implies
            #[trigger] rows_map(rows).contains_key(k) by {
            let i = choose|i: int| 0 <= i < rows.len() && (#[trigger] rows[i]).0 == k;
            if i < front.len() {
                assert(front[i].0 == k);
            }
        }
        if distinct_keys(rows) {
            assert(!rows_map(front).contains_key(rows.last().0));
            assert forall|i: int| 0 <= i < rows.len() implies rows_map(rows)[(
            #[trigger] rows[i]).0] == rows[i].1 by {
                if i < front.len() {
                    assert(front[i] == rows[i]);
                }
            }
        }
    }
}

/// Two sequences of rows with the same entries list the same map.
pub proof fn lemma_same_rows<K, V>(a: Seq<(K, V)>, b: Seq<(K, V)>)
    requires
        distinct_keys(a),
        a.to_multiset() == b.to_multiset(),
    ensures
        distinct_keys(b),
        rows_map(b) == rows_map(a),
{
    broadcast use vstd::seq_lib::group_to_multiset_ensures;

    assert(a.no_duplicates());
    a.lemma_multiset_has_no_duplicates();
    b.lemma_multiset_has_no_duplicates_conv();
    assert forall|i: int, j: int| 0 <= i < j < b.len() implies b[i].0 != b[j].0 by {
        assert(b.contains(b[i]) && b.contains(b[j]));
        assert(a.to_multiset().count(b[i]) > 0 && a.to_multiset().count(b[j]) > 0);
        let p = choose|p: int| 0 <= p < a.len() && a[p] == b[i];
        let q = choose|q: int| 0 <= q < a.len() && a[q] == b[j];
        assert(b[i] != b[j]);
        assert(p != q);
    }
    lemma_rows_map(a);
    lemma_rows_map(b);
    assert forall|k: K| #[trigger] rows_map(a).contains_key(k) implies rows_map(b).contains_key(k)
        && rows_map(b)[k] == rows_map(a)[k] by {
        let i = choose|i: int| 0 <= i < a.len() && (#[trigger] a[i]).0 == k;
        assert(a.contains(a[i]));
        assert(b.to_multiset().count(a[i]) > 0);
        let j = choose|j: int| 0 <= j < b.len() && b[j] == a[i];
        assert(b[j].0 == k);
    }
    assert forall|k: K| #[trigger] rows_map(b).contains_key(k) implies rows_map(
        a,
    ).contains_key(k) by {
        let i = choose|i: int| 0 <= i < b.len() && (#[trigger] b[i]).0 == k;
        assert(b.contains(b[i]));
        assert(a.to_multiset().count(b[i]) > 0);
        let j = choose|j: int| 0 <= j < a.len() && a[j] == b[i];
        assert(a[j].0 == k);
    }
    assert(rows_map(a) =~= rows_map(b));
}

/// Rows with distinct keys. Its view is the map that the rows write.
pub struct Table<K, V> {
    rows: Vec<(K, V)>,
}

impl<K, V> View for Table<K, V> {
    type V = Map<K, V>;

    closed spec fn view(&self) -> Map<K, V> {
        rows_map(self.rows@)
    }
}

impl<K, V> Table<K, V> {
    /// The rows in the order in which the table keeps them.
    pub closed spec fn entries(&self) -> Seq<(K, V)> {
        self.rows@
    }

    /// The rows have distinct keys.
    pub open spec fn wf(&self) -> bool {
        lists(self.entries(), self@)
    }

    /// A table without rows.
    pub fn new() -> (table: Self)
        ensures
            table.wf(),
            table@ == Map::<K, V>::empty(),
    {
        Table { rows: Vec::new() }
    }

    /// The rows, in the order in which the table keeps them.
    pub fn rows(&self) -> (rows: &Vec<(K, V)>)
        ensures
            rows@ == self.entries(),
    {
        &self.rows
    }

    /// How many rows there are.
    pub fn len(&self) -> (n: usize)
        requires
            self.wf(),
        ensures
            n == self@.len(),
            n == self.entries().len(),
    {
        proof {
            lemma_rows_map(self.rows@);
        }
        self.rows.len()
    }

    /// Removes every row.
    pub fn clear(&mut self)
        ensures
            final(self).wf(),
            final(self)@ == Map::<K, V>::empty(),
    {
        self.rows = Vec::new();
    }
}

impl<K: Key, V> Table<K, V> {
    /// The place of the row with this key.
    fn find(&self, key: &K) -> (place: Option<usize>)
        requires
            self.wf(),
        ensures
            place is Some <==> self@.contains_key(*key),
            place matches Some(i) ==> i < self.entries().len() && self.entries()[i as int].0
                == *key && self.entries()[i as int].1 == self@[*key],
    {
        let mut i: usize = 0;
        while i < self.rows.len()
            invariant
                self.wf(),
                i <= self.rows.len(),
                forall|j: int| 0 <= j < i ==> self.rows[j].0 != *key,
            decreases self.rows.len() - i,
        {
            if self.rows[i].0.same(key) {
                proof {
                    lemma_rows_map(self.rows@);
                    assert(self.rows@[i as int].0 == *key);
                }
                return Some(i);
            }
            i += 1;
        }
        proof {
            lemma_rows_map(self.rows@);
        }
        None
    }

    /// The value under this key.
    pub fn get(&self, key: &K) -> (value: Option<&V>)
        requires
            self.wf(),
        ensures
            value is Some <==> self@.contains_key(*key),
            value matches Some(v) ==> *v == self@[*key],
    {
        match self.find(key) {
            Some(i) => Some(&self.rows[i].1),
            None => None,
        }
    }

    /// Whether the key occurs.
    pub fn contains_key(&self, key: &K) -> (b: bool)
        requires
            self.wf(),
        ensures
            b == self@.contains_key(*key),
    {
        self.find(key).is_some()
    }

    /// Writes a row, in place of the row with the same key if there is one.
    pub fn insert(&mut self, key: K, value: V)
        requires
            old(self).wf(),
        ensures
            final(self).wf(),
            final(self)@ == old(self)@.insert(key, value),
    {
        match self.find(&key) {
            Some(i) => {
                let ghost before = self.rows@;
                self.rows.set(i, (key, value));
                proof {
                    lemma_rows_map(before);
                    lemma_rows_map(self.rows@);
                    let after = self.rows@;
                    assert(after =~= before.update(i as int, (key, value)));
                    assert forall|k: K|
                        rows_map(before).contains_key(k) implies #[trigger] rows_map(
                        after,
                    ).contains_key(k) by {
                        let j = choose|j: int|
                            0 <= j < before.len() && (#[trigger] before[j]).0 == k;
                        assert(after[j].0 == k);
                    }
                    assert forall|k: K| #[trigger] rows_map(after).contains_key(k) implies rows_map(
                        before,
                    ).contains_key(k) && (k != key ==> rows_map(after)[k] == rows_map(before)[k])
                        by {
                        let j = choose|j: int| 0 <= j < after.len() && (#[trigger] after[j]).0 == k;
                        assert(before[j].0 == k);
                    }
                    assert(after[i as int].0 == key);
                    assert(rows_map(after) =~= rows_map(before).insert(key, value));
                }
            },
            None => {
                let ghost before = self.rows@;
                self.rows.push((key, value));
                proof {
                    lemma_rows_map(before);
                    assert(self.rows@.drop_last() =~= before);
                    assert forall|j: int| 0 <= j < before.len() implies (#[trigger] before[j]).0
                        != key by {
                        assert(rows_map(before).contains_key(before[j].0));
                    }
                }
            },
        }
    }

    /// Removes the row with this key and returns its value.
    pub fn remove(&mut self, key: &K) -> (value: Option<V>)
        requires
            old(self).wf(),
        ensures
            final(self).wf(),
            final(self)@ == old(self)@.remove(*key),
            value is Some <==> old(self)@.contains_key(*key),
            value matches Some(v) ==> v == old(self)@[*key],
    {
        match self.find(key) {
            Some(i) => {
                let ghost before = self.rows@;
                let row = self.rows.remove(i);
                proof {
                    let after = self.rows@;
                    let at = i as int;
                    assert(after =~= before.remove(at));
                    assert forall|j: int| 0 <= j < after.len() implies #[trigger] after[j]
                        == before[if j < at { j } else { j + 1 }] by {}
                    lemma_rows_map(before);
                    lemma_rows_map(after);
                    assert forall|k: K| #[trigger] rows_map(after).contains_key(k) implies k != *key
                        && rows_map(before).contains_key(k) && rows_map(after)[k] == rows_map(
                        before,
                    )[k] by {
                        let j = choose|j: int| 0 <= j < after.len() && (#[trigger] after[j]).0 == k;
                        let p = if j < at { j } else { j + 1 };
                        assert(before[p].0 == k);
                        assert(before[at].0 == *key);
                    }
                    assert forall|k: K| rows_map(before).contains_key(k) && k
                        != *key implies #[trigger] rows_map(after).contains_key(k) by {
                        let p = choose|p: int|
                            0 <= p < before.len() && (#[trigger] before[p]).0 == k;
                        let j = if p < at { p } else { p - 1 };
                        assert(after[j].0 == k);
                    }
                    assert(rows_map(after) =~= rows_map(before).remove(*key));
                }
                Some(row.1)
            },
            None => {
                assert(self@ =~= old(self)@.remove(*key));
                None
            },
        }
    }

    /// The table that results from writing the rows in order.
    pub fn from_rows(rows: Vec<(K, V)>) -> (table: Self)
        ensures
            table.wf(),
            table@ == rows_map(rows@),
    {
        let mut table = Table::new();
        let ghost all = rows@;
        for row in it: rows
            invariant
                table.wf(),
                it.seq() == all,
                table@ == rows_map(all.take(it.index() as int)),
        {
            proof {
                let done = it.index() as int;
                assert(all.take(done + 1).drop_last() =~= all.take(done));
            }
            table.insert(row.0, row.1);
        }
        assert(all.take(all.len() as int) =~= all);
        table
    }
}

/// A listing of a map holds each entry once and nothing else.
pub proof fn a_listing_holds_each_entry_once<K, V>(rows: Seq<(K, V)>, m: Map<K, V>)
    requires
        lists(rows, m),
    ensures
        m.dom().finite(),
        rows.len() == m.len(),
        forall|i: int, j: int| 0 <= i < j < rows.len() ==> rows[i].0 != rows[j].0,
        forall|i: int|
            0 <= i < rows.len() ==> m.contains_key((#[trigger] rows[i]).0) && m[rows[i].0]
                == rows[i].1,
        forall|k: K| #[trigger] m.contains_key(k) ==> rows.contains((k, m[k])),
{
    lemma_rows_map(rows);
    assert forall|k: K| #[trigger] m.contains_key(k) implies rows.contains((k, m[k])) by {
        let i = choose|i: int| 0 <= i < rows.len() && (#[trigger] rows[i]).0 == k;
        assert(rows[i] == (k, m[k]));
    }
}

/// Of rows with the same key the last one counts, and no key counts without a row.
pub proof fn the_last_row_of_a_key_counts<K, V>(rows: Seq<(K, V)>, n: int)
    requires
        0 <= n < rows.len(),
        forall|i: int| n < i < rows.len() ==> (#[trigger] rows[i]).0 != rows[n].0,
    ensures
        rows_map(rows).contains_key(rows[n].0),
        rows_map(rows)[rows[n].0] == rows[n].1,
        forall|k: K| #[trigger]
            rows_map(rows).contains_key(k) ==> exists|i: int|
                0 <= i < rows.len() && (#[trigger] rows[i]).0 == k,
    decreases rows.len(),
{
    lemma_rows_map(rows);
    if n < rows.len() - 1 {
        let front = rows.drop_last();
        assert(forall|i: int| 0 <= i < front.len() ==> front[i] == rows[i]);
        the_last_row_of_a_key_counts(front, n);
        assert(rows[rows.len() - 1].0 != rows[n].0);
    }
}

} // verus!
