//! A map from texts to values that is walked in the ascending order of its keys.
use crate::order;
use crate::order::{standing, Standing};
use vstd::prelude::*;

verus! {

/// The keys of the rows, in the order of the rows.
spec fn row_keys<V>(rows: Seq<(String, V)>) -> Seq<Seq<char>> {
    Seq::new(rows.len(), |i: int| rows[i].0@)
}

/// The map that the rows stand for.
spec fn row_map<V>(rows: Seq<(String, V)>) -> Map<Seq<char>, V> {
    Map::new(
        |k: Seq<char>| row_keys(rows).contains(k),
        |k: Seq<char>| rows[row_keys(rows).index_of(k)].1,
    )
}

/// A map with text keys. Each key occurs once, and the rows are held in the
/// ascending order of their keys, so that a walk over the rows by position is a
/// walk in key order.
#[derive(Debug)]
pub struct StringTable<V> {
    rows: Vec<(String, V)>,
}

impl<V> View for StringTable<V> {
    type V = Map<Seq<char>, V>;

    closed spec fn view(&self) -> Map<Seq<char>, V> {
        row_map(self.rows@)
    }
}

impl<V: DeepView> DeepView for StringTable<V> {
    type V = Map<Seq<char>, V::V>;

    open spec fn deep_view(&self) -> Map<Seq<char>, V::V> {
        self@.map_values(|v: V| v.deep_view())
    }
}

proof fn lemma_rows<V>(rows: Seq<(String, V)>)
    requires
        order::is_ascending(row_keys(rows)),
    ensures
        order::ascending(row_map(rows).dom()) == row_keys(rows),
        forall|i: int|
            #![trigger rows[i]]
            0 <= i < rows.len() ==> {
                &&& row_map(rows).contains_key(rows[i].0@)
                &&& row_map(rows)[rows[i].0@] == rows[i].1
            },
{
    let keys = row_keys(rows);
    assert(row_map(rows).dom() =~= keys.to_set());
    order::ascending_list_is_canonical(keys);
    assert forall|i: int| #![trigger rows[i]] 0 <= i < rows.len() implies {
        &&& row_map(rows).contains_key(rows[i].0@)
        &&& row_map(rows)[rows[i].0@] == rows[i].1
    } by {
        assert(keys[i] == rows[i].0@);
        let j = keys.index_of(keys[i]);
        assert(keys[j] == keys[i]);
        if i < j {
            order::order_is_asymmetric(keys[i], keys[j]);
        } else if j < i {
            order::order_is_asymmetric(keys[j], keys[i]);
        }
    }
}

impl<V> StringTable<V> {
    #[verifier::type_invariant]
    spec fn rows_ascend(self) -> bool {
        order::is_ascending(row_keys(self.rows@))
    }

    /// The keys of the table, in ascending order.
    pub open spec fn keys(self) -> Seq<Seq<char>> {
        order::ascending(self@.dom())
    }

    /// A table without rows.
    pub fn new() -> (r: Self)
        ensures
            r@ == Map::<Seq<char>, V>::empty(),
            r.keys().len() == 0,
    {
        let r = StringTable { rows: Vec::new() };
        proof {
            lemma_rows(r.rows@);
            assert(r@ =~= Map::<Seq<char>, V>::empty());
        }
        r
    }

    /// The number of rows.
    pub fn len(&self) -> (r: usize)
        ensures
            r == self.keys().len(),
            self@.dom().finite(),
            r == self@.dom().len(),
    {
        proof {
            use_type_invariant(self);
            lemma_rows(self.rows@);
            let keys = row_keys(self.rows@);
            assert(self@.dom() =~= keys.to_set());
            assert forall|i: int, j: int| 0 <= i < keys.len() && 0 <= j < keys.len() && i != j implies keys[i]
                != keys[j] by {
                if i < j {
                    order::order_is_asymmetric(keys[i], keys[j]);
                } else {
                    order::order_is_asymmetric(keys[j], keys[i]);
                }
            }
            keys.unique_seq_to_set();
        }
        self.rows.len()
    }

    /// The key at a position.
    pub fn key_at(&self, i: usize) -> (r: &String)
        requires
            i < self.keys().len(),
        ensures
            r@ == self.keys()[i as int],
            self@.contains_key(r@),
    {
        proof {
            use_type_invariant(self);
            lemma_rows(self.rows@);
        }
        &self.rows[i].0
    }

    /// The value at a position.
    pub fn value_at(&self, i: usize) -> (r: &V)
        requires
            i < self.keys().len(),
        ensures
            self@.contains_key(self.keys()[i as int]),
            *r == self@[self.keys()[i as int]],
    {
        proof {
            use_type_invariant(self);
            lemma_rows(self.rows@);
            assert(self.keys()[i as int] == self.rows@[i as int].0@);
        }
        &self.rows[i].1
    }

    /// The position of a key, or the position at which it belongs.
    fn position(&self, key: &str) -> (r: Result<usize, usize>)
        ensures
            match r {
                Ok(i) => i < self.rows@.len() && self.rows@[i as int].0@ == key@,
                Err(i) => {
                    &&& i <= self.rows@.len()
                    &&& forall|j: int|
                        0 <= j < i ==> order::precedes(#[trigger] self.rows@[j].0@, key@)
                    &&& forall|j: int|
                        i <= j < self.rows@.len() ==> order::precedes(key@, #[trigger] self.rows@[j].0@)
                },
            },
    {
        proof {
            use_type_invariant(self);
        }
        let ghost keys = row_keys(self.rows@);
        let mut low: usize = 0;
        let mut high: usize = self.rows.len();
        while low < high
            invariant
                low <= high <= self.rows@.len(),
                keys == row_keys(self.rows@),
                order::is_ascending(keys),
                forall|j: int| 0 <= j < low ==> order::precedes(#[trigger] self.rows@[j].0@, key@),
                forall|j: int|
                    high <= j < self.rows@.len() ==> order::precedes(key@, #[trigger] self.rows@[j].0@),
            decreases high - low,
        {
            let mid: usize = low + (high - low) / 2;
            match standing(self.rows[mid].0.as_str(), key) {
                Standing::Same => {
                    return Ok(mid);
                },
                Standing::Before => {
                    assert forall|j: int| 0 <= j < mid + 1 implies order::precedes(
                        #[trigger] self.rows@[j].0@,
                        key@,
                    ) by {
                        if j < mid {
                            assert(order::precedes(keys[j], keys[mid as int]));
                            order::order_is_transitive(keys[j], keys[mid as int], key@);
                        }
                    }
                    low = mid + 1;
                },
                Standing::After => {
                    assert forall|j: int| mid <= j < self.rows@.len() implies order::precedes(
                        key@,
                        #[trigger] self.rows@[j].0@,
                    ) by {
                        if mid < j {
                            assert(order::precedes(keys[mid as int], keys[j]));
                            order::order_is_transitive(key@, keys[mid as int], keys[j]);
                        }
                    }
                    high = mid;
                },
            }
        }
        Err(low)
    }

    proof fn lemma_absent(&self, key: Seq<char>, i: int)
        requires
            0 <= i <= self.rows@.len(),
            forall|j: int| 0 <= j < i ==> order::precedes(#[trigger] self.rows@[j].0@, key),
            forall|j: int| i <= j < self.rows@.len() ==> order::precedes(key, #[trigger] self.rows@[j].0@),
        ensures
            !self@.contains_key(key),
    {
        if self@.contains_key(key) {
            let keys = row_keys(self.rows@);
            let j = choose|j: int| 0 <= j < keys.len() && keys[j] == key;
            assert(self.rows@[j].0@ == key);
            order::order_is_asymmetric(key, key);
        }
    }

    /// The value of a key.
    pub fn get(&self, key: &str) -> (r: Option<&V>)
        ensures
            match r {
                Some(v) => self@.contains_key(key@) && *v == self@[key@],
                None => !self@.contains_key(key@),
            },
    {
        proof {
            use_type_invariant(self);
            lemma_rows(self.rows@);
        }
        match self.position(key) {
            Ok(i) => {
                assert(self@.contains_key(self.rows@[i as int].0@));
                Some(&self.rows[i].1)
            },
            Err(i) => {
                proof {
                    self.lemma_absent(key@, i as int);
                }
                None
            },
        }
    }

    /// Whether the table has the key.
    pub fn contains_key(&self, key: &str) -> (r: bool)
        ensures
            r == self@.contains_key(key@),
    {
        match self.get(key) {
            Some(_) => true,
            None => false,
        }
    }

    /// Puts a new row in its place.
    fn insert_at(&mut self, i: usize, key: String, value: V)
        requires
            i <= old(self).rows@.len(),
            forall|j: int| 0 <= j < i ==> order::precedes(#[trigger] old(self).rows@[j].0@, key@),
            forall|j: int|
                i <= j < old(self).rows@.len() ==> order::precedes(key@, #[trigger] old(self).rows@[j].0@),
        ensures
            final(self)@ == old(self)@.insert(key@, value),
    {
        proof {
            use_type_invariant(&*self);
        }
        let ghost before = self.rows@;
        let mut rows: Vec<(String, V)> = Vec::new();
        std::mem::swap(&mut rows, &mut self.rows);
        let ghost row = (key, value);
        rows.insert(i, (key, value));
        proof {
            assert(rows@ == before.insert(i as int, row));
            let old_keys = row_keys(before);
            let new_keys = row_keys(rows@);
            assert(new_keys =~= old_keys.insert(i as int, row.0@));
            assert forall|a: int, b: int| 0 <= a < b < new_keys.len() implies order::precedes(
                new_keys[a],
                new_keys[b],
            ) by {
                let a0 = if a < i { a } else { a - 1 };
                let b0 = if b < i { b } else { b - 1 };
                if a != i && b != i {
                    assert(order::precedes(old_keys[a0], old_keys[b0]));
                } else if a == i {
                    assert(order::precedes(row.0@, before[b0].0@));
                } else {
                    assert(order::precedes(before[a0].0@, row.0@));
                }
            }
            lemma_rows(before);
            lemma_rows(rows@);
            let target = row_map(before).insert(row.0@, row.1);
            assert forall|k: Seq<char>| row_map(rows@).contains_key(k) <==> target.contains_key(k) by {
                if row_map(rows@).contains_key(k) {
                    let x = choose|x: int| 0 <= x < new_keys.len() && new_keys[x] == k;
                    if x != i {
                        let x0 = if x < i { x } else { x - 1 };
                        assert(old_keys[x0] == k);
                    }
                }
                if row_map(before).contains_key(k) {
                    let x = choose|x: int| 0 <= x < old_keys.len() && old_keys[x] == k;
                    let x1 = if x < i { x } else { x + 1 };
                    assert(new_keys[x1] == k);
                }
                assert(new_keys[i as int] == row.0@);
            }
            assert forall|k: Seq<char>| row_map(rows@).contains_key(k) implies row_map(rows@)[k]
                == target[k] by {
                let x = choose|x: int| 0 <= x < new_keys.len() && new_keys[x] == k;
                assert(rows@[x].0@ == k);
                if x != i {
                    let x0 = if x < i { x } else { x - 1 };
                    assert(before[x0].0@ == k);
                    assert(rows@[x] == before[x0]);
                    if k == row.0@ {
                        order::order_is_asymmetric(k, k);
                    }
                }
            }
            assert(row_map(rows@) =~= target);
        }
        self.rows = rows;
    }

    /// Sets the value of a key and returns the value that it had.
    pub fn insert(&mut self, key: String, value: V) -> (r: Option<V>)
        ensures
            final(self)@ == old(self)@.insert(key@, value),
            match r {
                Some(v) => old(self)@.contains_key(key@) && v == old(self)@[key@],
                None => !old(self)@.contains_key(key@),
            },
    {
        proof {
            use_type_invariant(&*self);
            lemma_rows(self.rows@);
        }
        match self.position(key.as_str()) {
            Ok(i) => {
                assert(self@.contains_key(self.rows@[i as int].0@));
                let ghost before = self.rows@;
                let mut rows: Vec<(String, V)> = Vec::new();
                std::mem::swap(&mut rows, &mut self.rows);
                let mut other = value;
                std::mem::swap(&mut rows[i].1, &mut other);
                proof {
                    assert(row_keys(rows@) =~= row_keys(before));
                    lemma_rows(rows@);
                    let target = row_map(before).insert(key@, value);
                    assert(row_keys(before)[i as int] == key@);
                    assert forall|k: Seq<char>| row_map(rows@).contains_key(k) implies row_map(rows@)[k]
                        == target[k] by {
                        let x = choose|x: int| 0 <= x < row_keys(rows@).len() && row_keys(rows@)[x] == k;
                        assert(rows@[x].0@ == k);
                        assert(before[x].0@ == k);
                        if x < i {
                            order::order_is_asymmetric(k, row_keys(rows@)[i as int]);
                        } else if i < x {
                            order::order_is_asymmetric(row_keys(rows@)[i as int], k);
                        }
                    }
                    assert(row_map(rows@) =~= target);
                }
                self.rows = rows;
                Some(other)
            },
            Err(i) => {
                proof {
                    self.lemma_absent(key@, i as int);
                }
                self.insert_at(i, key, value);
                None
            },
        }
    }

    /// Sets the value of a key that the table does not have yet.
    pub fn insert_if_absent(&mut self, key: String, value: V)
        ensures
            final(self)@ == if old(self)@.contains_key(key@) {
                old(self)@
            } else {
                old(self)@.insert(key@, value)
            },
    {
        proof {
            use_type_invariant(&*self);
            lemma_rows(self.rows@);
        }
        match self.position(key.as_str()) {
            Ok(i) => {
                assert(self@.contains_key(self.rows@[i as int].0@));
            },
            Err(i) => {
                proof {
                    self.lemma_absent(key@, i as int);
                }
                self.insert_at(i, key, value);
            },
        }
    }

    /// Drops the rows whose key the other table does not have.
    pub fn retain_keys_of<W>(&mut self, other: &StringTable<W>)
        ensures
            final(self)@ == old(self)@.restrict(other@.dom()),
    {
        proof {
            use_type_invariant(&*self);
        }
        let ghost before = self.rows@;
        let mut rows: Vec<(String, V)> = Vec::new();
        std::mem::swap(&mut rows, &mut self.rows);
        let mut i: usize = 0;
        proof {
            assert(rows@ =~= before);
            lemma_rows(before);
        }
        while i < rows.len()
            invariant
                i <= rows@.len(),
                order::is_ascending(row_keys(rows@)),
                forall|j: int| 0 <= j < i ==> other@.contains_key(#[trigger] rows@[j].0@),
                forall|j: int|
                    0 <= j < rows@.len() ==> {
                        &&& row_map(before).contains_key(#[trigger] rows@[j].0@)
                        &&& row_map(before)[rows@[j].0@] == rows@[j].1
                    },
                forall|k: Seq<char>|
                    row_map(before).contains_key(k) && other@.contains_key(k)
                        ==> #[trigger] row_keys(rows@).contains(k),
            decreases rows@.len() - i,
        {
            let ghost now = rows@;
            if other.contains_key(rows[i].0.as_str()) {
                i += 1;
            } else {
                rows.remove(i);
                proof {
                    let keys = row_keys(rows@);
                    assert forall|a: int, b: int| 0 <= a < b < keys.len() implies order::precedes(
                        keys[a],
                        keys[b],
                    ) by {
                        let a1 = if a < i { a } else { a + 1 };
                        let b1 = if b < i { b } else { b + 1 };
                        assert(order::precedes(row_keys(now)[a1], row_keys(now)[b1]));
                    }
                    assert forall|k: Seq<char>|
                        row_map(before).contains_key(k) && other@.contains_key(k) implies #[trigger] row_keys(
                        rows@,
                    ).contains(k) by {
                        assert(row_keys(now).contains(k));
                        let x = choose|x: int| 0 <= x < row_keys(now).len() && row_keys(now)[x] == k;
                        assert(x != i);
                        let x0 = if x < i { x } else { x - 1 };
                        assert(keys[x0] == k);
                    }
                }
            }
        }
        proof {
            lemma_rows(rows@);
            let target = row_map(before).restrict(other@.dom());
            assert forall|k: Seq<char>| #[trigger] row_map(rows@).contains_key(k) implies target.contains_key(k)
                && row_map(rows@)[k] == target[k] by {
                let x = choose|x: int| 0 <= x < row_keys(rows@).len() && row_keys(rows@)[x] == k;
                assert(rows@[x].0@ == k);
            }
            assert forall|k: Seq<char>| #[trigger] target.contains_key(k) implies row_map(rows@).contains_key(k) by {
                assert(row_keys(rows@).contains(k));
            }
            assert(row_map(rows@) =~= target);
        }
        self.rows = rows;
    }
}

impl<V: Clone> Clone for StringTable<V> {
    fn clone(&self) -> (r: Self)
        ensures
            r@.dom() == self@.dom(),
            forall|key: Seq<char>| #[trigger]
                self@.contains_key(key) ==> cloned::<V>(self@[key], r@[key]),
    {
        proof {
            use_type_invariant(self);
            lemma_rows(self.rows@);
        }
        let mut rows: Vec<(String, V)> = Vec::new();
        let mut i: usize = 0;
        while i < self.rows.len()
            invariant
                i <= self.rows@.len(),
                rows@.len() == i,
                forall|j: int|
                    0 <= j < i ==> {
                        &&& (#[trigger] rows@[j]).0@ == self.rows@[j].0@
                        &&& cloned::<V>(self.rows@[j].1, rows@[j].1)
                    },
            decreases self.rows@.len() - i,
        {
            rows.push((self.rows[i].0.clone(), self.rows[i].1.clone()));
            i += 1;
        }
        proof {
            assert(row_keys(rows@) =~= row_keys(self.rows@));
            lemma_rows(rows@);
            assert(row_map(rows@).dom() =~= row_map(self.rows@).dom());
            assert forall|key: Seq<char>| #[trigger] row_map(self.rows@).contains_key(key) implies cloned::<V>(
                row_map(self.rows@)[key],
                row_map(rows@)[key],
            ) by {
                let keys = row_keys(rows@);
                let x = choose|x: int| 0 <= x < keys.len() && keys[x] == key;
                assert(rows@[x].0@ == key);
                assert(self.rows@[x].0@ == key);
            }
        }
        StringTable { rows }
    }
}

} // verus!
