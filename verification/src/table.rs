//! A map from strings to values.
use vstd::prelude::*;

use crate::text::same_text;

verus! {

/// A map from strings to values, in which no key occurs twice.
#[derive(Debug)]
pub struct Table<V> {
    rows: Vec<(String, V)>,
}

/// Whether no two rows have the same key.
spec fn keys_differ<V>(rows: Seq<(String, V)>) -> bool {
    forall|i: int, j: int|
        0 <= i < j < rows.len() ==> (#[trigger] rows[i]).0@ != (#[trigger] rows[j]).0@
}

/// Whether the row at `i` has the key.
spec fn row_has<V>(rows: Seq<(String, V)>, key: Seq<char>, i: int) -> bool {
    0 <= i < rows.len() && rows[i].0@ == key
}

impl<V> Table<V> {
    #[verifier::type_invariant]
    spec fn inv(self) -> bool {
        keys_differ(self.rows@)
    }
}

impl<V> View for Table<V> {
    type V = Map<Seq<char>, V>;

    closed spec fn view(&self) -> Map<Seq<char>, V> {
        Map::new(
            |key: Seq<char>| exists|i: int| row_has(self.rows@, key, i),
            |key: Seq<char>| self.rows@[choose|i: int| row_has(self.rows@, key, i)].1,
        )
    }
}

impl<V> Table<V> {
    /// The table of a row: what its view says at that row's key.
    proof fn lemma_row(self, i: int)
        requires
            keys_differ(self.rows@),
            0 <= i < self.rows@.len(),
        ensures
            self@.dom().contains(self.rows@[i].0@),
            self@[self.rows@[i].0@] == self.rows@[i].1,
    {
        let key = self.rows@[i].0@;
        assert(row_has(self.rows@, key, i));
        let k = choose|k: int| row_has(self.rows@, key, k);
        assert(k == i);
    }

    /// A table has finitely many keys.
    pub proof fn lemma_finite(self)
        ensures
            self@.dom().finite(),
    {
        let keys = self.rows@.map_values(|row: (String, V)| row.0@);
        assert forall|key: Seq<char>| self@.dom().contains(key) implies keys.to_set().contains(
            key,
        ) by {
            let i = choose|i: int| row_has(self.rows@, key, i);
            assert(keys[i] == key);
        }
        assert(self@.dom().subset_of(keys.to_set()));
        vstd::seq_lib::seq_to_set_is_finite(keys);
        vstd::set_lib::lemma_set_subset_finite(keys.to_set(), self@.dom());
    }

    /// The empty table.
    pub fn new() -> (table: Table<V>)
        ensures
            table@ == Map::<Seq<char>, V>::empty(),
    {
        let table = Table { rows: Vec::new() };
        proof {
            assert(table@ =~= Map::<Seq<char>, V>::empty());
        }
        table
    }

    /// The index of the row with the key, if there is one.
    fn position(&self, key: &str) -> (r: Option<usize>)
        ensures
            match r {
                Some(i) => row_has(self.rows@, key@, i as int),
                None => forall|i: int| !row_has(self.rows@, key@, i),
            },
    {
        let mut i: usize = 0;
        while i < self.rows.len()
            invariant
                i <= self.rows.len(),
                forall|j: int| 0 <= j < i ==> !row_has(self.rows@, key@, j),
            decreases self.rows.len() - i,
        {
            if same_text(self.rows[i].0.as_str(), key) {
                return Some(i);
            }
            i += 1;
        }
        None
    }

    /// The value of the key, if the table has the key.
    pub fn get(&self, key: &str) -> (r: Option<&V>)
        ensures
            r is Some <==> self@.dom().contains(key@),
            r matches Some(v) ==> *v == self@[key@],
    {
        proof {
            use_type_invariant(self);
        }
        match self.position(key) {
            Some(i) => {
                proof {
                    self.lemma_row(i as int);
                }
                Some(&self.rows[i].1)
            },
            None => None,
        }
    }

    /// Whether the table has the key.
    pub fn contains_key(&self, key: &str) -> (r: bool)
        ensures
            r == self@.dom().contains(key@),
    {
        match self.get(key) {
            Some(_) => true,
            None => false,
        }
    }

    /// Gives the key the value, in place of the value that it had, if any.
    pub fn insert(&mut self, key: String, value: V)
        ensures
            final(self)@ == old(self)@.insert(key@, value),
    {
        proof {
            use_type_invariant(&*self);
        }
        let found = self.position(key.as_str());
        let mut rows: Vec<(String, V)> = Vec::new();
        std::mem::swap(&mut rows, &mut self.rows);
        let ghost before = rows@;
        let ghost text = key@;
        match found {
            Some(i) => {
                rows.set(i, (key, value));
            },
            None => {
                rows.push((key, value));
            },
        }
        proof {
            assert(keys_differ(rows@)) by {
                assert forall|i: int, j: int| 0 <= i < j < rows@.len() implies (#[trigger] rows@[i]).0@
                    != (#[trigger] rows@[j]).0@ by {
                    if found is None {
                        assert(!row_has(before, text, i));
                    } else {
                        let f = found->0 as int;
                        assert(row_has(before, text, f));
                        assert(before[i].0@ == rows@[i].0@);
                        assert(before[j].0@ == rows@[j].0@);
                    }
                }
            }
        }
        self.rows = rows;
        proof {
            let f = if found is Some { found->0 as int } else { before.len() as int };
            let was = *old(self);
            assert(was.rows@ == before);
            assert(self.rows@[f].0@ == text);
            self.lemma_row(f);
            assert forall|k: Seq<char>| k != text implies self@.dom().contains(k)
                == was@.dom().contains(k) by {
                if self@.dom().contains(k) {
                    let i = choose|i: int| row_has(self.rows@, k, i);
                    assert(row_has(before, k, i));
                }
                if was@.dom().contains(k) {
                    let i = choose|i: int| row_has(before, k, i);
                    assert(row_has(self.rows@, k, i));
                }
            }
            assert forall|k: Seq<char>| k != text && was@.dom().contains(k) implies self@[k]
                == was@[k] by {
                let i = choose|i: int| row_has(before, k, i);
                assert(row_has(self.rows@, k, i));
                self.lemma_row(i);
                was.lemma_row(i);
            }
            assert(self@ =~= was@.insert(text, value));
        }
    }

    /// The keys of the table, each of them once, in no particular order.
    pub fn keys(&self) -> (r: Vec<String>)
        ensures
            forall|i: int, j: int|
                0 <= i < j < r@.len() ==> (#[trigger] r@[i])@ != (#[trigger] r@[j])@,
            forall|i: int| 0 <= i < r@.len() ==> self@.dom().contains((#[trigger] r@[i])@),
            forall|key: Seq<char>| #[trigger]
                self@.dom().contains(key) ==> exists|i: int|
                    0 <= i < r@.len() && (#[trigger] r@[i])@ == key,
    {
        proof {
            use_type_invariant(self);
        }
        let mut r: Vec<String> = Vec::new();
        let mut i: usize = 0;
        while i < self.rows.len()
            invariant
                i <= self.rows.len(),
                r@.len() == i,
                forall|j: int| 0 <= j < i ==> #[trigger] r@[j] == self.rows@[j].0,
            decreases self.rows.len() - i,
        {
            r.push(self.rows[i].0.clone());
            i += 1;
        }
        proof {
            assert forall|i: int| 0 <= i < r@.len() implies self@.dom().contains(
                (#[trigger] r@[i])@,
            ) by {
                self.lemma_row(i);
            }
            assert forall|key: Seq<char>| #[trigger] self@.dom().contains(key) implies exists|i: int|
                0 <= i < r@.len() && (#[trigger] r@[i])@ == key by {
                let i = choose|i: int| row_has(self.rows@, key, i);
                assert(r@[i]@ == key);
            }
        }
        r
    }
}

impl<V: Clone> Clone for Table<V> {
    fn clone(&self) -> (r: Self)
        ensures
            r@.dom() == self@.dom(),
            forall|key: Seq<char>| #[trigger]
                r@.dom().contains(key) ==> cloned(self@[key], r@[key]),
    {
        proof {
            use_type_invariant(self);
        }
        let mut rows: Vec<(String, V)> = Vec::new();
        let mut i: usize = 0;
        while i < self.rows.len()
            invariant
                i <= self.rows.len(),
                rows@.len() == i,
                forall|j: int|
                    0 <= j < i ==> (#[trigger] rows@[j]).0 == self.rows@[j].0 && cloned(
                        self.rows@[j].1,
                        rows@[j].1,
                    ),
            decreases self.rows.len() - i,
        {
            rows.push((self.rows[i].0.clone(), self.rows[i].1.clone()));
            i += 1;
        }
        proof {
            assert forall|i: int, j: int| 0 <= i < j < rows@.len() implies (#[trigger] rows@[i]).0@
                != (#[trigger] rows@[j]).0@ by {
                assert(self.rows@[i].0@ != self.rows@[j].0@);
            }
        }
        let r = Table { rows };
        proof {
            assert forall|key: Seq<char>| self@.dom().contains(key) == r@.dom().contains(key) by {
                if self@.dom().contains(key) {
                    let i = choose|i: int| row_has(self.rows@, key, i);
                    assert(row_has(r.rows@, key, i));
                }
                if r@.dom().contains(key) {
                    let i = choose|i: int| row_has(r.rows@, key, i);
                    assert(row_has(self.rows@, key, i));
                }
            }
            assert(r@.dom() =~= self@.dom());
            assert forall|key: Seq<char>| #[trigger] r@.dom().contains(key) implies cloned(
                self@[key],
                r@[key],
            ) by {
                let i = choose|i: int| row_has(r.rows@, key, i);
                self.lemma_row(i);
                r.lemma_row(i);
            }
        }
        r
    }
}

}
