//! A table keyed by name: at most one value per name, in order of first use.

use vstd::prelude::*;

use crate::text::str_eq;

verus! {

/// Values keyed by name. The view is the map from name to value.
pub struct NameTable<V> {
    entries: Vec<(String, V)>,
}

impl<V> View for NameTable<V> {
    type V = Map<Seq<char>, V>;

    closed spec fn view(&self) -> Map<Seq<char>, V> {
        Map::new(
            |name: Seq<char>| exists|i: int| self.holds_at(i, name),
            |name: Seq<char>| self.entries@[choose|i: int| self.holds_at(i, name)].1,
        )
    }
}

impl<V> NameTable<V> {
    spec fn holds_at(&self, i: int, name: Seq<char>) -> bool {
        0 <= i < self.entries@.len() && self.entries@[i].0@ == name
    }

    /// No name stands twice in the table.
    pub closed spec fn wf(&self) -> bool {
        forall|i: int, j: int|
            0 <= i < j < self.entries@.len() ==> (#[trigger] self.entries@[i]).0@ != (
            #[trigger] self.entries@[j]).0@
    }

    /// The names, in the order in which they were first used.
    pub closed spec fn names(&self) -> Seq<Seq<char>> {
        self.entries@.map_values(|e: (String, V)| e.0@)
    }

    /// The names are distinct, and they are the names that have a value.
    pub proof fn names_are_the_domain(&self)
        requires
            self.wf(),
        ensures
            self.names().no_duplicates(),
            forall|name: Seq<char>| self.names().contains(name) <==> #[trigger] self@.contains_key(name),
    {
        assert forall|name: Seq<char>| self.names().contains(name) implies
            #[trigger] self@.contains_key(name) by {
            let i = choose|i: int| 0 <= i < self.names().len() && self.names()[i] == name;
            assert(self.holds_at(i, name));
        }
        assert forall|name: Seq<char>| #[trigger] self@.contains_key(name) implies
            self.names().contains(name) by {
            let i = choose|i: int| self.holds_at(i, name);
            assert(self.names()[i] == name);
        }
    }

    proof fn lemma_at(&self, i: int)
        requires
            self.wf(),
            0 <= i < self.entries@.len(),
        ensures
            self@.contains_key(self.entries@[i].0@),
            self@[self.entries@[i].0@] == self.entries@[i].1,
    {
        let name = self.entries@[i].0@;
        assert(self.holds_at(i, name));
        let j = choose|j: int| self.holds_at(j, name);
        assert(j == i);
    }

    /// The empty table.
    pub fn new() -> (table: Self)
        ensures
            table.wf(),
            table@ == Map::<Seq<char>, V>::empty(),
            table.names() == Seq::<Seq<char>>::empty(),
    {
        let table = NameTable { entries: Vec::new() };
        assert(table@ =~= Map::<Seq<char>, V>::empty());
        assert(table.names() =~= Seq::<Seq<char>>::empty());
        table
    }

    /// How many names have a value.
    pub fn len(&self) -> (n: usize)
        ensures
            n == self.names().len(),
    {
        self.entries.len()
    }

    fn find(&self, name: &str) -> (found: Option<usize>)
        requires
            self.wf(),
        ensures
            match found {
                Some(i) => self.holds_at(i as int, name@),
                None => !self@.contains_key(name@),
            },
    {
        let mut i: usize = 0;
        while i < self.entries.len()
            invariant
                i <= self.entries@.len(),
                forall|k: int| 0 <= k < i ==> (#[trigger] self.entries@[k]).0@ != name@,
            decreases self.entries.len() - i,
        {
            if str_eq(self.entries[i].0.as_str(), name) {
                return Some(i);
            }
            i += 1;
        }
        None
    }

    /// The value of a name.
    pub fn get(&self, name: &str) -> (value: Option<&V>)
        requires
            self.wf(),
        ensures
            match value {
                Some(v) => self@.contains_key(name@) && *v == self@[name@],
                None => !self@.contains_key(name@),
            },
    {
        match self.find(name) {
            Some(i) => {
                proof {
                    self.lemma_at(i as int);
                }
                Some(&self.entries[i].1)
            },
            None => None,
        }
    }

    /// The `i`-th name and its value.
    pub fn at(&self, i: usize) -> (entry: (&String, &V))
        requires
            self.wf(),
            i < self.names().len(),
        ensures
            entry.0@ == self.names()[i as int],
            self@.contains_key(entry.0@),
            *entry.1 == self@[entry.0@],
    {
        proof {
            self.lemma_at(i as int);
        }
        (&self.entries[i].0, &self.entries[i].1)
    }

    /// Writing one value changes that entry of the map alone.
    proof fn lemma_update(before: Self, after: Self, i: int)
        requires
            before.wf(),
            0 <= i < before.entries@.len(),
            after.entries@ == before.entries@.update(
                i,
                (before.entries@[i].0, after.entries@[i].1),
            ),
        ensures
            after.wf(),
            after@ == before@.insert(before.entries@[i].0@, after.entries@[i].1),
            after.names() == before.names(),
    {
        assert forall|k: int| 0 <= k < after.entries@.len() implies (#[trigger] after.entries@[k]).0
            == before.entries@[k].0 by {}
        assert(after.names() =~= before.names());
        let name = before.entries@[i].0@;
        assert forall|n: Seq<char>| #[trigger] after@.contains_key(n) <==> before@.contains_key(
            n,
        ) by {
            assert forall|k: int| after.holds_at(k, n) <==> before.holds_at(k, n) by {}
        }
        before.lemma_at(i);
        after.lemma_at(i);
        assert forall|n: Seq<char>| n != name && #[trigger] after@.contains_key(n) implies after@[n]
            == before@[n] by {
            let k = choose|k: int| after.holds_at(k, n);
            after.lemma_at(k);
            before.lemma_at(k);
        }
        assert(after@ =~= before@.insert(name, after.entries@[i].1));
    }

    /// Appending an entry under a new name adds it to the map.
    proof fn lemma_push(before: Self, after: Self)
        requires
            before.wf(),
            after.entries@.len() == before.entries@.len() + 1,
            after.entries@.drop_last() == before.entries@,
            !before@.contains_key(after.entries@.last().0@),
        ensures
            after.wf(),
            after@ == before@.insert(after.entries@.last().0@, after.entries@.last().1),
            after.names() == before.names().push(after.entries@.last().0@),
    {
        let last = before.entries@.len() as int;
        let name = after.entries@.last().0@;
        assert forall|k: int| 0 <= k < last implies #[trigger] after.entries@[k]
            == before.entries@[k] by {
            assert(after.entries@.drop_last()[k] == after.entries@[k]);
        }
        assert(after.names() =~= before.names().push(name));
        assert forall|k: int| 0 <= k < last implies (#[trigger] before.entries@[k]).0@ != name by {
            before.lemma_at(k);
        }
        assert(after.wf());
        after.lemma_at(last);
        assert forall|n: Seq<char>| n != name implies (#[trigger] after@.contains_key(n)
            <==> before@.contains_key(n)) by {
            assert forall|k: int| after.holds_at(k, n) <==> before.holds_at(k, n) by {}
        }
        assert forall|n: Seq<char>| n != name && #[trigger] after@.contains_key(n) implies after@[n]
            == before@[n] by {
            let k = choose|k: int| after.holds_at(k, n);
            after.lemma_at(k);
            before.lemma_at(k);
        }
        assert(after@ =~= before@.insert(name, after.entries@.last().1));
    }

    /// The value of a name, for writing; `fresh` is put there first when the
    /// name has none.
    pub fn get_or_insert(&mut self, name: &str, fresh: V) -> (value: &mut V)
        requires
            old(self).wf(),
        ensures
            *value == (if old(self)@.contains_key(name@) {
                old(self)@[name@]
            } else {
                fresh
            }),
            final(self).wf(),
            final(self)@ == old(self)@.insert(name@, *final(value)),
            final(self).names() == (if old(self)@.contains_key(name@) {
                old(self).names()
            } else {
                old(self).names().push(name@)
            }),
    {
        let i = match self.find(name) {
            Some(i) => {
                proof {
                    self.lemma_at(i as int);
                }
                i
            },
            None => {
                let ghost before = *self;
                self.entries.push((name.to_owned(), fresh));
                proof {
                    assert(self.entries@.drop_last() =~= before.entries@);
                    Self::lemma_push(before, *self);
                }
                self.entries.len() - 1
            },
        };
        let ghost mid = *self;
        proof {
            assert forall|t: Self|
                #![trigger t.wf()]
                #![trigger t@]
                #![trigger t.names()]
                t.entries@ == mid.entries@.update(
                    i as int,
                    (mid.entries@[i as int].0, t.entries@[i as int].1),
                ) implies t.wf() && t@ == old(self)@.insert(name@, t.entries@[i as int].1)
                && t.names() == mid.names() by {
                Self::lemma_update(mid, t, i as int);
                assert(t@ =~= old(self)@.insert(name@, t.entries@[i as int].1));
            }
        }
        &mut self.entries[i].1
    }
}

} // verus!
