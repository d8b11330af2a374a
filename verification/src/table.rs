use vstd::prelude::*;

verus! {

/// A map from names to values, kept as a list of entries in which no name
/// occurs twice.
#[derive(Debug, PartialEq)]
pub struct Table<V> {
    entries: Vec<(String, V)>,
}

/// Whether no two entries have the same name.
pub open spec fn distinct_names<V>(entries: Seq<(String, V)>) -> bool {
    forall|i: int, j: int|
        0 <= i < j < entries.len() ==> (#[trigger] entries[i]).0@ != (#[trigger] entries[j]).0@
}

/// Whether some entry has the name `key`.
pub open spec fn has_name<V>(entries: Seq<(String, V)>, key: Seq<char>) -> bool {
    exists|i: int| 0 <= i < entries.len() && (#[trigger] entries[i]).0@ == key
}

/// The index of an entry with the name `key`.
pub open spec fn index_of_name<V>(entries: Seq<(String, V)>, key: Seq<char>) -> int {
    choose|i: int| 0 <= i < entries.len() && (#[trigger] entries[i]).0@ == key
}

/// The map that a list of entries stands for.
pub open spec fn entries_map<V>(entries: Seq<(String, V)>) -> Map<Seq<char>, V> {
    Map::new(
        |key: Seq<char>| has_name(entries, key),
        |key: Seq<char>| entries[index_of_name(entries, key)].1,
    )
}

pub proof fn lemma_entry<V>(entries: Seq<(String, V)>, i: int)
    requires
        distinct_names(entries),
        0 <= i < entries.len(),
    ensures
        entries_map(entries).dom().contains(entries[i].0@),
        entries_map(entries)[entries[i].0@] == entries[i].1,
        index_of_name(entries, entries[i].0@) == i,
{
    let key = entries[i].0@;
    assert(has_name(entries, key));
    let j = index_of_name(entries, key);
    assert(0 <= j < entries.len() && entries[j].0@ == key);
    if j < i {
        assert(entries[j].0@ != entries[i].0@);
    }
    if i < j {
        assert(entries[i].0@ != entries[j].0@);
    }
}

impl<V> View for Table<V> {
    type V = Map<Seq<char>, V>;

    closed spec fn view(&self) -> Map<Seq<char>, V> {
        entries_map(self.entries@)
    }
}

impl<V> Table<V> {
    /// Whether no name occurs twice among the entries. Every table that the
    /// functions below make or change is well formed.
    pub closed spec fn wf(&self) -> bool {
        distinct_names(self.entries@)
    }

    /// The index of the entry named `key`, if there is one.
    fn find(&self, key: &str) -> (r: Option<usize>)
        ensures
            match r {
                Some(i) => i < self.entries@.len() && self.entries@[i as int].0@ == key@,
                None => !has_name(self.entries@, key@),
            },
    {
        let mut i: usize = 0;
        while i < self.entries.len()
            invariant
                i <= self.entries.len(),
                forall|j: int| 0 <= j < i ==> (#[trigger] self.entries@[j]).0@ != key@,
            decreases self.entries.len() - i,
        {
            if self.entries[i].0.as_str().eq(key) {
                return Some(i);
            }
            i += 1;
        }
        None
    }

    pub fn new() -> (r: Self)
        ensures
            r.wf(),
            r@ == Map::<Seq<char>, V>::empty(),
    {
        let r = Table { entries: Vec::new() };
        assert(r@ =~= Map::<Seq<char>, V>::empty());
        r
    }

    pub fn contains_key(&self, key: &str) -> (r: bool)
        ensures
            r == self@.dom().contains(key@),
    {
        self.find(key).is_some()
    }

    pub fn get(&self, key: &str) -> (r: Option<&V>)
        requires
            self.wf(),
        ensures
            match r {
                Some(value) => self@.dom().contains(key@) && *value == self@[key@],
                None => !self@.dom().contains(key@),
            },
    {
        match self.find(key) {
            Some(i) => {
                proof {
                    lemma_entry(self.entries@, i as int);
                }
                Some(&self.entries[i].1)
            },
            None => None,
        }
    }

    /// Binds `key` to `value`, in place of what it was bound to before.
    pub fn insert(&mut self, key: String, value: V)
        requires
            old(self).wf(),
        ensures
            final(self).wf(),
            final(self)@ == old(self)@.insert(key@, value),
    {
        let ghost before = self.entries@;
        match self.find(key.as_str()) {
            Some(i) => {
                self.entries.set(i, (key, value));
                let ghost after = self.entries@;
                proof {
                    assert(distinct_names(after)) by {
                        assert forall|a: int, b: int| 0 <= a < b < after.len() implies (
                        #[trigger] after[a]).0@ != (#[trigger] after[b]).0@ by {
                            assert(before[a].0@ != before[b].0@);
                        }
                    }
                    assert forall|k: Seq<char>| #[trigger]
                        entries_map(after).dom().contains(k) == entries_map(before).insert(
                            key@,
                            value,
                        ).dom().contains(k) by {
                        if has_name(after, k) {
                            let j = index_of_name(after, k);
                            assert(before[j].0@ == k);
                        }
                        if has_name(before, k) {
                            let j = index_of_name(before, k);
                            assert(after[j].0@ == k);
                        }
                        if k == key@ {
                            assert(after[i as int].0@ == k);
                        }
                    }
                    assert forall|k: Seq<char>| #[trigger]
                        entries_map(after).dom().contains(k) implies entries_map(after)[k]
                        == entries_map(before).insert(key@, value)[k] by {
                        let j = index_of_name(after, k);
                        lemma_entry(after, j);
                        if j != i {
                            lemma_entry(before, j);
                        }
                    }
                    assert(entries_map(after) =~= entries_map(before).insert(key@, value));
                }
            },
            None => {
                self.entries.push((key, value));
                let ghost after = self.entries@;
                proof {
                    assert(distinct_names(after)) by {
                        assert forall|a: int, b: int| 0 <= a < b < after.len() implies (
                        #[trigger] after[a]).0@ != (#[trigger] after[b]).0@ by {
                            if b < before.len() {
                                assert(before[a].0@ != before[b].0@);
                            } else {
                                assert(before[a].0@ != key@);
                            }
                        }
                    }
                    assert forall|k: Seq<char>| #[trigger]
                        entries_map(after).dom().contains(k) == entries_map(before).insert(
                            key@,
                            value,
                        ).dom().contains(k) by {
                        if has_name(after, k) {
                            let j = index_of_name(after, k);
                            if j < before.len() {
                                assert(before[j].0@ == k);
                            }
                        }
                        if has_name(before, k) {
                            let j = index_of_name(before, k);
                            assert(after[j].0@ == k);
                        }
                        if k == key@ {
                            assert(after[before.len() as int].0@ == k);
                        }
                    }
                    assert forall|k: Seq<char>| #[trigger]
                        entries_map(after).dom().contains(k) implies entries_map(after)[k]
                        == entries_map(before).insert(key@, value)[k] by {
                        let j = index_of_name(after, k);
                        lemma_entry(after, j);
                        if j < before.len() {
                            lemma_entry(before, j);
                        }
                    }
                    assert(entries_map(after) =~= entries_map(before).insert(key@, value));
                }
            },
        }
    }

    /// Takes the binding of `key` out of the table and returns its value.
    pub fn remove(&mut self, key: &str) -> (r: Option<V>)
        requires
            old(self).wf(),
        ensures
            final(self).wf(),
            final(self)@ == old(self)@.remove(key@),
            match r {
                Some(value) => old(self)@.dom().contains(key@) && value == old(self)@[key@],
                None => !old(self)@.dom().contains(key@),
            },
    {
        let ghost before = self.entries@;
        match self.find(key) {
            Some(i) => {
                proof {
                    lemma_entry(before, i as int);
                }
                let entry = self.entries.remove(i);
                let ghost after = self.entries@;
                proof {
                    assert forall|a: int| 0 <= a < after.len() implies #[trigger] after[a]
                        == before[if a < i {
                        a
                    } else {
                        a + 1
                    }] by {}
                    assert(distinct_names(after)) by {
                        assert forall|a: int, b: int| 0 <= a < b < after.len() implies (
                        #[trigger] after[a]).0@ != (#[trigger] after[b]).0@ by {
                            let a0 = if a < i {
                                a
                            } else {
                                a + 1
                            };
                            let b0 = if b < i {
                                b
                            } else {
                                b + 1
                            };
                            assert(before[a0].0@ != before[b0].0@);
                        }
                    }
                    assert forall|k: Seq<char>| #[trigger]
                        entries_map(after).dom().contains(k) == entries_map(before).remove(
                            key@,
                        ).dom().contains(k) by {
                        if has_name(after, k) {
                            let j = index_of_name(after, k);
                            let j0 = if j < i {
                                j
                            } else {
                                j + 1
                            };
                            assert(before[j0].0@ == k);
                            if k == key@ {
                                lemma_entry(before, j0);
                            }
                        }
                        if has_name(before, k) && k != key@ {
                            let j = index_of_name(before, k);
                            let j1 = if j < i {
                                j
                            } else {
                                j - 1
                            };
                            assert(after[j1].0@ == k);
                        }
                    }
                    assert forall|k: Seq<char>| #[trigger]
                        entries_map(after).dom().contains(k) implies entries_map(after)[k]
                        == entries_map(before).remove(key@)[k] by {
                        let j = index_of_name(after, k);
                        lemma_entry(after, j);
                        let j0 = if j < i {
                            j
                        } else {
                            j + 1
                        };
                        lemma_entry(before, j0);
                    }
                    assert(entries_map(after) =~= entries_map(before).remove(key@));
                }
                Some(entry.1)
            },
            None => {
                proof {
                    assert(entries_map(before) =~= entries_map(before).remove(key@));
                }
                None
            },
        }
    }

    /// The number of bindings.
    pub fn len(&self) -> (r: usize)
        requires
            self.wf(),
        ensures
            r == self@.dom().len(),
            self@.dom().finite(),
    {
        proof {
            lemma_entries_count(self.entries@);
        }
        self.entries.len()
    }
}

/// A list without a repeated name stands for a map with as many keys as
/// the list has entries.
pub proof fn lemma_entries_count<V>(entries: Seq<(String, V)>)
    requires
        distinct_names(entries),
    ensures
        entries_map(entries).dom().finite(),
        entries_map(entries).dom().len() == entries.len(),
    decreases entries.len(),
{
    if entries.len() == 0 {
        assert(entries_map(entries).dom() =~= Set::<Seq<char>>::empty());
    } else {
        let shorter = entries.drop_last();
        let last = entries.last();
        assert forall|i: int, j: int| 0 <= i < j < shorter.len() implies (#[trigger] shorter[i]).0@
            != (#[trigger] shorter[j]).0@ by {
            assert(entries[i].0@ != entries[j].0@);
        }
        lemma_entries_count(shorter);
        assert(!has_name(shorter, last.0@)) by {
            if has_name(shorter, last.0@) {
                let j = index_of_name(shorter, last.0@);
                assert(entries[j].0@ != entries[entries.len() - 1].0@);
            }
        }
        assert(entries_map(entries).dom() =~= entries_map(shorter).dom().insert(last.0@)) by {
            assert forall|k: Seq<char>| #[trigger]
                entries_map(entries).dom().contains(k) == entries_map(shorter).dom().insert(
                    last.0@,
                ).contains(k) by {
                if has_name(entries, k) {
                    let j = index_of_name(entries, k);
                    if j < shorter.len() {
                        assert(shorter[j].0@ == k);
                    }
                }
                if has_name(shorter, k) {
                    let j = index_of_name(shorter, k);
                    assert(entries[j].0@ == k);
                }
                if k == last.0@ {
                    assert(entries[entries.len() - 1].0@ == k);
                }
            }
        }
    }
}

} // verus!
