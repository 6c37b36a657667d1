use vstd::prelude::*;

verus! {

/// The map that a sequence of `(name, value)` entries describes: each entry
/// binds its name to its value, a later entry overriding an earlier one.
pub open spec fn map_of<V>(entries: Seq<(String, V)>) -> Map<Seq<char>, V>
    decreases entries.len(),
{
    if entries.len() == 0 {
        Map::empty()
    } else {
        map_of(entries.drop_last()).insert(entries.last().0@, entries.last().1)
    }
}

/// The names of a sequence of entries, in order.
pub open spec fn names_of<V>(entries: Seq<(String, V)>) -> Seq<Seq<char>> {
    entries.map_values(|e: (String, V)| e.0@)
}

/// A map from names to values, kept as a list of entries in which no name
/// occurs twice.
pub struct NamedMap<V> {
    entries: Vec<(String, V)>,
}

impl<V> View for NamedMap<V> {
    type V = Map<Seq<char>, V>;

    closed spec fn view(&self) -> Map<Seq<char>, V> {
        map_of(self.entries@)
    }
}

proof fn lemma_map_of_contains<V>(entries: Seq<(String, V)>, name: Seq<char>)
    ensures
        map_of(entries).contains_key(name) <==> names_of(entries).contains(name),
    decreases entries.len(),
{
    if entries.len() == 0 {
        assert(names_of(entries).len() == 0);
    } else {
        let init = entries.drop_last();
        lemma_map_of_contains(init, name);
        let names = names_of(entries);
        assert(names =~= names_of(init).push(entries.last().0@));
        if names_of(init).contains(name) {
            let j = choose|j: int| 0 <= j < names_of(init).len() && names_of(init)[j] == name;
            assert(names[j] == name);
        }
        if name == entries.last().0@ {
            assert(names[names.len() - 1] == name);
        }
        if names.contains(name) {
            let j = choose|j: int| 0 <= j < names.len() && names[j] == name;
            if j < init.len() {
                assert(names_of(init)[j] == name);
            }
        }
    }
}

proof fn lemma_map_of_at<V>(entries: Seq<(String, V)>, i: int)
    requires
        names_of(entries).no_duplicates(),
        0 <= i < entries.len(),
    ensures
        map_of(entries).contains_key(entries[i].0@),
        map_of(entries)[entries[i].0@] == entries[i].1,
    decreases entries.len(),
{
    let init = entries.drop_last();
    assert(names_of(entries) =~= names_of(init).push(entries.last().0@));
    if i < entries.len() - 1 {
        assert(names_of(init).no_duplicates()) by {
            assert forall|a: int, b: int|
                0 <= a < names_of(init).len() && 0 <= b < names_of(init).len() && a != b
                implies names_of(init)[a] != names_of(init)[b] by {
                assert(names_of(init)[a] == names_of(entries)[a]);
                assert(names_of(init)[b] == names_of(entries)[b]);
            }
        }
        lemma_map_of_at(init, i);
        assert(names_of(entries)[i] != names_of(entries)[entries.len() - 1]);
    }
}

proof fn lemma_names_no_duplicates_init<V>(entries: Seq<(String, V)>)
    requires
        names_of(entries).no_duplicates(),
        entries.len() > 0,
    ensures
        names_of(entries.drop_last()).no_duplicates(),
        !names_of(entries.drop_last()).contains(entries.last().0@),
{
    let init = entries.drop_last();
    assert(names_of(entries) =~= names_of(init).push(entries.last().0@));
    assert forall|a: int, b: int|
        0 <= a < names_of(init).len() && 0 <= b < names_of(init).len() && a != b
        implies names_of(init)[a] != names_of(init)[b] by {
        assert(names_of(init)[a] == names_of(entries)[a]);
        assert(names_of(init)[b] == names_of(entries)[b]);
    }
    if names_of(init).contains(entries.last().0@) {
        let j = choose|j: int| 0 <= j < names_of(init).len() && names_of(init)[j] == entries.last().0@;
        assert(names_of(entries)[j] == names_of(entries)[entries.len() - 1]);
    }
}

proof fn lemma_map_of_update<V>(entries: Seq<(String, V)>, i: int, entry: (String, V))
    requires
        names_of(entries).no_duplicates(),
        0 <= i < entries.len(),
        entry.0@ == entries[i].0@,
    ensures
        names_of(entries.update(i, entry)) =~= names_of(entries),
        map_of(entries.update(i, entry)) =~= map_of(entries).insert(entry.0@, entry.1),
    decreases entries.len(),
{
    let updated = entries.update(i, entry);
    assert(names_of(updated) =~= names_of(entries));
    let init = entries.drop_last();
    lemma_names_no_duplicates_init(entries);
    if i == entries.len() - 1 {
        assert(updated.drop_last() =~= init);
    } else {
        assert(updated.drop_last() =~= init.update(i, entry));
        lemma_map_of_update(init, i, entry);
        lemma_map_of_contains(init, entry.0@);
        assert(names_of(init)[i] == entry.0@);
        assert(entries.last().0@ != entry.0@);
    }
}

impl<V> NamedMap<V> {
    /// No name occurs twice among the entries.
    #[verifier::type_invariant]
    spec fn wf(&self) -> bool {
        names_of(self.entries@).no_duplicates()
    }

    /// The names bound in the map, in the order in which they were first bound.
    pub closed spec fn names(&self) -> Seq<Seq<char>> {
        names_of(self.entries@)
    }

    /// An empty map.
    pub fn new() -> (m: Self)
        ensures
            m@ == Map::<Seq<char>, V>::empty(),
            m.names() == Seq::<Seq<char>>::empty(),
    {
        let entries: Vec<(String, V)> = Vec::new();
        assert(names_of(entries@) =~= Seq::<Seq<char>>::empty());
        NamedMap { entries }
    }

    /// The entries, in the order in which their names were first inserted.
    pub fn entries(&self) -> (r: &Vec<(String, V)>)
        ensures
            map_of(r@) == self@,
            names_of(r@) == self.names(),
            names_of(r@).no_duplicates(),
            r@.len() == self@.len(),
    {
        proof {
            use_type_invariant(self);
            lemma_map_of_len(self.entries@);
        }
        &self.entries
    }

    fn find(&self, name: &String) -> (r: Option<usize>)
        ensures
            match r {
                Some(i) => i < self.entries@.len() && self.entries@[i as int].0@ == name@,
                None => !self@.contains_key(name@),
            },
    {
        proof {
            use_type_invariant(self);
        }
        let mut i: usize = 0;
        while i < self.entries.len()
            invariant
                i <= self.entries@.len(),
                forall|j: int| 0 <= j < i ==> self.entries@[j].0@ != name@,
            decreases self.entries@.len() - i,
        {
            if self.entries[i].0 == *name {
                return Some(i);
            }
            i = i + 1;
        }
        proof {
            lemma_map_of_contains(self.entries@, name@);
            if names_of(self.entries@).contains(name@) {
                let j = choose|j: int|
                    0 <= j < names_of(self.entries@).len() && names_of(self.entries@)[j] == name@;
                assert(self.entries@[j].0@ == name@);
            }
        }
        None
    }

    /// The value bound to `name`, if any.
    pub fn get(&self, name: &String) -> (r: Option<V>)
        where
            V: Copy,
        ensures
            r == (if self@.contains_key(name@) {
                Some(self@[name@])
            } else {
                None
            }),
    {
        proof {
            use_type_invariant(self);
        }
        match self.find(name) {
            Some(i) => {
                proof {
                    lemma_map_of_at(self.entries@, i as int);
                }
                Some(self.entries[i].1)
            },
            None => None,
        }
    }

    /// Binds `name` to `value`, replacing the value it was bound to before.
    pub fn insert(&mut self, name: String, value: V)
        ensures
            final(self)@ == old(self)@.insert(name@, value),
            final(self).names() == (if old(self)@.contains_key(name@) {
                old(self).names()
            } else {
                old(self).names().push(name@)
            }),
    {
        proof {
            use_type_invariant(&*self);
        }
        let found = self.find(&name);
        let mut entries: Vec<(String, V)> = Vec::new();
        std::mem::swap(&mut entries, &mut self.entries);
        let ghost before = entries@;
        match found {
            Some(i) => {
                proof {
                    lemma_map_of_update(before, i as int, (name, value));
                    lemma_map_of_at(before, i as int);
                }
                entries.set(i, (name, value));
            },
            None => {
                proof {
                    lemma_map_of_contains(before, name@);
                }
                entries.push((name, value));
                proof {
                    assert(entries@.drop_last() =~= before);
                    assert(names_of(entries@) =~= names_of(before).push(name@));
                }
            },
        }
        self.entries = entries;
    }
}

proof fn lemma_map_of_len<V>(entries: Seq<(String, V)>)
    requires
        names_of(entries).no_duplicates(),
    ensures
        map_of(entries).dom().finite(),
        map_of(entries).len() == entries.len(),
    decreases entries.len(),
{
    if entries.len() > 0 {
        lemma_names_no_duplicates_init(entries);
        lemma_map_of_len(entries.drop_last());
        lemma_map_of_contains(entries.drop_last(), entries.last().0@);
    }
}

} // verus!
