//! A map with text as its keys.

use vstd::prelude::*;
use vstd::string::*;

verus! {

/// A map from text to values, kept in the order in which the keys came.
pub struct StringMap<V> {
    entries: Vec<(String, V)>,
}

/// Whether the entry of `key` stands at `i`.
spec fn is_at<V>(entries: Seq<(String, V)>, key: Seq<char>, i: int) -> bool {
    0 <= i < entries.len() && entries[i].0@ == key
}

/// What a row of entries maps to what.
spec fn as_map<V>(entries: Seq<(String, V)>) -> Map<Seq<char>, V> {
    Map::new(
        |key: Seq<char>| exists|i: int| is_at(entries, key, i),
        |key: Seq<char>| entries[choose|i: int| is_at(entries, key, i)].1,
    )
}

/// Whether no key occurs twice.
spec fn is_unique<V>(entries: Seq<(String, V)>) -> bool {
    forall|i: int, j: int|
        0 <= i < entries.len() && 0 <= j < entries.len() && (#[trigger] entries[i]).0@ == (
        #[trigger] entries[j]).0@ ==> i == j
}

/// Whether `keys` lists each key of a set once.
pub open spec fn lists(keys: Seq<Seq<char>>, set: Set<Seq<char>>) -> bool {
    keys.no_duplicates() && keys.to_set() == set
}

/// Texts, each by its characters.
pub open spec fn texts(keys: Seq<String>) -> Seq<Seq<char>> {
    Seq::new(keys.len(), |i: int| keys[i]@)
}

impl<V> View for StringMap<V> {
    type V = Map<Seq<char>, V>;

    closed spec fn view(&self) -> Map<Seq<char>, V> {
        as_map(self.entries@)
    }
}

impl<V> StringMap<V> {
    /// No key occurs twice.
    pub closed spec fn wf(&self) -> bool {
        is_unique(self.entries@)
    }

    /// An empty map.
    pub fn new() -> (map: StringMap<V>)
        ensures
            map.wf(),
            map@ == Map::<Seq<char>, V>::empty(),
    {
        let map = StringMap { entries: Vec::new() };
        assert(map@ =~= Map::<Seq<char>, V>::empty());
        map
    }

    proof fn lemma_entry(entries: Seq<(String, V)>, i: int)
        requires
            is_unique(entries),
            0 <= i < entries.len(),
        ensures
            as_map(entries).contains_key(entries[i].0@),
            as_map(entries)[entries[i].0@] == entries[i].1,
    {
        let key = entries[i].0@;
        assert(is_at(entries, key, i));
        let j = choose|j: int| is_at(entries, key, j);
        assert(is_at(entries, key, j));
        assert(entries[i].0@ == entries[j].0@);
    }

    proof fn lemma_len(entries: Seq<(String, V)>)
        requires
            is_unique(entries),
        ensures
            as_map(entries).dom().finite(),
            as_map(entries).dom().len() == entries.len(),
        decreases entries.len(),
    {
        if entries.len() == 0 {
            assert(as_map(entries).dom() =~= Set::empty());
        } else {
            let front = entries.drop_last();
            let key = entries.last().0@;
            assert forall|i: int, j: int|
                0 <= i < front.len() && 0 <= j < front.len() && (#[trigger] front[i]).0@ == (
                #[trigger] front[j]).0@ implies i == j by {
                assert(entries[i] == front[i] && entries[j] == front[j]);
            }
            Self::lemma_len(front);
            assert(!as_map(front).contains_key(key)) by {
                if as_map(front).contains_key(key) {
                    let i = choose|i: int| is_at(front, key, i);
                    assert(entries[i].0@ == entries[entries.len() - 1].0@);
                }
            }
            assert(as_map(entries).dom() =~= as_map(front).dom().insert(key)) by {
                assert forall|k: Seq<char>|
                    as_map(entries).contains_key(k) implies as_map(front).dom().insert(
                    key,
                ).contains(k) by {
                    let i = choose|i: int| is_at(entries, k, i);
                    if i < front.len() {
                        assert(is_at(front, k, i));
                    }
                }
                assert forall|k: Seq<char>|
                    as_map(front).dom().insert(key).contains(k) implies as_map(
                    entries,
                ).contains_key(k) by {
                    if k == key {
                        assert(is_at(entries, k, entries.len() - 1));
                    } else {
                        let i = choose|i: int| is_at(front, k, i);
                        assert(is_at(entries, k, i));
                    }
                }
            }
        }
    }

    /// How many keys there are.
    pub fn len(&self) -> (n: usize)
        requires
            self.wf(),
        ensures
            self@.dom().finite(),
            n == self@.dom().len(),
    {
        proof {
            Self::lemma_len(self.entries@);
        }
        self.entries.len()
    }

    /// Whether there is no key.
    pub fn is_empty(&self) -> (empty: bool)
        requires
            self.wf(),
        ensures
            empty == (self@ == Map::<Seq<char>, V>::empty()),
    {
        proof {
            Self::lemma_len(self.entries@);
            if self@.dom().len() == 0 {
                assert(self@.dom() =~= Set::empty());
                assert(self@ =~= Map::empty());
            }
        }
        self.entries.len() == 0
    }

    /// Where the entry of a key stands.
    fn find(&self, key: &str) -> (at: Option<usize>)
        requires
            self.wf(),
        ensures
            match at {
                Some(i) => i < self.entries@.len() && self.entries@[i as int].0@ == key@
                    && self@.contains_key(key@) && self@[key@] == self.entries@[i as int].1,
                None => !self@.contains_key(key@),
            },
    {
        let wanted = key.to_owned();
        let mut i: usize = 0;
        while i < self.entries.len()
            invariant
                self.wf(),
                wanted@ == key@,
                i <= self.entries@.len(),
                forall|j: int| 0 <= j < i ==> (#[trigger] self.entries@[j]).0@ != key@,
            decreases self.entries.len() - i,
        {
            if self.entries[i].0 == wanted {
                proof {
                    Self::lemma_entry(self.entries@, i as int);
                }
                return Some(i);
            }
            i = i + 1;
        }
        assert(!self@.contains_key(key@)) by {
            if self@.contains_key(key@) {
                let j = choose|j: int| is_at(self.entries@, key@, j);
                assert(self.entries@[j].0@ == key@);
            }
        }
        None
    }

    /// Whether there is such a key.
    pub fn contains_key(&self, key: &str) -> (yes: bool)
        requires
            self.wf(),
        ensures
            yes == self@.contains_key(key@),
    {
        self.find(key).is_some()
    }

    /// The value of a key.
    pub fn get(&self, key: &str) -> (value: Option<&V>)
        requires
            self.wf(),
        ensures
            match value {
                Some(v) => self@.contains_key(key@) && *v == self@[key@],
                None => !self@.contains_key(key@),
            },
    {
        match self.find(key) {
            None => None,
            Some(i) => Some(&self.entries[i].1),
        }
    }

    proof fn lemma_update(entries: Seq<(String, V)>, i: int, value: V)
        requires
            is_unique(entries),
            0 <= i < entries.len(),
        ensures
            is_unique(entries.update(i, (entries[i].0, value))),
            as_map(entries.update(i, (entries[i].0, value))) == as_map(entries).insert(
                entries[i].0@,
                value,
            ),
    {
        let key = entries[i].0@;
        let after = entries.update(i, (entries[i].0, value));
        assert forall|a: int, b: int|
            0 <= a < after.len() && 0 <= b < after.len() && (#[trigger] after[a]).0@ == (
            #[trigger] after[b]).0@ implies a == b by {
            assert(entries[a].0@ == entries[b].0@);
        }
        assert forall|k: Seq<char>|
            #![trigger as_map(after).dom().contains(k)]
            #![trigger as_map(after)[k]]
            as_map(after).contains_key(k) == as_map(entries).insert(key, value).contains_key(k)
                && (as_map(after).contains_key(k) ==> as_map(after)[k] == as_map(entries).insert(
                key,
                value,
            )[k]) by {
            if as_map(after).contains_key(k) {
                let j = choose|j: int| is_at(after, k, j);
                assert(is_at(entries, k, j));
                Self::lemma_entry(after, j);
                Self::lemma_entry(entries, j);
                if k == key {
                    assert(entries[j].0@ == entries[i].0@);
                }
            }
            if as_map(entries).contains_key(k) {
                let j = choose|j: int| is_at(entries, k, j);
                assert(is_at(after, k, j));
            }
            assert(is_at(after, key, i));
        }
        assert(as_map(after) =~= as_map(entries).insert(key, value));
    }

    /// The value of a key, to be changed in place.
    pub fn get_mut(&mut self, key: &str) -> (value: Option<&mut V>)
        requires
            old(self).wf(),
        ensures
            final(self).wf(),
            match value {
                Some(v) => {
                    &&& old(self)@.contains_key(key@)
                    &&& *v == old(self)@[key@]
                    &&& final(self)@ == old(self)@.insert(key@, *final(v))
                },
                None => !old(self)@.contains_key(key@) && final(self)@ == old(self)@,
            },
    {
        match self.find(key) {
            None => None,
            Some(i) => {
                proof {
                    assert forall|v: V| #[trigger]
                        as_map(self.entries@.update(i as int, (self.entries@[i as int].0, v)))
                            == as_map(self.entries@).insert(key@, v) && is_unique(
                            self.entries@.update(i as int, (self.entries@[i as int].0, v)),
                        ) by {
                        Self::lemma_update(self.entries@, i as int, v);
                    }
                }
                let entry = &mut self.entries[i];
                Some(&mut entry.1)
            },
        }
    }

    /// Maps a key to a value.
    pub fn insert(&mut self, key: String, value: V)
        requires
            old(self).wf(),
        ensures
            final(self).wf(),
            final(self)@ == old(self)@.insert(key@, value),
    {
        match self.find(key.as_str()) {
            Some(i) => {
                proof {
                    Self::lemma_update(self.entries@, i as int, value);
                }
                let entry = &mut self.entries[i];
                entry.1 = value;
            },
            None => {
                let ghost before = self.entries@;
                self.entries.push((key, value));
                proof {
                    let after = self.entries@;
                    assert forall|a: int, b: int|
                        0 <= a < after.len() && 0 <= b < after.len() && (#[trigger] after[a]).0@
                            == (#[trigger] after[b]).0@ implies a == b by {
                        if a < before.len() {
                            assert(is_at(before, before[a].0@, a));
                        }
                        if b < before.len() {
                            assert(is_at(before, before[b].0@, b));
                        }
                    }
                    assert forall|k: Seq<char>|
                        #![trigger as_map(after).dom().contains(k)]
                        #![trigger as_map(after)[k]]
                        as_map(after).contains_key(k) == as_map(before).insert(
                            key@,
                            value,
                        ).contains_key(k) && (as_map(after).contains_key(k) ==> as_map(after)[k]
                            == as_map(before).insert(key@, value)[k]) by {
                        if as_map(after).contains_key(k) {
                            let j = choose|j: int| is_at(after, k, j);
                            Self::lemma_entry(after, j);
                            if j < before.len() {
                                assert(is_at(before, k, j));
                                Self::lemma_entry(before, j);
                            }
                        }
                        if as_map(before).contains_key(k) {
                            let j = choose|j: int| is_at(before, k, j);
                            assert(is_at(after, k, j));
                        }
                        assert(is_at(after, key@, before.len() as int));
                    }
                    assert(as_map(after) =~= as_map(before).insert(key@, value));
                }
            },
        }
    }

    /// Forgets a key and gives its value.
    pub fn remove(&mut self, key: &str) -> (value: Option<V>)
        requires
            old(self).wf(),
        ensures
            final(self).wf(),
            final(self)@ == old(self)@.remove(key@),
            match value {
                Some(v) => old(self)@.contains_key(key@) && v == old(self)@[key@],
                None => !old(self)@.contains_key(key@),
            },
    {
        match self.find(key) {
            None => {
                assert(self@.remove(key@) =~= self@);
                None
            },
            Some(i) => {
                let ghost before = self.entries@;
                let entry = self.entries.remove(i);
                proof {
                    let after = self.entries@;
                    assert forall|a: int, b: int|
                        0 <= a < after.len() && 0 <= b < after.len() && (#[trigger] after[a]).0@
                            == (#[trigger] after[b]).0@ implies a == b by {
                        let a0 = if a < i { a } else { a + 1 };
                        let b0 = if b < i { b } else { b + 1 };
                        assert(before[a0].0@ == before[b0].0@);
                    }
                    assert forall|k: Seq<char>|
                        #![trigger as_map(after).dom().contains(k)]
                        #![trigger as_map(after)[k]]
                        as_map(after).contains_key(k) == as_map(before).remove(
                            key@,
                        ).contains_key(k) && (as_map(after).contains_key(k) ==> as_map(after)[k]
                            == as_map(before).remove(key@)[k]) by {
                        if as_map(after).contains_key(k) {
                            let j = choose|j: int| is_at(after, k, j);
                            let j0 = if j < i { j } else { j + 1 };
                            assert(after[j] == before[j0]);
                            assert(is_at(before, k, j0));
                            Self::lemma_entry(after, j);
                            Self::lemma_entry(before, j0);
                            if k == key@ {
                                assert(before[j0].0@ == before[i as int].0@);
                            }
                        }
                        if as_map(before).contains_key(k) && k != key@ {
                            let j = choose|j: int| is_at(before, k, j);
                            let j1 = if j < i { j } else { j - 1 };
                            assert(after[j1] == before[j]);
                            assert(is_at(after, k, j1));
                        }
                    }
                    assert(as_map(after) =~= as_map(before).remove(key@));
                }
                Some(entry.1)
            },
        }
    }

    /// The keys, in no particular order.
    pub fn keys(&self) -> (keys: Vec<String>)
        requires
            self.wf(),
        ensures
            lists(texts(keys@), self@.dom()),
    {
        let mut keys: Vec<String> = Vec::new();
        let mut i: usize = 0;
        while i < self.entries.len()
            invariant
                i <= self.entries@.len(),
                keys@.len() == i,
                forall|j: int| 0 <= j < i ==> (#[trigger] keys@[j])@ == self.entries@[j].0@,
            decreases self.entries.len() - i,
        {
            keys.push(self.entries[i].0.clone());
            i = i + 1;
        }
        proof {
            let row = texts(keys@);
            assert forall|a: int, b: int|
                0 <= a < row.len() && 0 <= b < row.len() && a != b implies row[a] != row[b] by {
                assert(keys@[a]@ == self.entries@[a].0@ && keys@[b]@ == self.entries@[b].0@);
            }
            assert(row.to_set() =~= self@.dom()) by {
                assert forall|k: Seq<char>| row.to_set().contains(k) implies self@.contains_key(
                    k,
                ) by {
                    let j = choose|j: int| 0 <= j < row.len() && row[j] == k;
                    assert(keys@[j]@ == self.entries@[j].0@);
                    assert(is_at(self.entries@, k, j));
                }
                assert forall|k: Seq<char>| self@.contains_key(k) implies row.to_set().contains(
                    k,
                ) by {
                    let j = choose|j: int| is_at(self.entries@, k, j);
                    assert(keys@[j]@ == self.entries@[j].0@);
                    assert(row[j] == k);
                }
            }
        }
        keys
    }
}

} // verus!
