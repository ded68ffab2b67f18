//! A map from names to values that remembers the order in which its names
//! were first inserted.

use vstd::prelude::*;

verus! {

/// The position of the first occurrence of `key` in `keys`, if there is one.
pub open spec fn index_of(keys: Seq<Seq<char>>, key: Seq<char>) -> Option<int>
    decreases keys.len(),
{
    if keys.len() == 0 {
        None
    } else {
        match index_of(keys.drop_last(), key) {
            Some(i) => Some(i),
            None => if keys.last() == key {
                Some(keys.len() - 1)
            } else {
                None
            },
        }
    }
}

/// Whether no name occurs twice in `keys`.
pub open spec fn distinct(keys: Seq<Seq<char>>) -> bool {
    forall|i: int, j: int| 0 <= i < j < keys.len() ==> keys[i] != keys[j]
}

/// `index_of` finds a key exactly when it occurs, and then at its first
/// position.
pub proof fn lemma_index_of(keys: Seq<Seq<char>>, key: Seq<char>)
    ensures
        index_of(keys, key) is Some <==> keys.contains(key),
        index_of(keys, key) is Some ==> {
            let i = index_of(keys, key).unwrap();
            &&& 0 <= i < keys.len()
            &&& keys[i] == key
            &&& forall|j: int| 0 <= j < i ==> keys[j] != key
        },
    decreases keys.len(),
{
    if keys.len() > 0 {
        let front = keys.drop_last();
        lemma_index_of(front, key);
        assert forall|j: int| 0 <= j < front.len() implies front[j] == keys[j] by {}
        if front.contains(key) {
            let w = choose|w: int| 0 <= w < front.len() && front[w] == key;
            assert(keys[w] == key);
        } else if keys.last() == key {
            assert(keys[keys.len() - 1] == key);
            assert forall|j: int| 0 <= j < keys.len() - 1 implies keys[j] != key by {
                assert(front[j] == keys[j]);
                assert(!front.contains(front[j]) || front[j] != key);
            }
        } else {
            assert forall|j: int| 0 <= j < keys.len() implies keys[j] != key by {
                if j < keys.len() - 1 {
                    assert(front[j] == keys[j]);
                    assert(!front.contains(front[j]) || front[j] != key);
                }
            }
        }
    }
}

/// An insertion-ordered map from names to values of type `V`.
#[derive(Debug, PartialEq)]
pub struct KeyMap<V> {
    entries: Vec<(String, V)>,
}

impl<V> KeyMap<V> {
    /// Every map is well formed.
    #[verifier::type_invariant]
    spec fn inv(self) -> bool {
        self.wf()
    }

    /// No name occurs twice.
    pub closed spec fn wf(self) -> bool {
        distinct(self.keys())
    }

    /// The names, in the order of their first insertion.
    pub closed spec fn keys(self) -> Seq<Seq<char>> {
        Self::names(self.entries@)
    }

    /// The names of a list of entries.
    spec fn names(entries: Seq<(String, V)>) -> Seq<Seq<char>> {
        entries.map_values(|e: (String, V)| e.0@)
    }

    /// The values, each at the position of its name.
    pub closed spec fn values(self) -> Seq<V> {
        self.entries@.map_values(|e: (String, V)| e.1)
    }

    /// Every name has a value, and in a well-formed map no name occurs twice.
    pub proof fn lemma_wf(self)
        ensures
            self.keys().len() == self.values().len(),
            self.wf() ==> distinct(self.keys()),
    {
    }

    /// An empty map.
    pub fn new() -> (r: Self)
        ensures
            r.wf(),
            r.keys() == Seq::<Seq<char>>::empty(),
            r.values() == Seq::<V>::empty(),
    {
        let r = KeyMap { entries: Vec::new() };
        assert(r.keys() =~= Seq::<Seq<char>>::empty());
        assert(r.values() =~= Seq::<V>::empty());
        r
    }

    /// The number of names.
    pub fn len(&self) -> (r: usize)
        ensures
            self.wf(),
            r == self.keys().len(),
            r == self.values().len(),
    {
        proof {
            use_type_invariant(self);
        }
        self.entries.len()
    }

    /// Whether the map holds no name.
    pub fn is_empty(&self) -> (r: bool)
        ensures
            r == (self.keys().len() == 0),
    {
        self.entries.len() == 0
    }

    /// The position of `key` among the names.
    pub fn position(&self, key: &str) -> (r: Option<usize>)
        ensures
            self.wf(),
            match r {
                Some(i) => index_of(self.keys(), key@) == Some(i as int) && i < self.keys().len(),
                None => index_of(self.keys(), key@) is None,
            },
    {
        proof {
            use_type_invariant(self);
            lemma_index_of(self.keys(), key@);
        }
        let wanted = key.to_owned();
        let mut i: usize = 0;
        while i < self.entries.len() && self.entries[i].0 != wanted
            invariant
                i <= self.entries@.len(),
                wanted@ == key@,
                forall|j: int| 0 <= j < i ==> self.keys()[j] != key@,
            decreases self.entries@.len() - i,
        {
            i += 1;
        }
        if i < self.entries.len() {
            assert(self.keys()[i as int] == key@);
            Some(i)
        } else {
            None
        }
    }

    /// Whether `key` is one of the names.
    pub fn contains_key(&self, key: &str) -> (r: bool)
        ensures
            r == self.keys().contains(key@),
    {
        proof {
            lemma_index_of(self.keys(), key@);
        }
        self.position(key).is_some()
    }

    /// The value that stands under `key`.
    pub fn get(&self, key: &str) -> (r: Option<&V>)
        ensures
            self.wf(),
            match index_of(self.keys(), key@) {
                Some(i) => r == Some(&self.values()[i]),
                None => r is None,
            },
    {
        match self.position(key) {
            Some(i) => Some(&self.entries[i].1),
            None => None,
        }
    }

    /// The name at position `i`.
    pub fn key_at(&self, i: usize) -> (r: &str)
        requires
            i < self.keys().len(),
        ensures
            r@ == self.keys()[i as int],
    {
        self.entries[i].0.as_str()
    }

    /// The value at position `i`.
    pub fn value_at(&self, i: usize) -> (r: &V)
        requires
            i < self.values().len(),
        ensures
            *r == self.values()[i as int],
    {
        &self.entries[i].1
    }

    /// Puts `value` under `key`. A name that is already there keeps its
    /// position and gets the new value; a new name goes to the end.
    pub fn insert(&mut self, key: String, value: V)
        ensures
            final(self).wf(),
            match index_of(old(self).keys(), key@) {
                Some(i) => {
                    &&& final(self).keys() == old(self).keys()
                    &&& final(self).values() == old(self).values().update(i, value)
                },
                None => {
                    &&& final(self).keys() == old(self).keys().push(key@)
                    &&& final(self).values() == old(self).values().push(value)
                },
            },
    {
        proof {
            use_type_invariant(&*self);
            lemma_index_of(self.keys(), key@);
        }
        let found = self.position(key.as_str());
        let ghost keys_before = self.keys();
        let ghost values_before = self.values();
        let mut entries: Vec<(String, V)> = Vec::new();
        std::mem::swap(&mut entries, &mut self.entries);
        match found {
            Some(i) => {
                entries.set(i, (key, value));
                assert(Self::names(entries@) =~= keys_before);
                self.entries = entries;
                assert(self.values() =~= values_before.update(i as int, value));
            },
            None => {
                entries.push((key, value));
                let ghost keys_after = Self::names(entries@);
                assert(keys_after =~= keys_before.push(key@));
                assert forall|a: int, b: int| 0 <= a < b < keys_after.len() implies keys_after[a]
                    != keys_after[b] by {
                    if b < keys_before.len() {
                        assert(keys_before[a] == keys_after[a]);
                        assert(keys_before[b] == keys_after[b]);
                    } else {
                        assert(keys_before[a] == keys_after[a]);
                        assert(keys_before.contains(keys_before[a]));
                    }
                }
                self.entries = entries;
                assert(self.values() =~= values_before.push(value));
            },
        }
    }
}

impl<V> Default for KeyMap<V> {
    /// An empty map.
    fn default() -> (r: Self)
        ensures
            r.wf(),
            r.keys() == Seq::<Seq<char>>::empty(),
            r.values() == Seq::<V>::empty(),
    {
        KeyMap::new()
    }
}

impl<V: Clone> Clone for KeyMap<V> {
    /// A map with the same names in the same order, each with a clone of its
    /// value.
    fn clone(&self) -> (r: Self)
        ensures
            r.wf(),
            r.keys() == self.keys(),
            r.values().len() == self.values().len(),
            forall|i: int|
                0 <= i < self.values().len() ==> cloned(
                    self.values()[i],
                    #[trigger] r.values()[i],
                ),
    {
        proof {
            use_type_invariant(self);
        }
        let mut entries: Vec<(String, V)> = Vec::new();
        let mut i: usize = 0;
        while i < self.entries.len()
            invariant
                i <= self.entries@.len(),
                entries@.len() == i,
                forall|k: int| 0 <= k < i ==> (#[trigger] entries@[k]).0@ == self.entries@[k].0@,
                forall|k: int| 0 <= k < i ==> cloned(self.entries@[k].1, (#[trigger] entries@[k]).1),
            decreases self.entries@.len() - i,
        {
            entries.push((self.entries[i].0.clone(), self.entries[i].1.clone()));
            i += 1;
        }
        assert(Self::names(entries@) =~= self.keys());
        let r = KeyMap { entries };
        assert forall|i: int| 0 <= i < self.values().len() implies cloned(
            self.values()[i],
            #[trigger] r.values()[i],
        ) by {
            assert(r.values()[i] == entries@[i].1);
        }
        r
    }
}

impl<V: View> KeyMap<V> {
    /// The names of the view are the names of the map.
    pub proof fn lemma_view_keys(self)
        ensures
            self@.len() == self.keys().len(),
            self@.map_values(|e: (Seq<char>, V::V)| e.0) == self.keys(),
    {
        assert(self@.map_values(|e: (Seq<char>, V::V)| e.0) =~= self.keys());
    }
}

impl<V: View> View for KeyMap<V> {
    type V = Seq<(Seq<char>, V::V)>;

    /// The pairs of a name and the view of its value, in insertion order.
    open spec fn view(&self) -> Seq<(Seq<char>, V::V)> {
        Seq::new(self.keys().len(), |i: int| (self.keys()[i], self.values()[i]@))
    }
}

} // verus!
