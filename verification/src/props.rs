use vstd::prelude::*;
use crate::text::{utf8, str_eq};
use crate::assoc::{distinct_keys, has_key, key_index, pairs_map, lemma_pairs_map_at, lemma_pairs_map_push, lemma_pairs_map_update};

verus! {

/// A property as contracts see it: the bytes of its key and of its value.
pub type Pair = (Seq<u8>, Seq<u8>);

/// The properties of a node or of an edge: a map from keys to values, both
/// strings, that keeps its entries in the order in which their keys first
/// came.
#[derive(Debug)]
pub struct PropertyMap {
    entries: Vec<(String, String)>,
}

impl PropertyMap {
    /// The entries in order, as bytes.
    pub closed spec fn pairs(&self) -> Seq<Pair> {
        self.entries@.map_values(|entry: (String, String)| (utf8(entry.0@), utf8(entry.1@)))
    }

    #[verifier::type_invariant]
    spec fn keys_are_distinct(&self) -> bool {
        distinct_keys(self.pairs())
    }

    /// The map that the entries stand for.
    pub open spec fn view(&self) -> Map<Seq<u8>, Seq<u8>> {
        pairs_map(self.pairs())
    }

    /// The empty map.
    pub fn new() -> (map: Self)
        ensures
            map.pairs() == Seq::<Pair>::empty(),
            map@ == Map::<Seq<u8>, Seq<u8>>::empty(),
    {
        let map = PropertyMap { entries: Vec::new() };
        assert(map.pairs() =~= Seq::<Pair>::empty());
        assert(map@ =~= Map::<Seq<u8>, Seq<u8>>::empty());
        map
    }

    /// The number of entries.
    pub fn len(&self) -> (n: usize)
        ensures
            n == self.pairs().len(),
            distinct_keys(self.pairs()),
    {
        proof {
            use_type_invariant(self);
        }
        self.entries.len()
    }

    /// The key of the entry at `index`.
    pub fn key_at(&self, index: usize) -> (key: &String)
        requires
            index < self.pairs().len(),
        ensures
            utf8(key@) == self.pairs()[index as int].0,
    {
        &self.entries[index].0
    }

    /// The value of the entry at `index`.
    pub fn value_at(&self, index: usize) -> (value: &String)
        requires
            index < self.pairs().len(),
        ensures
            utf8(value@) == self.pairs()[index as int].1,
    {
        &self.entries[index].1
    }

    fn take_entries(&mut self) -> (entries: Vec<(String, String)>)
        ensures
            entries == old(self).entries,
            final(self).entries@.len() == 0,
    {
        let mut entries: Vec<(String, String)> = Vec::new();
        core::mem::swap(&mut self.entries, &mut entries);
        entries
    }

    fn position(&self, key: &str) -> (found: Option<usize>)
        ensures
            distinct_keys(self.pairs()),
            match found {
                Some(i) => i < self.pairs().len() && self.pairs()[i as int].0 == utf8(key@),
                None => !has_key(self.pairs(), utf8(key@)),
            },
    {
        proof {
            use_type_invariant(self);
        }
        let mut i: usize = 0;
        while i < self.entries.len()
            invariant
                0 <= i <= self.entries.len(),
                distinct_keys(self.pairs()),
                forall|j: int| 0 <= j < i ==> self.pairs()[j].0 != utf8(key@),
            decreases self.entries.len() - i,
        {
            if str_eq(self.entries[i].0.as_str(), key) {
                return Some(i);
            }
            i += 1;
        }
        None
    }

    /// The value under `key`, if there is one.
    pub fn get(&self, key: &str) -> (value: Option<&String>)
        ensures
            match value {
                Some(text) => self@.contains_key(utf8(key@)) && self@[utf8(key@)] == utf8(text@),
                None => !self@.contains_key(utf8(key@)),
            },
    {
        match self.position(key) {
            Some(i) => {
                proof {
                    lemma_pairs_map_at(self.pairs(), i as int);
                }
                Some(&self.entries[i].1)
            },
            None => None,
        }
    }

    /// Whether there is a value under `key`.
    pub fn contains_key(&self, key: &str) -> (found: bool)
        ensures
            found == self@.contains_key(utf8(key@)),
    {
        match self.position(key) {
            Some(i) => {
                proof {
                    lemma_pairs_map_at(self.pairs(), i as int);
                }
                true
            },
            None => false,
        }
    }

    /// Puts `value` under `key`. An entry that was there keeps its place;
    /// a new one goes to the end.
    pub fn insert(&mut self, key: String, value: String)
        ensures
            final(self)@ == old(self)@.insert(utf8(key@), utf8(value@)),
            has_key(old(self).pairs(), utf8(key@)) ==> final(self).pairs() == old(self).pairs().update(
                key_index(old(self).pairs(), utf8(key@)),
                (utf8(key@), utf8(value@)),
            ),
            !has_key(old(self).pairs(), utf8(key@)) ==> final(self).pairs() == old(self).pairs().push(
                (utf8(key@), utf8(value@)),
            ),
            distinct_keys(final(self).pairs()),
    {
        let ghost before = self.pairs();
        match self.position(key.as_str()) {
            Some(i) => {
                proof {
                    lemma_pairs_map_update(before, i as int, utf8(value@));
                    lemma_pairs_map_at(before, i as int);
                }
                let mut entries = self.take_entries();
                entries.set(i, (key, value));
                assert(entries@.map_values(|entry: (String, String)| (utf8(entry.0@), utf8(entry.1@)))
                    =~= before.update(i as int, (utf8(key@), utf8(value@))));
                self.entries = entries;
            },
            None => {
                proof {
                    lemma_pairs_map_push(before, utf8(key@), utf8(value@));
                }
                let mut entries = self.take_entries();
                entries.push((key, value));
                assert(entries@.map_values(|entry: (String, String)| (utf8(entry.0@), utf8(entry.1@)))
                    =~= before.push((utf8(key@), utf8(value@))));
                self.entries = entries;
            },
        }
    }
}

impl Clone for PropertyMap {
    fn clone(&self) -> (copy: Self)
        ensures
            copy.pairs() == self.pairs(),
            copy@ == self@,
    {
        proof {
            use_type_invariant(self);
        }
        let mut entries: Vec<(String, String)> = Vec::new();
        let mut i: usize = 0;
        while i < self.entries.len()
            invariant
                0 <= i <= self.entries.len(),
                entries@.len() == i,
                forall|j: int| 0 <= j < i ==> entries@[j] == self.entries@[j],
            decreases self.entries.len() - i,
        {
            entries.push((self.entries[i].0.clone(), self.entries[i].1.clone()));
            i += 1;
        }
        assert(entries@ =~= self.entries@);
        PropertyMap { entries }
    }
}

} // verus!
