use vstd::prelude::*;
use vstd::hash_set::StringHashSet;
use crate::text::{utf8, strings_utf8, lemma_utf8_injective};

verus! {

/// A set of strings, kept by a hash set of the standard library.
pub struct IdSet {
    inner: StringHashSet,
}

impl IdSet {
    /// The bytes of the strings of the set.
    pub closed spec fn view(&self) -> Set<Seq<u8>> {
        Set::new(|bytes: Seq<u8>| exists|s: Seq<char>| self.inner@.contains(s) && utf8(s) == bytes)
    }

    /// The empty set.
    pub fn new() -> (set: Self)
        ensures
            set@ == Set::<Seq<u8>>::empty(),
    {
        let set = IdSet { inner: StringHashSet::new() };
        assert(set@ =~= Set::<Seq<u8>>::empty());
        set
    }

    /// Adds a string.
    pub fn insert(&mut self, id: String)
        ensures
            final(self)@ == old(self)@.insert(utf8(id@)),
    {
        let ghost before = self.inner@;
        self.inner.insert(id);
        proof {
            assert forall|bytes: Seq<u8>| self@.contains(bytes) <==> old(self)@.insert(
                utf8(id@),
            ).contains(bytes) by {
                if self@.contains(bytes) {
                    let s = choose|s: Seq<char>| self.inner@.contains(s) && utf8(s) == bytes;
                    if s != id@ {
                        assert(before.contains(s));
                    }
                }
                if old(self)@.contains(bytes) {
                    let s = choose|s: Seq<char>| before.contains(s) && utf8(s) == bytes;
                    assert(self.inner@.contains(s));
                }
                if bytes == utf8(id@) {
                    assert(self.inner@.contains(id@));
                }
            }
            assert(self@ =~= old(self)@.insert(utf8(id@)));
        }
    }

    /// Whether the set holds the string.
    pub fn contains(&self, id: &str) -> (found: bool)
        ensures
            found == self@.contains(utf8(id@)),
    {
        let found = self.inner.contains(id);
        proof {
            if self@.contains(utf8(id@)) {
                let s = choose|s: Seq<char>| self.inner@.contains(s) && utf8(s) == utf8(id@);
                lemma_utf8_injective(s, id@);
            }
        }
        found
    }

    /// Whether the set holds nothing.
    pub fn is_empty(&self) -> (empty: bool)
        ensures
            empty == (self@ == Set::<Seq<u8>>::empty()),
    {
        let empty = self.inner.is_empty();
        proof {
            if empty {
                assert(self.inner@ =~= Set::<Seq<char>>::empty());
                assert(self@ =~= Set::<Seq<u8>>::empty());
            } else {
                if self@ == Set::<Seq<u8>>::empty() {
                    assert forall|s: Seq<char>| !self.inner@.contains(s) by {
                        if self.inner@.contains(s) {
                            assert(self@.contains(utf8(s)));
                        }
                    }
                    assert(self.inner@ =~= Set::<Seq<char>>::empty());
                }
            }
        }
        empty
    }

    /// The set of the strings of a list.
    pub fn from_list(items: &Vec<String>) -> (set: Self)
        ensures
            forall|bytes: Seq<u8>| set@.contains(bytes) <==> strings_utf8(items@).contains(bytes),
    {
        let mut set = IdSet::new();
        let mut i: usize = 0;
        while i < items.len()
            invariant
                0 <= i <= items.len(),
                forall|bytes: Seq<u8>|
                    set@.contains(bytes) <==> exists|j: int|
                        0 <= j < i && #[trigger] strings_utf8(items@)[j] == bytes,
            decreases items.len() - i,
        {
            let ghost before = set@;
            set.insert(items[i].clone());
            proof {
                assert forall|bytes: Seq<u8>|
                    set@.contains(bytes) <==> exists|j: int|
                        0 <= j < i + 1 && #[trigger] strings_utf8(items@)[j] == bytes by {
                    if before.contains(bytes) {
                        let j = choose|j: int|
                            0 <= j < i && #[trigger] strings_utf8(items@)[j] == bytes;
                        assert(strings_utf8(items@)[j] == bytes);
                    }
                    if bytes == utf8(items@[i as int]@) {
                        assert(strings_utf8(items@)[i as int] == bytes);
                    }
                }
            }
            i += 1;
        }
        proof {
            assert forall|bytes: Seq<u8>| set@.contains(bytes) <==> strings_utf8(items@).contains(
                bytes,
            ) by {
                if strings_utf8(items@).contains(bytes) {
                    let j = choose|j: int|
                        0 <= j < strings_utf8(items@).len() && strings_utf8(items@)[j] == bytes;
                    assert(strings_utf8(items@)[j] == bytes);
                }
            }
        }
        set
    }
}

} // verus!
