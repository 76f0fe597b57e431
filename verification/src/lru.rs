use vstd::prelude::*;
use vstd::hash_map::StringHashMap;
use std::collections::VecDeque;
use crate::text::{utf8, str_eq};
use crate::assoc::{distinct_keys, has_key, key_index, lemma_pairs_map_at};
use crate::codec::{decode, decode_component, opt_utf8};
use crate::props::Pair;

verus! {

/// The entries after the one at `i` has become the most recently used, with
/// `value` as its value.
pub open spec fn moved_to_back(pairs: Seq<Pair>, i: int, value: Seq<u8>) -> Seq<Pair> {
    pairs.remove(i).push((pairs[i].0, value))
}

/// The entries after `key` was looked up: an entry under it becomes the most
/// recently used.
pub open spec fn touched(pairs: Seq<Pair>, key: Seq<u8>) -> Seq<Pair> {
    if has_key(pairs, key) {
        let i = key_index(pairs, key);
        moved_to_back(pairs, i, pairs[i].1)
    } else {
        pairs
    }
}

/// The entries after `value` was put under `key` in a cache of the given
/// capacity: an entry under the key is replaced and becomes the most
/// recently used; else the least recently used entry leaves where the cache
/// is full, and the new entry becomes the most recently used.
pub open spec fn inserted(pairs: Seq<Pair>, capacity: int, key: Seq<u8>, value: Seq<u8>) -> Seq<
    Pair,
> {
    if has_key(pairs, key) {
        moved_to_back(pairs, key_index(pairs, key), value)
    } else if pairs.len() >= capacity && pairs.len() > 0 {
        pairs.drop_first().push((key, value))
    } else {
        pairs.push((key, value))
    }
}

/// Every value is what its key decodes to.
pub open spec fn holds_decodings(pairs: Seq<Pair>) -> bool {
    forall|i: int| 0 <= i < pairs.len() ==> decode((#[trigger] pairs[i]).0) == Some(pairs[i].1)
}

/// The keys in the order of their last use, and the value under each key.
struct LruState {
    order: VecDeque<String>,
    map: StringHashMap<String>,
}

/// The entries that an order of keys and a map of values stand for.
pub open spec fn state_pairs(order: Seq<String>, map: Map<Seq<char>, String>) -> Seq<Pair> {
    Seq::new(order.len(), |i: int| (utf8(order[i]@), utf8(map[order[i]@]@)))
}

/// The keys of the order are those of the map, each once, and they are no
/// more than the capacity admits.
pub open spec fn state_valid(order: Seq<String>, map: Map<Seq<char>, String>, capacity: int) -> bool {
    &&& capacity >= 1
    &&& order.len() <= capacity
    &&& forall|i: int, j: int| 0 <= i < j < order.len() ==> order[i]@ != order[j]@
    &&& forall|i: int| 0 <= i < order.len() ==> map.contains_key(#[trigger] order[i]@)
    &&& forall|key: Seq<char>| #[trigger]
        map.contains_key(key) ==> exists|i: int| 0 <= i < order.len() && #[trigger] order[i]@ == key
}

proof fn lemma_state_pairs(order: Seq<String>, map: Map<Seq<char>, String>, capacity: int)
    requires
        state_valid(order, map, capacity),
    ensures
        distinct_keys(state_pairs(order, map)),
        forall|key: Seq<char>|
            map.contains_key(key) <==> has_key(state_pairs(order, map), #[trigger] utf8(key)),
        forall|i: int|
            0 <= i < order.len() ==> key_index(state_pairs(order, map), utf8(#[trigger] order[i]@))
                == i,
{
    let pairs = state_pairs(order, map);
    assert forall|i: int, j: int| 0 <= i < j < pairs.len() implies pairs[i].0 != pairs[j].0 by {
        if pairs[i].0 == pairs[j].0 {
            crate::text::lemma_utf8_injective(order[i]@, order[j]@);
        }
    }
    assert forall|key: Seq<char>|
        map.contains_key(key) <==> has_key(pairs, #[trigger] utf8(key)) by {
        if map.contains_key(key) {
            let i = choose|i: int| 0 <= i < order.len() && #[trigger] order[i]@ == key;
            assert(pairs[i].0 == utf8(key));
        }
        if has_key(pairs, utf8(key)) {
            let i = key_index(pairs, utf8(key));
            crate::text::lemma_utf8_injective(order[i]@, key);
        }
    }
    assert forall|i: int| 0 <= i < order.len() implies key_index(
        pairs,
        utf8(#[trigger] order[i]@),
    ) == i by {
        assert(pairs[i].0 == utf8(order[i]@));
        lemma_pairs_map_at(pairs, i);
    }
}

/// A bounded cache from strings to strings that drops its least recently
/// used entry when it is full.
pub struct LruCache {
    capacity: usize,
    state: LruState,
}

impl LruCache {
    /// The entries, from the least to the most recently used.
    pub closed spec fn pairs(&self) -> Seq<Pair> {
        state_pairs(self.state.order@, self.state.map@)
    }

    /// The largest number of entries that the cache keeps.
    pub closed spec fn limit(&self) -> int {
        self.capacity as int
    }

    #[verifier::type_invariant]
    spec fn valid(&self) -> bool {
        state_valid(self.state.order@, self.state.map@, self.capacity as int)
    }

    /// An empty cache that keeps at most `capacity` entries, and at least one.
    pub fn new(capacity: usize) -> (cache: Self)
        ensures
            cache.pairs() == Seq::<Pair>::empty(),
            cache.limit() == if capacity < 1 {
                1
            } else {
                capacity as int
            },
    {
        let capacity = if capacity < 1 {
            1
        } else {
            capacity
        };
        let cache = LruCache {
            capacity,
            state: LruState { order: VecDeque::new(), map: StringHashMap::new() },
        };
        assert(cache.pairs() =~= Seq::<Pair>::empty());
        cache
    }

    /// The number of entries.
    pub fn len(&self) -> (n: usize)
        ensures
            n == self.pairs().len(),
            n <= self.limit(),
            self.limit() >= 1,
            distinct_keys(self.pairs()),
    {
        proof {
            use_type_invariant(self);
            lemma_state_pairs(self.state.order@, self.state.map@, self.capacity as int);
        }
        self.state.order.len()
    }

    fn take_state(&mut self) -> (state: LruState)
        ensures
            state == old(self).state,
            final(self).capacity == old(self).capacity,
            state_valid(state.order@, state.map@, old(self).capacity as int),
    {
        proof {
            use_type_invariant(&*self);
        }
        let mut state = LruState { order: VecDeque::new(), map: StringHashMap::new() };
        core::mem::swap(&mut self.state, &mut state);
        state
    }

    /// The value under `key`, which then is the most recently used entry.
    pub fn get(&mut self, key: &str) -> (value: Option<String>)
        ensures
            final(self).pairs() == touched(old(self).pairs(), utf8(key@)),
            final(self).limit() == old(self).limit(),
            match value {
                Some(text) => has_key(old(self).pairs(), utf8(key@)) && utf8(text@) == old(
                    self,
                ).pairs()[key_index(old(self).pairs(), utf8(key@))].1,
                None => !has_key(old(self).pairs(), utf8(key@)),
            },
    {
        proof {
            use_type_invariant(&*self);
            lemma_state_pairs(self.state.order@, self.state.map@, self.capacity as int);
        }
        let found = match self.state.map.get(key) {
            Some(text) => Some(text.clone()),
            None => None,
        };
        match found {
            Some(text) => {
                proof {
                    let order = self.state.order@;
                    let i = choose|i: int| 0 <= i < order.len() && #[trigger] order[i]@ == key@;
                    assert(key_index(self.pairs(), utf8(order[i]@)) == i);
                }
                self.touch(key);
                Some(text)
            },
            None => None,
        }
    }

    /// Makes the entry under `key` the most recently used, if there is one.
    pub fn touch(&mut self, key: &str)
        ensures
            final(self).pairs() == touched(old(self).pairs(), utf8(key@)),
            final(self).limit() == old(self).limit(),
    {
        let ghost before = self.pairs();
        let ghost capacity = self.capacity as int;
        let mut state = self.take_state();
        let ghost order = state.order@;
        let ghost map = state.map@;
        proof {
            lemma_state_pairs(order, map, capacity);
        }
        let mut i: usize = 0;
        while i < state.order.len() && !str_eq(state.order[i].as_str(), key)
            invariant
                0 <= i <= state.order.len(),
                state.order@ == order,
                state.map@ == map,
                forall|j: int| 0 <= j < i ==> order[j]@ != key@,
            decreases state.order.len() - i,
        {
            i += 1;
        }
        if i < state.order.len() {
            let entry = state.order.remove(i);
            match entry {
                Some(entry) => {
                    state.order.push_back(entry);
                },
                None => {},
            }
            proof {
                let moved = order.remove(i as int).push(order[i as int]);
                assert(state.order@ == moved);
                assert(key_index(before, utf8(order[i as int]@)) == i);
                assert(before[i as int].0 == utf8(key@));
                assert(has_key(before, utf8(key@)));
                assert forall|a: int| 0 <= a < moved.len() implies #[trigger] moved[a] == order[if a
                    == moved.len() - 1 {
                    i as int
                } else if a < i {
                    a
                } else {
                    a + 1
                }] by {}
                assert(state_pairs(moved, map) =~= moved_to_back(
                    before,
                    i as int,
                    before[i as int].1,
                ));
                lemma_moved_valid(order, map, capacity, i as int, map[order[i as int]@]);
                assert(map.insert(order[i as int]@, map[order[i as int]@]) =~= map);
            }
        } else {
            proof {
                if has_key(before, utf8(key@)) {
                    let at = key_index(before, utf8(key@));
                    crate::text::lemma_utf8_injective(order[at]@, key@);
                }
            }
        }
        self.state = state;
    }

    /// Puts `value` under `key` as the most recently used entry. Where the
    /// key is new and the cache is full, the least recently used entry
    /// leaves.
    pub fn insert(&mut self, key: String, value: String)
        ensures
            final(self).pairs() == inserted(
                old(self).pairs(),
                old(self).limit(),
                utf8(key@),
                utf8(value@),
            ),
            final(self).limit() == old(self).limit(),
    {
        let ghost before = self.pairs();
        let ghost capacity = self.capacity as int;
        let limit = self.capacity;
        let mut state = self.take_state();
        let ghost order = state.order@;
        let ghost map = state.map@;
        proof {
            lemma_state_pairs(order, map, capacity);
        }
        if state.map.contains_key(key.as_str()) {
            let ghost at = choose|i: int| 0 <= i < order.len() && #[trigger] order[i]@ == key@;
            let mut i: usize = 0;
            while i < state.order.len() && !str_eq(state.order[i].as_str(), key.as_str())
                invariant
                    0 <= i <= state.order.len(),
                    state.order@ == order,
                    state.map@ == map,
                    0 <= at < order.len(),
                    order[at]@ == key@,
                    i <= at,
                decreases state.order.len() - i,
            {
                i += 1;
            }
            proof {
                assert(i == at);
                assert(key_index(before, utf8(order[at]@)) == at);
                assert(before[at].0 == utf8(key@));
            }
            let entry = state.order.remove(i);
            match entry {
                Some(entry) => {
                    state.order.push_back(entry);
                },
                None => {},
            }
            state.map.insert(key, value);
            proof {
                let moved = order.remove(at).push(order[at]);
                assert(state.order@ == moved);
                assert forall|a: int| 0 <= a < moved.len() implies #[trigger] moved[a] == order[if a
                    == moved.len() - 1 {
                    at
                } else if a < at {
                    a
                } else {
                    a + 1
                }] by {}
                assert(state_pairs(moved, state.map@) =~= moved_to_back(before, at, utf8(value@)));
                lemma_moved_valid(order, map, capacity, at, value);
            }
        } else {
            proof {
                assert(!has_key(before, utf8(key@)));
            }
            if state.order.len() >= limit {
                if let Some(oldest) = state.order.pop_front() {
                    state.map.remove(oldest.as_str());
                }
            }
            let ghost kept = state.order@;
            let ghost held = state.map@;
            proof {
                if order.len() >= capacity {
                    assert(kept =~= order.drop_first());
                    assert(held == map.remove(order[0]@));
                } else {
                    assert(kept == order);
                    assert(held == map);
                }
                assert forall|a: int| 0 <= a < kept.len() implies kept[a]@ != key@ by {
                    let b = if order.len() >= capacity {
                        a + 1
                    } else {
                        a
                    };
                    assert(kept[a] == order[b]);
                    assert(map.contains_key(order[b]@));
                }
            }
            state.order.push_back(key.clone());
            state.map.insert(key, value);
            proof {
                let shift = if order.len() >= capacity {
                    1int
                } else {
                    0int
                };
                let next = state.order@;
                let full = state.map@;
                assert forall|a: int| 0 <= a < next.len() - 1 implies #[trigger] next[a] == order[a
                    + shift] by {}
                assert(next[next.len() - 1]@ == key@);
                assert(state_pairs(next, full) =~= inserted(
                    before,
                    capacity,
                    utf8(key@),
                    utf8(value@),
                )) by {
                    assert forall|a: int| 0 <= a < next.len() - 1 implies state_pairs(next, full)[a]
                        == before[a + shift] by {
                        assert(next[a] == order[a + shift]);
                        assert(order[a + shift]@ != key@);
                        if shift == 1 {
                            assert(order[a + 1]@ != order[0]@);
                        }
                    }
                }
                assert forall|a: int, b: int| 0 <= a < b < next.len() implies next[a]@
                    != next[b]@ by {
                    assert(next[a] == order[a + shift]);
                    if b < next.len() - 1 {
                        assert(next[b] == order[b + shift]);
                    }
                }
                assert forall|a: int| 0 <= a < next.len() implies full.contains_key(
                    #[trigger] next[a]@,
                ) by {
                    if a < next.len() - 1 {
                        assert(next[a] == order[a + shift]);
                        assert(map.contains_key(order[a + shift]@));
                        if shift == 1 {
                            assert(order[a + 1]@ != order[0]@);
                        }
                    }
                }
                assert forall|k: Seq<char>| #[trigger] full.contains_key(k) implies exists|a: int|
                    0 <= a < next.len() && #[trigger] next[a]@ == k by {
                    if k == key@ {
                        assert(next[next.len() - 1]@ == k);
                    } else {
                        assert(map.contains_key(k));
                        let b = choose|b: int| 0 <= b < order.len() && #[trigger] order[b]@ == k;
                        assert(next[b - shift]@ == k);
                    }
                }
            }
        }
        self.state = state;
    }
}

/// Moving the key at `i` to the end of the order, with a value for it,
/// keeps the keys of the order those of the map.
proof fn lemma_moved_valid(
    order: Seq<String>,
    map: Map<Seq<char>, String>,
    capacity: int,
    i: int,
    value: String,
)
    requires
        state_valid(order, map, capacity),
        0 <= i < order.len(),
    ensures
        state_valid(order.remove(i).push(order[i]), map.insert(order[i]@, value), capacity),
{
    let moved = order.remove(i).push(order[i]);
    let next = map.insert(order[i]@, value);
    assert forall|a: int| 0 <= a < moved.len() implies #[trigger] moved[a] == order[if a
        == moved.len() - 1 {
        i
    } else if a < i {
        a
    } else {
        a + 1
    }] by {}
    assert forall|a: int, b: int| 0 <= a < b < moved.len() implies moved[a]@ != moved[b]@ by {
        let a0 = if a < i {
            a
        } else {
            a + 1
        };
        let b0 = if b == moved.len() - 1 {
            i
        } else if b < i {
            b
        } else {
            b + 1
        };
        assert(moved[a] == order[a0] && moved[b] == order[b0]);
    }
    assert forall|a: int| 0 <= a < moved.len() implies next.contains_key(#[trigger] moved[a]@) by {
        let a0 = if a == moved.len() - 1 {
            i
        } else if a < i {
            a
        } else {
            a + 1
        };
        assert(moved[a] == order[a0]);
        assert(map.contains_key(order[a0]@));
    }
    assert forall|key: Seq<char>| #[trigger] next.contains_key(key) implies exists|a: int|
        0 <= a < moved.len() && #[trigger] moved[a]@ == key by {
        assert(map.contains_key(key));
        let b = choose|b: int| 0 <= b < order.len() && #[trigger] order[b]@ == key;
        let a = if b == i {
            moved.len() - 1
        } else if b < i {
            b
        } else {
            b - 1
        };
        assert(moved[a]@ == key);
    }
}

/// Decodes a component through a cache: what the cache holds under the
/// encoding is returned as it is; else the component is decoded and, where
/// that succeeds, the cache learns it.
pub fn decode_component_cached(value: &str, cache: &mut LruCache) -> (decoded: Option<String>)
    ensures
        opt_utf8(decoded) == if has_key(old(cache).pairs(), utf8(value@)) {
            Some(old(cache).pairs()[key_index(old(cache).pairs(), utf8(value@))].1)
        } else {
            decode(utf8(value@))
        },
        final(cache).pairs() == if has_key(old(cache).pairs(), utf8(value@)) {
            touched(old(cache).pairs(), utf8(value@))
        } else {
            match decode(utf8(value@)) {
                Some(bytes) => inserted(old(cache).pairs(), old(cache).limit(), utf8(value@), bytes),
                None => old(cache).pairs(),
            }
        },
        final(cache).limit() == old(cache).limit(),
        holds_decodings(old(cache).pairs()) ==> holds_decodings(final(cache).pairs()) && opt_utf8(
            decoded,
        ) == decode(utf8(value@)),
{
    let ghost before = cache.pairs();
    if let Some(cached) = cache.get(value) {
        proof {
            if holds_decodings(before) {
                let i = key_index(before, utf8(value@));
                assert(decode(before[i].0) == Some(before[i].1));
                lemma_decodings_kept(before, cache.limit(), utf8(value@), before[i].1);
            }
        }
        return Some(cached);
    }
    let decoded = match decode_component(value) {
        Some(decoded) => decoded,
        None => {
            return None;
        },
    };
    cache.insert(value.to_owned(), decoded.clone());
    proof {
        if holds_decodings(before) {
            lemma_decodings_kept(before, cache.limit(), utf8(value@), utf8(decoded@));
        }
    }
    Some(decoded)
}

/// A cache of decodings stays one when a decoding enters it or is looked up.
pub proof fn lemma_decodings_kept(pairs: Seq<Pair>, capacity: int, key: Seq<u8>, value: Seq<u8>)
    requires
        holds_decodings(pairs),
        decode(key) == Some(value),
    ensures
        holds_decodings(inserted(pairs, capacity, key, value)),
        holds_decodings(touched(pairs, key)),
{
    let next = inserted(pairs, capacity, key, value);
    assert forall|i: int| 0 <= i < next.len() implies decode((#[trigger] next[i]).0) == Some(
        next[i].1,
    ) by {
        if has_key(pairs, key) {
            let at = key_index(pairs, key);
            if i < next.len() - 1 {
                assert(next[i] == pairs[if i < at {
                    i
                } else {
                    i + 1
                }]);
            }
        } else if pairs.len() >= capacity && pairs.len() > 0 {
            if i < next.len() - 1 {
                assert(next[i] == pairs[i + 1]);
            }
        } else {
            if i < next.len() - 1 {
                assert(next[i] == pairs[i]);
            }
        }
    }
    let again = touched(pairs, key);
    assert forall|i: int| 0 <= i < again.len() implies decode((#[trigger] again[i]).0) == Some(
        again[i].1,
    ) by {
        if has_key(pairs, key) {
            let at = key_index(pairs, key);
            if i < again.len() - 1 {
                assert(again[i] == pairs[if i < at {
                    i
                } else {
                    i + 1
                }]);
            } else {
                assert(again[i] == pairs[at]);
            }
        }
    }
}

} // verus!
