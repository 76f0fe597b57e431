use vstd::prelude::*;
use vstd::hash_map::StringHashMap;
use crate::text::{utf8, lemma_utf8_injective};
use crate::assoc::{distinct_keys, has_key, key_index, pairs_map, index_matches, lemma_pairs_map_at, lemma_pairs_map_push, lemma_pairs_map_update};
use crate::props::PropertyMap;
use crate::graph::Properties;

verus! {

/// The properties under a name, or none where the name is not there.
pub open spec fn props_or_empty(groups: Map<Seq<u8>, Properties>, name: Seq<u8>) -> Properties {
    if groups.contains_key(name) {
        groups[name]
    } else {
        Map::empty()
    }
}

/// The groups with one more property in the group of `name`.
pub open spec fn with_property(
    groups: Map<Seq<u8>, Properties>,
    name: Seq<u8>,
    key: Seq<u8>,
    value: Seq<u8>,
) -> Map<Seq<u8>, Properties> {
    groups.insert(name, props_or_empty(groups, name).insert(key, value))
}

/// The names of a list of groups.
pub open spec fn group_names(entries: Seq<(String, PropertyMap)>) -> Seq<Seq<char>> {
    entries.map_values(|entry: (String, PropertyMap)| entry.0@)
}

/// The groups of a list, as contracts see them.
pub open spec fn group_pairs(entries: Seq<(String, PropertyMap)>) -> Seq<(Seq<u8>, Properties)> {
    entries.map_values(|entry: (String, PropertyMap)| (utf8(entry.0@), entry.1@))
}

/// What holds of the groups: the index holds the place of each name.
pub open spec fn groups_valid(entries: Seq<(String, PropertyMap)>, index: Map<Seq<char>, usize>) -> bool {
    index_matches(index, group_names(entries))
}

proof fn lemma_groups_distinct(entries: Seq<(String, PropertyMap)>, index: Map<Seq<char>, usize>)
    requires
        groups_valid(entries, index),
    ensures
        distinct_keys(group_pairs(entries)),
        forall|name: Seq<char>|
            index.contains_key(name) <==> has_key(group_pairs(entries), #[trigger] utf8(name)),
{
    let names = group_names(entries);
    let pairs = group_pairs(entries);
    assert forall|i: int, j: int| 0 <= i < j < pairs.len() implies pairs[i].0 != pairs[j].0 by {
        if pairs[i].0 == pairs[j].0 {
            lemma_utf8_injective(entries[i].0@, entries[j].0@);
            assert(index[names[i]] == i);
            assert(index[names[j]] == j);
        }
    }
    assert forall|name: Seq<char>|
        index.contains_key(name) <==> has_key(pairs, #[trigger] utf8(name)) by {
        if index.contains_key(name) {
            let i = index[name] as int;
            assert(names[i] == name);
            assert(pairs[i].0 == utf8(name));
        }
        if has_key(pairs, utf8(name)) {
            let i = key_index(pairs, utf8(name));
            lemma_utf8_injective(entries[i].0@, name);
            assert(names[i] == name);
        }
    }
}

/// The groups and the place of each by its name.
struct GroupState {
    entries: Vec<(String, PropertyMap)>,
    index: StringHashMap<usize>,
}

/// Property maps under names: the properties of many edges, each under the
/// target or the key of its edge.
pub struct Groups {
    state: GroupState,
}

impl Groups {
    /// The groups in the order in which they are kept.
    pub closed spec fn pairs(&self) -> Seq<(Seq<u8>, Properties)> {
        group_pairs(self.state.entries@)
    }

    #[verifier::type_invariant]
    spec fn valid(&self) -> bool {
        groups_valid(self.state.entries@, self.state.index@)
    }

    /// The properties under each name.
    pub open spec fn view(&self) -> Map<Seq<u8>, Properties> {
        pairs_map(self.pairs())
    }

    /// No groups.
    pub fn new() -> (groups: Self)
        ensures
            groups@ == Map::<Seq<u8>, Properties>::empty(),
    {
        let groups = Groups {
            state: GroupState { entries: Vec::new(), index: StringHashMap::new() },
        };
        assert(groups@ =~= Map::<Seq<u8>, Properties>::empty());
        groups
    }

    fn take_state(&mut self) -> (state: GroupState)
        ensures
            state == old(self).state,
            groups_valid(state.entries@, state.index@),
    {
        proof {
            use_type_invariant(&*self);
        }
        let mut state = GroupState { entries: Vec::new(), index: StringHashMap::new() };
        core::mem::swap(&mut self.state, &mut state);
        state
    }

    /// Puts a property into the group of `name`, which is made if it is not
    /// there.
    pub fn add(&mut self, name: &str, key: String, value: String)
        ensures
            final(self)@ == with_property(old(self)@, utf8(name@), utf8(key@), utf8(value@)),
    {
        let ghost before = self.pairs();
        let mut state = self.take_state();
        let ghost names = group_names(state.entries@);
        let ghost places = state.index@;
        proof {
            lemma_groups_distinct(state.entries@, places);
        }
        let found = match state.index.get(name) {
            Some(place) => Some(*place),
            None => None,
        };
        match found {
            Some(i) => {
                proof {
                    assert(names[i as int] == name@);
                    lemma_pairs_map_at(before, i as int);
                }
                state.entries[i].1.insert(key, value);
                proof {
                    let changed = before[i as int].1.insert(utf8(key@), utf8(value@));
                    lemma_pairs_map_update(before, i as int, changed);
                    assert(group_pairs(state.entries@) =~= before.update(
                        i as int,
                        (utf8(name@), changed),
                    ));
                    assert(group_names(state.entries@) =~= names);
                }
            },
            None => {
                let mut properties = PropertyMap::new();
                properties.insert(key, value);
                let place = state.entries.len();
                state.entries.push((name.to_owned(), properties));
                state.index.insert(name.to_owned(), place);
                proof {
                    lemma_pairs_map_push(before, utf8(name@), properties@);
                    assert(group_pairs(state.entries@) =~= before.push((utf8(name@), properties@)));
                    let more = group_names(state.entries@);
                    assert(more =~= names.push(name@));
                    assert forall|i: int| 0 <= i < names.len() implies names[i] != name@ by {
                        assert(places.contains_key(names[i]));
                    }
                }
            },
        }
        self.state = state;
    }

    /// A copy of the properties under `name`; none where the name is not
    /// there.
    pub fn get_or_empty(&self, name: &str) -> (properties: PropertyMap)
        ensures
            properties@ == props_or_empty(self@, utf8(name@)),
    {
        proof {
            use_type_invariant(self);
            lemma_groups_distinct(self.state.entries@, self.state.index@);
        }
        match self.state.index.get(name) {
            Some(place) => {
                proof {
                    assert(group_names(self.state.entries@)[*place as int] == name@);
                    lemma_pairs_map_at(self.pairs(), *place as int);
                }
                self.state.entries[*place].1.clone()
            },
            None => PropertyMap::new(),
        }
    }

    /// Takes the group of `name` out and returns its properties; none where
    /// the name is not there.
    pub fn take(&mut self, name: &str) -> (properties: PropertyMap)
        ensures
            properties@ == props_or_empty(old(self)@, utf8(name@)),
            final(self)@ == old(self)@.remove(utf8(name@)),
    {
        let ghost before = self.pairs();
        let mut state = self.take_state();
        let ghost entries = state.entries@;
        let ghost names = group_names(entries);
        let ghost places = state.index@;
        proof {
            lemma_groups_distinct(entries, places);
        }
        let found = match state.index.get(name) {
            Some(place) => Some(*place),
            None => None,
        };
        let properties = match found {
            Some(i) => {
                proof {
                    assert(names[i as int] == name@);
                    lemma_pairs_map_at(before, i as int);
                }
                let last = state.entries.len() - 1;
                let entry = state.entries.swap_remove(i);
                state.index.remove(name);
                if i < last {
                    state.index.insert(state.entries[i].0.clone(), i);
                }
                proof {
                    let after = state.entries@;
                    let now = group_names(after);
                    assert(now.len() == names.len() - 1);
                    assert forall|a: int| 0 <= a < now.len() implies #[trigger] now[a] == names[if a
                        == i {
                        last as int
                    } else {
                        a
                    }] by {}
                    assert forall|a: int| 0 <= a < now.len() implies state.index@.contains_key(
                        #[trigger] now[a],
                    ) && state.index@[now[a]] == a by {
                        let b = if a == i {
                            last as int
                        } else {
                            a
                        };
                        assert(now[a] == names[b]);
                        assert(places[names[b]] == b);
                        assert(places[names[i as int]] == i);
                        assert(places[names[last as int]] == last);
                        assert(names[i as int] == name@);
                        if a != i {
                            assert(names[a] != names[i as int]);
                            assert(names[a] != names[last as int]);
                        }
                    }
                    assert forall|id: Seq<char>| #[trigger]
                        state.index@.contains_key(id) implies state.index@[id] < now.len()
                        && now[state.index@[id] as int] == id by {
                        if i < last && id == names[last as int] {
                        } else {
                            assert(places.contains_key(id));
                            assert(names[places[id] as int] == id);
                        }
                    }
                    lemma_groups_distinct(after, state.index@);
                    let left = group_pairs(after);
                    assert forall|k: Seq<u8>| pairs_map(left).contains_key(k) <==> pairs_map(
                        before,
                    ).remove(utf8(name@)).contains_key(k) by {
                        if has_key(left, k) {
                            let a = key_index(left, k);
                            let b = if a == i {
                                last as int
                            } else {
                                a
                            };
                            assert(left[a] == before[b]);
                            assert(before[b].0 == k);
                        }
                        if k != utf8(name@) && has_key(before, k) {
                            let b = key_index(before, k);
                            let a = if b == last {
                                i as int
                            } else {
                                b
                            };
                            assert(left[a] == before[b]);
                            assert(left[a].0 == k);
                        }
                    }
                    assert forall|k: Seq<u8>| pairs_map(left).contains_key(k) implies pairs_map(
                        left,
                    )[k] == pairs_map(before).remove(utf8(name@))[k] by {
                        let a = key_index(left, k);
                        let b = if a == i {
                            last as int
                        } else {
                            a
                        };
                        assert(left[a] == before[b]);
                        lemma_pairs_map_at(left, a);
                        lemma_pairs_map_at(before, b);
                    }
                    assert(pairs_map(left) =~= pairs_map(before).remove(utf8(name@)));
                }
                entry.1
            },
            None => {
                proof {
                    assert(pairs_map(before).remove(utf8(name@)) =~= pairs_map(before));
                }
                PropertyMap::new()
            },
        };
        self.state = state;
        properties
    }
}

} // verus!
