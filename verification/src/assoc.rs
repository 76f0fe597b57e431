use vstd::prelude::*;

verus! {

/// No key occurs twice.
pub open spec fn distinct_keys<V>(pairs: Seq<(Seq<u8>, V)>) -> bool {
    forall|i: int, j: int| 0 <= i < j < pairs.len() ==> pairs[i].0 != pairs[j].0
}

/// Some entry has the key.
pub open spec fn has_key<V>(pairs: Seq<(Seq<u8>, V)>, key: Seq<u8>) -> bool {
    exists|i: int| 0 <= i < pairs.len() && #[trigger] pairs[i].0 == key
}

/// The place of an entry with the key.
pub open spec fn key_index<V>(pairs: Seq<(Seq<u8>, V)>, key: Seq<u8>) -> int {
    choose|i: int| 0 <= i < pairs.len() && #[trigger] pairs[i].0 == key
}

/// The map that a list of entries stands for.
pub open spec fn pairs_map<V>(pairs: Seq<(Seq<u8>, V)>) -> Map<Seq<u8>, V> {
    Map::new(|key: Seq<u8>| has_key(pairs, key), |key: Seq<u8>| pairs[key_index(pairs, key)].1)
}

/// The list without its entry under the key.
pub open spec fn without_key<V>(pairs: Seq<(Seq<u8>, V)>, key: Seq<u8>) -> Seq<(Seq<u8>, V)> {
    if has_key(pairs, key) {
        pairs.remove(key_index(pairs, key))
    } else {
        pairs
    }
}

/// Each entry of a list without repeated keys is what the map holds under
/// its key.
pub proof fn lemma_pairs_map_at<V>(pairs: Seq<(Seq<u8>, V)>, i: int)
    requires
        distinct_keys(pairs),
        0 <= i < pairs.len(),
    ensures
        has_key(pairs, pairs[i].0),
        pairs_map(pairs).contains_key(pairs[i].0),
        pairs_map(pairs)[pairs[i].0] == pairs[i].1,
        key_index(pairs, pairs[i].0) == i,
{
    assert(has_key(pairs, pairs[i].0));
    let j = key_index(pairs, pairs[i].0);
    assert(j == i);
}

/// Adding an entry under a new key inserts it into the map.
pub proof fn lemma_pairs_map_push<V>(pairs: Seq<(Seq<u8>, V)>, key: Seq<u8>, value: V)
    requires
        distinct_keys(pairs),
        !has_key(pairs, key),
    ensures
        distinct_keys(pairs.push((key, value))),
        pairs_map(pairs.push((key, value))) == pairs_map(pairs).insert(key, value),
{
    let next = pairs.push((key, value));
    assert forall|i: int, j: int| 0 <= i < j < next.len() implies next[i].0 != next[j].0 by {
        if j == pairs.len() {
            assert(pairs[i].0 != key);
        }
    }
    assert forall|k: Seq<u8>| has_key(next, k) <==> (k == key || has_key(pairs, k)) by {
        if has_key(next, k) {
            let i = key_index(next, k);
            if i < pairs.len() {
                assert(pairs[i].0 == k);
            }
        }
        if has_key(pairs, k) {
            let i = key_index(pairs, k);
            assert(next[i].0 == k);
        }
        if k == key {
            assert(next[pairs.len() as int].0 == k);
        }
    }
    assert forall|k: Seq<u8>| has_key(next, k) implies pairs_map(next)[k] == pairs_map(
        pairs,
    ).insert(key, value)[k] by {
        let i = key_index(next, k);
        lemma_pairs_map_at(next, i);
        if i < pairs.len() {
            lemma_pairs_map_at(pairs, i);
        }
    }
    assert(pairs_map(next) =~= pairs_map(pairs).insert(key, value));
}

/// Replacing the value of an entry replaces it in the map.
pub proof fn lemma_pairs_map_update<V>(pairs: Seq<(Seq<u8>, V)>, i: int, value: V)
    requires
        distinct_keys(pairs),
        0 <= i < pairs.len(),
    ensures
        distinct_keys(pairs.update(i, (pairs[i].0, value))),
        pairs_map(pairs.update(i, (pairs[i].0, value))) == pairs_map(pairs).insert(
            pairs[i].0,
            value,
        ),
{
    let key = pairs[i].0;
    let next = pairs.update(i, (key, value));
    assert forall|a: int, b: int| 0 <= a < b < next.len() implies next[a].0 != next[b].0 by {
        assert(next[a].0 == pairs[a].0);
        assert(next[b].0 == pairs[b].0);
    }
    assert forall|k: Seq<u8>| has_key(next, k) <==> has_key(pairs, k) by {
        if has_key(next, k) {
            let j = key_index(next, k);
            assert(pairs[j].0 == k);
        }
        if has_key(pairs, k) {
            let j = key_index(pairs, k);
            assert(next[j].0 == k);
        }
    }
    lemma_pairs_map_at(pairs, i);
    assert forall|k: Seq<u8>| has_key(next, k) implies pairs_map(next)[k] == pairs_map(
        pairs,
    ).insert(key, value)[k] by {
        let j = key_index(next, k);
        lemma_pairs_map_at(next, j);
        lemma_pairs_map_at(pairs, j);
    }
    assert(pairs_map(next) =~= pairs_map(pairs).insert(key, value));
}

/// Taking an entry out removes its key from the map and leaves the rest.
pub proof fn lemma_pairs_map_remove<V>(pairs: Seq<(Seq<u8>, V)>, i: int)
    requires
        distinct_keys(pairs),
        0 <= i < pairs.len(),
    ensures
        distinct_keys(pairs.remove(i)),
        !has_key(pairs.remove(i), pairs[i].0),
        pairs_map(pairs.remove(i)) == pairs_map(pairs).remove(pairs[i].0),
        without_key(pairs, pairs[i].0) == pairs.remove(i),
{
    let key = pairs[i].0;
    let next = pairs.remove(i);
    lemma_pairs_map_at(pairs, i);
    assert forall|a: int| 0 <= a < next.len() implies #[trigger] next[a] == pairs[if a < i {
        a
    } else {
        a + 1
    }] by {}
    assert forall|a: int, b: int| 0 <= a < b < next.len() implies next[a].0 != next[b].0 by {
        let a0 = if a < i { a } else { a + 1 };
        let b0 = if b < i { b } else { b + 1 };
        assert(next[a] == pairs[a0]);
        assert(next[b] == pairs[b0]);
    }
    if has_key(next, key) {
        let a = key_index(next, key);
        let a0 = if a < i { a } else { a + 1 };
        assert(next[a] == pairs[a0]);
        assert(false);
    }
    assert forall|k: Seq<u8>| has_key(next, k) <==> (k != key && has_key(pairs, k)) by {
        if has_key(next, k) {
            let a = key_index(next, k);
            let a0 = if a < i { a } else { a + 1 };
            assert(next[a] == pairs[a0]);
            assert(pairs[a0].0 == k);
        }
        if k != key && has_key(pairs, k) {
            let a0 = key_index(pairs, k);
            let a = if a0 < i { a0 } else { a0 - 1 };
            assert(next[a] == pairs[a0]);
            assert(next[a].0 == k);
        }
    }
    assert forall|k: Seq<u8>| has_key(next, k) implies pairs_map(next)[k] == pairs_map(
        pairs,
    ).remove(key)[k] by {
        let a = key_index(next, k);
        let a0 = if a < i { a } else { a + 1 };
        assert(next[a] == pairs[a0]);
        lemma_pairs_map_at(next, a);
        lemma_pairs_map_at(pairs, a0);
    }
    assert(pairs_map(next) =~= pairs_map(pairs).remove(key));
}

/// The keys among the first `i + 1` entries are those among the first `i`
/// and the key of the entry at `i`.
pub proof fn lemma_has_key_take<V>(pairs: Seq<(Seq<u8>, V)>, i: int, key: Seq<u8>)
    requires
        0 <= i < pairs.len(),
    ensures
        has_key(pairs.take(i + 1), key) <==> has_key(pairs.take(i), key) || pairs[i].0 == key,
{
    if has_key(pairs.take(i + 1), key) {
        let j = key_index(pairs.take(i + 1), key);
        if j < i {
            assert(pairs.take(i)[j].0 == key);
        }
    }
    if has_key(pairs.take(i), key) {
        let j = key_index(pairs.take(i), key);
        assert(pairs.take(i + 1)[j].0 == key);
    }
    if pairs[i].0 == key {
        assert(pairs.take(i + 1)[i].0 == key);
    }
}

/// The index holds the place of each id, and nothing else.
pub open spec fn index_matches(index: Map<Seq<char>, usize>, ids: Seq<Seq<char>>) -> bool {
    &&& forall|i: int|
        0 <= i < ids.len() ==> index.contains_key(#[trigger] ids[i]) && index[ids[i]] == i
    &&& forall|id: Seq<char>| #[trigger]
        index.contains_key(id) ==> index[id] < ids.len() && ids[index[id] as int] == id
}

} // verus!
