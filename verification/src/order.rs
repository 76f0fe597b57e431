use vstd::prelude::*;
use crate::text::{lex_lt, lemma_lex_total, lemma_lex_transitive, lemma_lex_asymmetric};

verus! {

/// A list in ascending order of its keys, with `x` put before the first
/// entry whose key does not come before that of `x`.
pub open spec fn insert_by_id<V>(x: (Seq<u8>, V), sorted: Seq<(Seq<u8>, V)>) -> Seq<(Seq<u8>, V)>
    decreases sorted.len(),
{
    if sorted.len() == 0 {
        seq![x]
    } else if lex_lt(sorted[0].0, x.0) {
        seq![sorted[0]] + insert_by_id(x, sorted.drop_first())
    } else {
        seq![x] + sorted
    }
}

/// The entries in ascending order of their keys; entries with one key keep
/// their order.
pub open spec fn sort_by_id<V>(items: Seq<(Seq<u8>, V)>) -> Seq<(Seq<u8>, V)>
    decreases items.len(),
{
    if items.len() == 0 {
        Seq::empty()
    } else {
        insert_by_id(items[0], sort_by_id(items.drop_first()))
    }
}

/// No entry has a key that comes before the key of an earlier entry.
pub open spec fn ascending_by_id<V>(items: Seq<(Seq<u8>, V)>) -> bool {
    forall|i: int, j: int| 0 <= i < j < items.len() ==> !lex_lt(items[j].0, items[i].0)
}

/// The first `limit` items, where there is a limit and there are more.
pub open spec fn cut_to<T>(items: Seq<T>, limit: Option<usize>) -> Seq<T> {
    match limit {
        Some(limit) => if limit < items.len() {
            items.take(limit as int)
        } else {
            items
        },
        None => items,
    }
}

/// Where the entry goes: after the entries whose keys come before its key.
pub proof fn lemma_insert_by_id_at<V>(x: (Seq<u8>, V), sorted: Seq<(Seq<u8>, V)>, p: int)
    requires
        0 <= p <= sorted.len(),
        forall|j: int| 0 <= j < p ==> lex_lt(sorted[j].0, x.0),
        p < sorted.len() ==> !lex_lt(sorted[p].0, x.0),
    ensures
        insert_by_id(x, sorted) == sorted.insert(p, x),
    decreases p,
{
    if p == 0 {
        if sorted.len() == 0 {
            assert(sorted.insert(0, x) =~= seq![x]);
        } else {
            assert(sorted.insert(0, x) =~= seq![x] + sorted);
        }
    } else {
        let rest = sorted.drop_first();
        assert forall|j: int| 0 <= j < p - 1 implies lex_lt(rest[j].0, x.0) by {
            assert(rest[j] == sorted[j + 1]);
        }
        lemma_insert_by_id_at(x, rest, p - 1);
        assert(seq![sorted[0]] + rest.insert(p - 1, x) =~= sorted.insert(p, x));
    }
}

/// Putting an entry into an ascending list gives an ascending list with the
/// same entries and the new one.
pub proof fn lemma_insert_by_id<V>(x: (Seq<u8>, V), sorted: Seq<(Seq<u8>, V)>)
    requires
        ascending_by_id(sorted),
    ensures
        ascending_by_id(insert_by_id(x, sorted)),
        insert_by_id(x, sorted).to_multiset() == sorted.to_multiset().insert(x),
    decreases sorted.len(),
{
    broadcast use vstd::seq_lib::group_to_multiset_ensures;

    let out = insert_by_id(x, sorted);
    if sorted.len() == 0 {
        assert(out =~= sorted.push(x));
    } else if lex_lt(sorted[0].0, x.0) {
        let rest = sorted.drop_first();
        assert forall|i: int, j: int| 0 <= i < j < rest.len() implies !lex_lt(
            rest[j].0,
            rest[i].0,
        ) by {
            assert(rest[i] == sorted[i + 1] && rest[j] == sorted[j + 1]);
        }
        lemma_insert_by_id(x, rest);
        let tail = insert_by_id(x, rest);
        assert(out =~= seq![sorted[0]] + tail);
        assert(sorted =~= seq![sorted[0]] + rest);
        vstd::seq_lib::lemma_multiset_commutative(seq![sorted[0]], tail);
        vstd::seq_lib::lemma_multiset_commutative(seq![sorted[0]], rest);
        assert(out.to_multiset() =~= sorted.to_multiset().insert(x));
        assert forall|i: int, j: int| 0 <= i < j < out.len() implies !lex_lt(out[j].0, out[i].0) by {
            if i == 0 {
                let y = tail[j - 1];
                assert(out[j] == y);
                assert(tail.to_multiset().count(y) > 0);
                if y == x {
                    lemma_lex_asymmetric(sorted[0].0, x.0);
                } else {
                    assert(rest.to_multiset().count(y) > 0);
                    assert(rest.contains(y));
                    let k = choose|k: int| 0 <= k < rest.len() && rest[k] == y;
                    assert(sorted[k + 1] == y);
                }
            } else {
                assert(out[i] == tail[i - 1] && out[j] == tail[j - 1]);
            }
        }
    } else {
        assert(out =~= seq![x] + sorted);
        vstd::seq_lib::lemma_multiset_commutative(seq![x], sorted);
        assert(seq![x] =~= Seq::<(Seq<u8>, V)>::empty().push(x));
        assert(out.to_multiset() =~= sorted.to_multiset().insert(x));
        assert forall|i: int, j: int| 0 <= i < j < out.len() implies !lex_lt(out[j].0, out[i].0) by {
            if i == 0 {
                assert(out[j] == sorted[j - 1]);
                if j > 1 {
                    if lex_lt(sorted[j - 1].0, x.0) {
                        lemma_lex_total(sorted[0].0, x.0);
                        if sorted[0].0 == x.0 {
                        } else {
                            lemma_lex_transitive(sorted[j - 1].0, x.0, sorted[0].0);
                        }
                    }
                }
            } else {
                assert(out[i] == sorted[i - 1] && out[j] == sorted[j - 1]);
            }
        }
    }
}

/// `sort_by_id` gives the same entries in ascending order of their keys.
pub proof fn lemma_sort_by_id<V>(items: Seq<(Seq<u8>, V)>)
    ensures
        ascending_by_id(sort_by_id(items)),
        sort_by_id(items).to_multiset() == items.to_multiset(),
    decreases items.len(),
{
    broadcast use vstd::seq_lib::group_to_multiset_ensures;

    if items.len() > 0 {
        let rest = items.drop_first();
        lemma_sort_by_id(rest);
        lemma_insert_by_id(items[0], sort_by_id(rest));
        assert(items =~= seq![items[0]] + rest);
        vstd::seq_lib::lemma_multiset_commutative(seq![items[0]], rest);
        assert(seq![items[0]] =~= Seq::<(Seq<u8>, V)>::empty().push(items[0]));
        assert(items.to_multiset() =~= rest.to_multiset().insert(items[0]));
    }
}

} // verus!
