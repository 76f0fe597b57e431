use vstd::prelude::*;
use crate::text::{utf8, str_eq, lemma_lex_total};
use crate::order::cut_to;
use crate::query::{PathHit, HitModel, hit_models, opt_bytes, RankedModel, ranks_before, insert_ranked, ranking, lemma_ranking};
use crate::service::ServiceError;

verus! {

/// The texts of the weights of the two edges of a path.
pub type Weights = (Option<Seq<u8>>, Option<Seq<u8>>);

/// The paths to one candidate: the candidate, and the weights of each path.
pub type PathGroup = (String, Vec<(Option<String>, Option<String>)>);

/// The weights of a list of paths, as contracts see them.
pub open spec fn weights_models(pairs: Seq<(Option<String>, Option<String>)>) -> Seq<Weights> {
    pairs.map_values(|pair: (Option<String>, Option<String>)| (opt_bytes(pair.0), opt_bytes(pair.1)))
}

/// The groups of a list, as contracts see them.
pub open spec fn group_models(groups: Seq<PathGroup>) -> Seq<(Seq<u8>, Seq<Weights>)> {
    groups.map_values(|group: PathGroup| (utf8(group.0@), weights_models(group.1@)))
}

/// The candidates of the paths, each once, in the order in which they first
/// come.
pub open spec fn first_seen(hits: Seq<HitModel>) -> Seq<Seq<u8>>
    decreases hits.len(),
{
    if hits.len() == 0 {
        Seq::empty()
    } else {
        let before = first_seen(hits.drop_last());
        if before.contains(hits.last().0) {
            before
        } else {
            before.push(hits.last().0)
        }
    }
}

/// The weights of the paths to a candidate, in the order of the paths.
pub open spec fn weights_to(hits: Seq<HitModel>, candidate: Seq<u8>) -> Seq<Weights>
    decreases hits.len(),
{
    if hits.len() == 0 {
        Seq::empty()
    } else {
        let before = weights_to(hits.drop_last(), candidate);
        if hits.last().0 == candidate {
            before.push((hits.last().1, hits.last().2))
        } else {
            before
        }
    }
}

/// The paths grouped by their candidate: the candidates in the order in
/// which they first come, each with the weights of the paths to it.
pub open spec fn path_groups(hits: Seq<HitModel>) -> Seq<(Seq<u8>, Seq<Weights>)> {
    Seq::new(
        first_seen(hits).len(),
        |i: int| (first_seen(hits)[i], weights_to(hits, first_seen(hits)[i])),
    )
}

/// The candidates that are seen are those of the paths, and none is seen
/// twice.
pub proof fn lemma_first_seen(hits: Seq<HitModel>)
    ensures
        forall|i: int, j: int|
            0 <= i < j < first_seen(hits).len() ==> first_seen(hits)[i] != first_seen(hits)[j],
        forall|candidate: Seq<u8>| #[trigger]
            first_seen(hits).contains(candidate) <==> exists|i: int|
                0 <= i < hits.len() && (#[trigger] hits[i]).0 == candidate,
    decreases hits.len(),
{
    if hits.len() > 0 {
        let less = hits.drop_last();
        let last = hits.last();
        lemma_first_seen(less);
        let before = first_seen(less);
        let all = first_seen(hits);
        assert forall|candidate: Seq<u8>| #[trigger]
            all.contains(candidate) <==> exists|i: int|
                0 <= i < hits.len() && (#[trigger] hits[i]).0 == candidate by {
            if all.contains(candidate) {
                let k = choose|k: int| 0 <= k < all.len() && all[k] == candidate;
                if k < before.len() {
                    assert(before[k] == candidate);
                    assert(before.contains(candidate));
                    let i = choose|i: int| 0 <= i < less.len() && (#[trigger] less[i]).0 == candidate;
                    assert(hits[i] == less[i]);
                } else {
                    assert(hits[hits.len() - 1].0 == candidate);
                }
            }
            if exists|i: int| 0 <= i < hits.len() && (#[trigger] hits[i]).0 == candidate {
                let i = choose|i: int| 0 <= i < hits.len() && (#[trigger] hits[i]).0 == candidate;
                if i < less.len() {
                    assert(less[i] == hits[i]);
                    assert(before.contains(candidate));
                    let k = choose|k: int| 0 <= k < before.len() && before[k] == candidate;
                    assert(all[k] == candidate);
                } else {
                    if before.contains(candidate) {
                        let k = choose|k: int| 0 <= k < before.len() && before[k] == candidate;
                        assert(all[k] == candidate);
                    } else {
                        assert(all[all.len() - 1] == candidate);
                    }
                }
            }
        }
        assert forall|i: int, j: int| 0 <= i < j < all.len() implies all[i] != all[j] by {
            if j == before.len() {
                assert(before[i] == all[i]);
                if all[i] == all[j] {
                    assert(before.contains(last.0));
                }
            }
        }
    }
}

/// A candidate that is not seen has no path.
pub proof fn lemma_unseen_has_no_weights(hits: Seq<HitModel>, candidate: Seq<u8>)
    requires
        !first_seen(hits).contains(candidate),
    ensures
        weights_to(hits, candidate) == Seq::<Weights>::empty(),
    decreases hits.len(),
{
    lemma_first_seen(hits);
    if hits.len() > 0 {
        let less = hits.drop_last();
        lemma_first_seen(less);
        assert(hits[hits.len() - 1].0 != candidate);
        if first_seen(less).contains(candidate) {
            let i = choose|i: int| 0 <= i < less.len() && (#[trigger] less[i]).0 == candidate;
            assert(hits[i] == less[i]);
        }
        lemma_unseen_has_no_weights(less, candidate);
    }
}

/// The place of a candidate among the groups, if it has one.
fn group_place(groups: &Vec<PathGroup>, candidate: &str) -> (found: Option<usize>)
    ensures
        match found {
            Some(place) => place < groups@.len() && utf8(groups@[place as int].0@) == utf8(
                candidate@,
            ),
            None => forall|i: int|
                0 <= i < groups@.len() ==> utf8((#[trigger] groups@[i]).0@) != utf8(candidate@),
        },
{
    let mut i: usize = 0;
    while i < groups.len()
        invariant
            0 <= i <= groups@.len(),
            forall|j: int| 0 <= j < i ==> utf8((#[trigger] groups@[j]).0@) != utf8(candidate@),
        decreases groups@.len() - i,
    {
        if str_eq(groups[i].0.as_str(), candidate) {
            return Some(i);
        }
        i += 1;
    }
    None
}

/// A copy of an optional text.
fn copy_text(text: &Option<String>) -> (copy: Option<String>)
    ensures
        opt_bytes(copy) == opt_bytes(*text),
{
    match text {
        Some(text) => Some(text.clone()),
        None => None,
    }
}

/// Groups the paths by their candidate: the candidates come each once, in
/// the order in which they first come among the paths, and each has the
/// weights of the paths to it, in the order of the paths.
pub fn group_paths(hits: Vec<PathHit>) -> (groups: Vec<PathGroup>)
    ensures
        group_models(groups@) == path_groups(hit_models(hits@)),
        forall|i: int, j: int|
            0 <= i < j < groups@.len() ==> utf8(groups@[i].0@) != utf8(groups@[j].0@),
{
    let ghost all = hit_models(hits@);
    let mut groups: Vec<PathGroup> = Vec::new();
    let mut i: usize = 0;
    proof {
        assert(all.take(0) =~= Seq::<HitModel>::empty());
        assert(group_models(groups@) =~= path_groups(all.take(0)));
    }
    while i < hits.len()
        invariant
            0 <= i <= hits.len(),
            all == hit_models(hits@),
            group_models(groups@) == path_groups(all.take(i as int)),
        decreases hits.len() - i,
    {
        let ghost less = all.take(i as int);
        let ghost more = all.take(i + 1);
        let ghost before = group_models(groups@);
        let hit = &hits[i];
        let ghost candidate = utf8(hit.candidate@);
        let pair = (copy_text(&hit.first_weight), copy_text(&hit.second_weight));
        let ghost weights = (opt_bytes(hit.first_weight), opt_bytes(hit.second_weight));
        proof {
            assert(more.drop_last() =~= less);
            assert(more.last() == all[i as int]);
            assert(all[i as int] == hit.model());
            lemma_first_seen(less);
            assert(before.len() == first_seen(less).len());
            assert forall|k: int| 0 <= k < groups@.len() implies utf8(
                (#[trigger] groups@[k]).0@,
            ) == first_seen(less)[k] by {
                assert(before[k] == path_groups(less)[k]);
            }
        }
        match group_place(&groups, hit.candidate.as_str()) {
            Some(place) => {
                let ghost old_pairs = groups@[place as int].1@;
                groups[place].1.push(pair);
                proof {
                    assert(first_seen(less)[place as int] == candidate);
                    assert(first_seen(less).contains(candidate));
                    assert(first_seen(more) == first_seen(less));
                    assert(weights_models(groups@[place as int].1@) =~= weights_models(
                        old_pairs,
                    ).push(weights));
                    assert(before[place as int] == path_groups(less)[place as int]);
                    assert forall|k: int| 0 <= k < groups@.len() implies group_models(groups@)[k]
                        == path_groups(more)[k] by {
                        assert(before[k] == path_groups(less)[k]);
                        if k != place {
                            assert(first_seen(less)[k] != candidate);
                        }
                    }
                    assert(group_models(groups@) =~= path_groups(more));
                }
            },
            None => {
                let mut pairs: Vec<(Option<String>, Option<String>)> = Vec::new();
                pairs.push(pair);
                groups.push((hit.candidate.clone(), pairs));
                proof {
                    if first_seen(less).contains(candidate) {
                        let k = choose|k: int|
                            0 <= k < first_seen(less).len() && first_seen(less)[k] == candidate;
                        assert(utf8(groups@[k].0@) == candidate);
                    }
                    lemma_unseen_has_no_weights(less, candidate);
                    assert(first_seen(more) == first_seen(less).push(candidate));
                    assert(weights_models(pairs@) =~= Seq::<Weights>::empty().push(weights));
                    assert forall|k: int| 0 <= k < groups@.len() implies group_models(groups@)[k]
                        == path_groups(more)[k] by {
                        if k < before.len() {
                            assert(before[k] == path_groups(less)[k]);
                            assert(first_seen(less)[k] != candidate);
                        }
                    }
                    assert(group_models(groups@) =~= path_groups(more));
                }
            },
        }
        i += 1;
    }
    proof {
        assert(all.take(i as int) =~= all);
        lemma_first_seen(all);
        assert forall|a: int, b: int| 0 <= a < b < groups@.len() implies utf8(groups@[a].0@)
            != utf8(groups@[b].0@) by {
            assert(group_models(groups@)[a] == path_groups(all)[a]);
            assert(group_models(groups@)[b] == path_groups(all)[b]);
        }
    }
    groups
}

/// Whether a request for recommendations with a radius can go on: the
/// radius needs an origin, from the request or from the start node. The
/// request is refused where it gives a radius and no origin is found.
pub fn admit_origin(radius_given: bool, origin_found: bool) -> (r: Result<(), ServiceError>)
    ensures
        r is Err <==> radius_given && !origin_found,
        r matches Err(e) ==> e is BadRequest,
{
    if radius_given && !origin_found {
        Err(
            ServiceError::BadRequest(
                "radius_km requires lat/lon or start node location".to_owned(),
            ),
        )
    } else {
        Ok(())
    }
}

/// No two candidates of a list have one id.
pub open spec fn ids_differ(items: Seq<RankedModel>) -> bool {
    forall|i: int, j: int| 0 <= i < j < items.len() ==> items[i].1 != items[j].1
}

/// Some candidate of a list has the id.
pub open spec fn has_id(items: Seq<RankedModel>, id: Seq<u8>) -> bool {
    exists|i: int| 0 <= i < items.len() && (#[trigger] items[i]).1 == id
}

/// Putting a candidate with a new id into a ranked list leaves no two
/// candidates with one id, and adds its id to those of the list.
pub proof fn lemma_insert_ranked_ids(x: RankedModel, sorted: Seq<RankedModel>)
    requires
        ids_differ(sorted),
        !has_id(sorted, x.1),
    ensures
        ids_differ(insert_ranked(x, sorted)),
        forall|id: Seq<u8>| #[trigger]
            has_id(insert_ranked(x, sorted), id) <==> has_id(sorted, id) || id == x.1,
    decreases sorted.len(),
{
    let out = insert_ranked(x, sorted);
    if sorted.len() == 0 {
        assert(out[0] == x);
        assert forall|id: Seq<u8>| #[trigger] has_id(out, id) <==> has_id(sorted, id) || id
            == x.1 by {
            if id == x.1 {
                assert(out[0].1 == id);
            }
        }
    } else if ranks_before(sorted[0], x) {
        let rest = sorted.drop_first();
        assert forall|i: int, j: int| 0 <= i < j < rest.len() implies rest[i].1 != rest[j].1 by {
            assert(rest[i] == sorted[i + 1] && rest[j] == sorted[j + 1]);
        }
        if has_id(rest, x.1) {
            let k = choose|k: int| 0 <= k < rest.len() && (#[trigger] rest[k]).1 == x.1;
            assert(sorted[k + 1].1 == x.1);
        }
        lemma_insert_ranked_ids(x, rest);
        let tail = insert_ranked(x, rest);
        assert(out =~= seq![sorted[0]] + tail);
        assert forall|id: Seq<u8>| #[trigger] has_id(out, id) <==> has_id(sorted, id) || id
            == x.1 by {
            if has_id(out, id) {
                let k = choose|k: int| 0 <= k < out.len() && (#[trigger] out[k]).1 == id;
                if k == 0 {
                    assert(sorted[0].1 == id);
                } else {
                    assert(tail[k - 1].1 == id);
                    assert(has_id(tail, id));
                    if has_id(rest, id) {
                        let m = choose|m: int| 0 <= m < rest.len() && (#[trigger] rest[m]).1 == id;
                        assert(sorted[m + 1].1 == id);
                    }
                }
            }
            if has_id(sorted, id) {
                let k = choose|k: int| 0 <= k < sorted.len() && (#[trigger] sorted[k]).1 == id;
                if k == 0 {
                    assert(out[0].1 == id);
                } else {
                    assert(rest[k - 1].1 == id);
                    assert(has_id(tail, id));
                    let m = choose|m: int| 0 <= m < tail.len() && (#[trigger] tail[m]).1 == id;
                    assert(out[m + 1].1 == id);
                }
            }
            if id == x.1 {
                assert(has_id(tail, id));
                let m = choose|m: int| 0 <= m < tail.len() && (#[trigger] tail[m]).1 == id;
                assert(out[m + 1].1 == id);
            }
        }
        assert forall|i: int, j: int| 0 <= i < j < out.len() implies out[i].1 != out[j].1 by {
            if i == 0 {
                assert(out[j] == tail[j - 1]);
                if out[j].1 == sorted[0].1 {
                    assert(has_id(tail, sorted[0].1));
                    if has_id(rest, sorted[0].1) {
                        let m = choose|m: int|
                            0 <= m < rest.len() && (#[trigger] rest[m]).1 == sorted[0].1;
                        assert(sorted[m + 1].1 == sorted[0].1);
                    } else {
                        assert(sorted[0].1 == x.1);
                    }
                }
            } else {
                assert(out[i] == tail[i - 1] && out[j] == tail[j - 1]);
            }
        }
    } else {
        assert(out =~= seq![x] + sorted);
        assert forall|id: Seq<u8>| #[trigger] has_id(out, id) <==> has_id(sorted, id) || id
            == x.1 by {
            if has_id(out, id) {
                let k = choose|k: int| 0 <= k < out.len() && (#[trigger] out[k]).1 == id;
                if k > 0 {
                    assert(sorted[k - 1].1 == id);
                }
            }
            if has_id(sorted, id) {
                let k = choose|k: int| 0 <= k < sorted.len() && (#[trigger] sorted[k]).1 == id;
                assert(out[k + 1].1 == id);
            }
            if id == x.1 {
                assert(out[0].1 == id);
            }
        }
        assert forall|i: int, j: int| 0 <= i < j < out.len() implies out[i].1 != out[j].1 by {
            assert(out[j] == sorted[j - 1]);
            if i > 0 {
                assert(out[i] == sorted[i - 1]);
            }
        }
    }
}

/// Ranking candidates with different ids leaves them with different ids,
/// and with the same ids.
pub proof fn lemma_ranking_ids(items: Seq<RankedModel>)
    requires
        ids_differ(items),
    ensures
        ids_differ(ranking(items)),
        forall|id: Seq<u8>| #[trigger] has_id(ranking(items), id) <==> has_id(items, id),
    decreases items.len(),
{
    if items.len() > 0 {
        let rest = items.drop_first();
        assert forall|i: int, j: int| 0 <= i < j < rest.len() implies rest[i].1 != rest[j].1 by {
            assert(rest[i] == items[i + 1] && rest[j] == items[j + 1]);
        }
        lemma_ranking_ids(rest);
        if has_id(ranking(rest), items[0].1) {
            assert(has_id(rest, items[0].1));
            let k = choose|k: int| 0 <= k < rest.len() && (#[trigger] rest[k]).1 == items[0].1;
            assert(items[k + 1].1 == items[0].1);
        }
        lemma_insert_ranked_ids(items[0], ranking(rest));
        assert forall|id: Seq<u8>| #[trigger]
            has_id(ranking(items), id) <==> has_id(items, id) by {
            if has_id(items, id) {
                let k = choose|k: int| 0 <= k < items.len() && (#[trigger] items[k]).1 == id;
                if k > 0 {
                    assert(rest[k - 1].1 == id);
                }
            }
            if has_id(rest, id) {
                let k = choose|k: int| 0 <= k < rest.len() && (#[trigger] rest[k]).1 == id;
                assert(items[k + 1].1 == id);
            }
            if id == items[0].1 {
                assert(items[0].1 == id);
            }
        }
    }
}

/// The ranking of candidates with different ids is strict: of two
/// candidates the earlier has the higher score, or the same score and the
/// id that comes first; no two have one id; and with a limit the result is
/// the start of that order, no longer than the limit.
pub proof fn lemma_ranking_is_strict(items: Seq<RankedModel>, limit: Option<usize>)
    requires
        ids_differ(items),
    ensures
        ({
            let ranked = cut_to(ranking(items), limit);
            &&& forall|i: int, j: int|
                0 <= i < j < ranked.len() ==> ranks_before(ranked[i], ranked[j])
            &&& ids_differ(ranked)
            &&& ranked.len() <= ranking(items).len()
            &&& ranked == ranking(items).take(ranked.len() as int)
            &&& ranking(items).len() == items.len()
            &&& match limit {
                Some(most) => ranked.len() == if most < items.len() {
                    most as int
                } else {
                    items.len() as int
                },
                None => ranked.len() == items.len(),
            }
        }),
{
    let whole = ranking(items);
    let ranked = cut_to(whole, limit);
    lemma_ranking(items);
    lemma_ranking_ids(items);
    whole.to_multiset_ensures();
    items.to_multiset_ensures();
    assert(whole.len() == items.len());
    assert(ranked =~= whole.take(ranked.len() as int));
    assert forall|i: int, j: int| 0 <= i < j < ranked.len() implies ranks_before(
        ranked[i],
        ranked[j],
    ) by {
        assert(ranked[i] == whole[i] && ranked[j] == whole[j]);
        assert(!ranks_before(whole[j], whole[i]));
        assert(whole[i].1 != whole[j].1);
        lemma_lex_total(whole[i].1, whole[j].1);
    }
    assert forall|i: int, j: int| 0 <= i < j < ranked.len() implies ranked[i].1 != ranked[j].1 by {
        assert(ranked[i] == whole[i] && ranked[j] == whole[j]);
    }
}

} // verus!
