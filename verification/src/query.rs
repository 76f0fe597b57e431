use vstd::prelude::*;
use vstd::utf8::{decode_utf8, encode_utf8_decode_utf8};
use crate::text::{utf8, str_eq, str_lt, lex_lt, split_on, split_all, strs_utf8, trimmed, trim_str, lemma_lex_total, lemma_lex_transitive, lemma_lex_asymmetric, lemma_lex_irreflexive};

use crate::keys::prefix1;
use crate::props::PropertyMap;
use crate::graph::{Graph, Edge, GraphModel, NodeModel, EdgeModel, Properties, edge_models};
use crate::idset::IdSet;
use crate::order::cut_to;
use crate::schema::{SchemaCache, active_data, is_active_data, TYPE_KEY};
use crate::store::{Snapshot, snapshot_rows, prefix_rows, begin_read, open_snapshot, lemma_tables_are_named, NODES_TABLE, EDGES_TABLE, NODE_DATA_TABLE, EDGE_DATA_TABLE, NODE_INDEX_TABLE, GEO_INDEX_TABLE};
use crate::reads::{properties_of_rows, load_node_data_for_id};
use crate::views::{NodeView, Tables, tables_of, node_view_models, has_type, data_has_type, geo_listing, list_nodes_by_geo_prefix_in};
use crate::geo::{encode_geohash, geohash, geohash_precision_for_radius, precision_for};
use crate::service::{ServiceError, outcome};

verus! {

/// The key of the property that holds the weight of an edge.
pub const WEIGHT_KEY: &'static str = "weight";

/// The comma.
pub const COMMA: u8 = 0x2c;

/// The bytes of a piece once the white space at its two ends is gone.
pub open spec fn trimmed_piece(piece: Seq<u8>) -> Seq<char> {
    trimmed(decode_utf8(piece))
}

/// The set of the pieces of a list, trimmed, but for those that are empty
/// then.
pub open spec fn csv_set(pieces: Seq<Seq<u8>>) -> Set<Seq<u8>>
    decreases pieces.len(),
{
    if pieces.len() == 0 {
        Set::empty()
    } else {
        let before = csv_set(pieces.drop_last());
        let item = trimmed_piece(pieces.last());
        if item.len() > 0 {
            before.insert(utf8(item))
        } else {
            before
        }
    }
}

/// The items that a comma-separated list names.
pub open spec fn csv_items(value: Option<String>) -> Set<Seq<u8>> {
    match value {
        Some(text) => csv_set(split_on(utf8(text@), COMMA)),
        None => Set::empty(),
    }
}

/// The set of the items of a comma-separated list: each piece between two
/// commas, without the white space around it, but for empty ones. Without a
/// list, the empty set.
pub fn parse_csv_set(value: &Option<String>) -> (set: IdSet)
    ensures
        set@ == csv_items(*value),
{
    let mut set = IdSet::new();
    let text = match value {
        Some(text) => text,
        None => {
            return set;
        },
    };
    let pieces = split_all(text.as_str(), COMMA);
    let ghost parts = strs_utf8(pieces@);
    let mut i: usize = 0;
    proof {
        assert(parts.take(0) =~= Seq::<Seq<u8>>::empty());
    }
    while i < pieces.len()
        invariant
            0 <= i <= pieces.len(),
            parts == strs_utf8(pieces@),
            set@ == csv_set(parts.take(i as int)),
        decreases pieces.len() - i,
    {
        proof {
            assert(parts.take(i + 1).drop_last() =~= parts.take(i as int));
            assert(parts.take(i + 1).last() == parts[i as int]);
            encode_utf8_decode_utf8(pieces@[i as int]@);
        }
        let item = trim_str(pieces[i]);
        if !item.is_empty() {
            set.insert(item.to_owned());
        }
        i += 1;
    }
    proof {
        assert(parts.take(i as int) =~= parts);
    }
    set
}

/// The properties have a type that is among the excluded ones.
pub open spec fn excluded_type(data: Properties, excluded: Set<Seq<u8>>) -> bool {
    data.contains_key(utf8(TYPE_KEY@)) && excluded.contains(data[utf8(TYPE_KEY@)])
}

/// Whether the type of an edge is among the excluded ones. An edge without
/// a type is never excluded.
pub fn is_edge_type_excluded(edge: &Edge, excluded: &IdSet) -> (r: bool)
    ensures
        r == excluded_type(edge.data@, excluded@),
{
    match edge.data.get(TYPE_KEY) {
        Some(kind) => excluded.contains(kind.as_str()),
        None => false,
    }
}

/// The targets of those edges of a list whose type is excluded.
pub open spec fn blocked_targets(edges: Seq<EdgeModel>, excluded: Set<Seq<u8>>) -> Set<Seq<u8>>
    decreases edges.len(),
{
    if edges.len() == 0 {
        Set::empty()
    } else {
        let before = blocked_targets(edges.drop_last(), excluded);
        if excluded_type(edges.last().1, excluded) {
            before.insert(edges.last().0)
        } else {
            before
        }
    }
}

/// The targets of those edges of a list whose type is not excluded.
pub open spec fn direct_neighbors(edges: Seq<EdgeModel>, excluded: Set<Seq<u8>>) -> Set<Seq<u8>>
    decreases edges.len(),
{
    if edges.len() == 0 {
        Set::empty()
    } else {
        let before = direct_neighbors(edges.drop_last(), excluded);
        if excluded_type(edges.last().1, excluded) {
            before
        } else {
            before.insert(edges.last().0)
        }
    }
}

/// The text of the weight of an edge, if it has one.
pub open spec fn weight_text(data: Properties) -> Option<Seq<u8>> {
    if data.contains_key(utf8(WEIGHT_KEY@)) {
        Some(data[utf8(WEIGHT_KEY@)])
    } else {
        None
    }
}

/// A path of two edges to a candidate, as contracts see it: the candidate
/// and the texts of the weights of the two edges.
pub type HitModel = (Seq<u8>, Option<Seq<u8>>, Option<Seq<u8>>);

/// A path of two edges from the start to a candidate.
#[derive(Debug)]
pub struct PathHit {
    pub candidate: String,
    pub first_weight: Option<String>,
    pub second_weight: Option<String>,
}

/// The bytes of an optional string.
pub open spec fn opt_bytes(text: Option<String>) -> Option<Seq<u8>> {
    match text {
        Some(text) => Some(utf8(text@)),
        None => None,
    }
}

impl PathHit {
    /// The path as contracts see it.
    pub open spec fn model(&self) -> HitModel {
        (utf8(self.candidate@), opt_bytes(self.first_weight), opt_bytes(self.second_weight))
    }
}

/// The paths of a list, as contracts see them.
pub open spec fn hit_models(hits: Seq<PathHit>) -> Seq<HitModel> {
    hits.map_values(|hit: PathHit| hit.model())
}

/// A candidate qualifies: it is not the start, it is none of the barred
/// ids, and it is no direct neighbor of the start.
pub open spec fn qualifies(
    candidate: Seq<u8>,
    start: Seq<u8>,
    barred: Set<Seq<u8>>,
    direct: Set<Seq<u8>>,
) -> bool {
    candidate != start && !barred.contains(candidate) && !direct.contains(candidate)
}

/// The paths that continue a first edge of weight `first`: one for each
/// second edge whose type is not excluded and whose target qualifies, in
/// the order of the edges.
pub open spec fn second_hops(
    edges: Seq<EdgeModel>,
    first: Option<Seq<u8>>,
    start: Seq<u8>,
    excluded: Set<Seq<u8>>,
    barred: Set<Seq<u8>>,
    direct: Set<Seq<u8>>,
) -> Seq<HitModel>
    decreases edges.len(),
{
    if edges.len() == 0 {
        Seq::empty()
    } else {
        let before = second_hops(edges.drop_last(), first, start, excluded, barred, direct);
        let edge = edges.last();
        if !excluded_type(edge.1, excluded) && qualifies(edge.0, start, barred, direct) {
            before.push((edge.0, first, weight_text(edge.1)))
        } else {
            before
        }
    }
}

/// The paths of two edges that start with one of the given first edges: for
/// each first edge whose type is not excluded and whose target is a node,
/// the paths that continue it.
pub open spec fn first_hops(
    graph: GraphModel,
    edges: Seq<EdgeModel>,
    start: Seq<u8>,
    excluded: Set<Seq<u8>>,
    barred: Set<Seq<u8>>,
    direct: Set<Seq<u8>>,
) -> Seq<HitModel>
    decreases edges.len(),
{
    if edges.len() == 0 {
        Seq::empty()
    } else {
        let before = first_hops(graph, edges.drop_last(), start, excluded, barred, direct);
        let edge = edges.last();
        if !excluded_type(edge.1, excluded) && graph.contains_key(edge.0) {
            before + second_hops(
                graph[edge.0].edges,
                weight_text(edge.1),
                start,
                excluded,
                barred,
                direct,
            )
        } else {
            before
        }
    }
}

/// The qualifying paths of two edges from a node: none of the two edges
/// has an excluded type, and the candidate at the end is not the start, no
/// target of an edge of the start with an excluded type, none of the
/// excluded ids and no direct neighbor of the start.
pub open spec fn two_hop_paths(
    graph: GraphModel,
    start: Seq<u8>,
    excluded_types: Set<Seq<u8>>,
    excluded_ids: Set<Seq<u8>>,
) -> Seq<HitModel> {
    let edges = graph[start].edges;
    first_hops(
        graph,
        edges,
        start,
        excluded_types,
        blocked_targets(edges, excluded_types).union(excluded_ids),
        direct_neighbors(edges, excluded_types),
    )
}

fn weight_of(edge: &Edge) -> (weight: Option<String>)
    ensures
        opt_bytes(weight) == weight_text(edge.data@),
{
    match edge.data.get(WEIGHT_KEY) {
        Some(text) => Some(text.clone()),
        None => None,
    }
}

/// The qualifying paths of two edges from `start`, in the order of the
/// edges; nothing where `start` is no cached node.
pub fn find_two_hop_paths(
    graph: &Graph,
    start: &str,
    excluded_types: &IdSet,
    excluded_ids: &IdSet,
) -> (r: Option<Vec<PathHit>>)
    ensures
        match r {
            Some(hits) => graph@.contains_key(utf8(start@)) && hit_models(hits@) == two_hop_paths(
                graph@,
                utf8(start@),
                excluded_types@,
                excluded_ids@,
            ),
            None => !graph@.contains_key(utf8(start@)),
        },
{
    let origin = match graph.get_node(start) {
        Some(node) => node,
        None => {
            return None;
        },
    };
    let ghost edges = edge_models(origin.neighbors@);
    let mut blocked = IdSet::new();
    let mut direct = IdSet::new();
    let mut i: usize = 0;
    proof {
        assert(edges.take(0) =~= Seq::<EdgeModel>::empty());
    }
    while i < origin.neighbors.len()
        invariant
            0 <= i <= origin.neighbors.len(),
            edges == edge_models(origin.neighbors@),
            blocked@ == blocked_targets(edges.take(i as int), excluded_types@),
            direct@ == direct_neighbors(edges.take(i as int), excluded_types@),
        decreases origin.neighbors.len() - i,
    {
        proof {
            assert(edges.take(i + 1).drop_last() =~= edges.take(i as int));
            assert(edges.take(i + 1).last() == edges[i as int]);
        }
        let edge = &origin.neighbors[i];
        if is_edge_type_excluded(edge, excluded_types) {
            blocked.insert(edge.to.clone());
        } else {
            direct.insert(edge.to.clone());
        }
        i += 1;
    }
    proof {
        assert(edges.take(i as int) =~= edges);
    }
    let ghost barred = blocked@.union(excluded_ids@);
    let mut hits: Vec<PathHit> = Vec::new();
    let mut i: usize = 0;
    proof {
        assert(hit_models(hits@) =~= Seq::<HitModel>::empty());
    }
    while i < origin.neighbors.len()
        invariant
            0 <= i <= origin.neighbors.len(),
            edges == edge_models(origin.neighbors@),
            barred == blocked@.union(excluded_ids@),
            hit_models(hits@) == first_hops(
                graph@,
                edges.take(i as int),
                utf8(start@),
                excluded_types@,
                barred,
                direct@,
            ),
        decreases origin.neighbors.len() - i,
    {
        proof {
            assert(edges.take(i + 1).drop_last() =~= edges.take(i as int));
            assert(edges.take(i + 1).last() == edges[i as int]);
        }
        let edge = &origin.neighbors[i];
        if !is_edge_type_excluded(edge, excluded_types) {
            if let Some(node) = graph.get_node(edge.to.as_str()) {
                let first = weight_of(edge);
                let ghost seconds = edge_models(node.neighbors@);
                let ghost before = hit_models(hits@);
                let mut j: usize = 0;
                proof {
                    assert(seconds.take(0) =~= Seq::<EdgeModel>::empty());
                    assert(before + Seq::<HitModel>::empty() =~= before);
                }
                while j < node.neighbors.len()
                    invariant
                        0 <= j <= node.neighbors.len(),
                        seconds == edge_models(node.neighbors@),
                        barred == blocked@.union(excluded_ids@),
                        hit_models(hits@) == before + second_hops(
                            seconds.take(j as int),
                            opt_bytes(first),
                            utf8(start@),
                            excluded_types@,
                            barred,
                            direct@,
                        ),
                    decreases node.neighbors.len() - j,
                {
                    proof {
                        assert(seconds.take(j + 1).drop_last() =~= seconds.take(j as int));
                        assert(seconds.take(j + 1).last() == seconds[j as int]);
                    }
                    let second = &node.neighbors[j];
                    let candidate = second.to.as_str();
                    if !is_edge_type_excluded(second, excluded_types) && !str_eq(candidate, start)
                        && !blocked.contains(candidate) && !excluded_ids.contains(candidate)
                        && !direct.contains(candidate) {
                        let ghost so_far = hit_models(hits@);
                        let hit = PathHit {
                            candidate: second.to.clone(),
                            first_weight: first.clone(),
                            second_weight: weight_of(second),
                        };
                        hits.push(hit);
                        proof {
                            assert(hit_models(hits@) =~= so_far.push(hit.model()));
                            let inner = second_hops(
                                seconds.take(j as int),
                                opt_bytes(first),
                                utf8(start@),
                                excluded_types@,
                                barred,
                                direct@,
                            );
                            assert((before + inner).push(hit.model()) =~= before + inner.push(
                                hit.model(),
                            ));
                        }
                    }
                    j += 1;
                }
                proof {
                    assert(seconds.take(j as int) =~= seconds);
                }
            }
        }
        i += 1;
    }
    proof {
        assert(edges.take(i as int) =~= edges);
    }
    Some(hits)
}

/// The qualifying paths of two edges from the start of a recommendation,
/// with the excluded edge types and ids as the request lists them. The
/// request is refused where the start is no cached node.
pub fn recommendation_paths(
    graph: &Graph,
    start: &str,
    exclude_edge_types: &Option<String>,
    exclude_ids: &Option<String>,
) -> (r: Result<Vec<PathHit>, ServiceError>)
    ensures
        match r {
            Ok(hits) => graph@.contains_key(utf8(start@)) && hit_models(hits@) == two_hop_paths(
                graph@,
                utf8(start@),
                csv_items(*exclude_edge_types),
                csv_items(*exclude_ids),
            ),
            Err(e) => !graph@.contains_key(utf8(start@)) && e is NotFound,
        },
{
    let excluded_types = parse_csv_set(exclude_edge_types);
    let excluded_ids = parse_csv_set(exclude_ids);
    match find_two_hop_paths(graph, start, &excluded_types, &excluded_ids) {
        Some(hits) => Ok(hits),
        None => Err(ServiceError::NotFound("start node not found".to_owned())),
    }
}

/// The cached properties of a node, where it is cached and has the type.
pub fn typed_candidate(graph: &Graph, id: &str, kind: &str) -> (r: Option<PropertyMap>)
    ensures
        match r {
            Some(data) => graph@.contains_key(utf8(id@)) && data@ == graph@[utf8(id@)].data
                && has_type(data@, utf8(kind@)),
            None => !graph@.contains_key(utf8(id@)) || !has_type(
                graph@[utf8(id@)].data,
                utf8(kind@),
            ),
        },
{
    match graph.get_node(id) {
        Some(node) => if data_has_type(&node.data, kind) {
            Some(node.data.clone())
        } else {
            None
        },
        None => None,
    }
}

/// A candidate with its score. The score is a whole number that orders the
/// candidates as their scores do: a higher number is a better score.
#[derive(Debug)]
pub struct Ranked {
    pub id: String,
    pub score: u64,
    pub data: PropertyMap,
}

/// A ranked candidate as contracts see it: its score, its id and its
/// properties.
pub type RankedModel = (u64, Seq<u8>, Properties);

impl Ranked {
    /// The candidate as contracts see it.
    pub open spec fn model(&self) -> RankedModel {
        (self.score, utf8(self.id@), self.data@)
    }
}

/// The candidates of a list, as contracts see them.
pub open spec fn ranked_models(items: Seq<Ranked>) -> Seq<RankedModel> {
    items.map_values(|item: Ranked| item.model())
}

/// `a` ranks before `b`: it has the higher score, or the same score and
/// the id that comes first.
pub open spec fn ranks_before(a: RankedModel, b: RankedModel) -> bool {
    a.0 > b.0 || (a.0 == b.0 && lex_lt(a.1, b.1))
}

/// A ranked list with `x` put before the first entry that does not rank
/// before it.
pub open spec fn insert_ranked(x: RankedModel, sorted: Seq<RankedModel>) -> Seq<RankedModel>
    decreases sorted.len(),
{
    if sorted.len() == 0 {
        seq![x]
    } else if ranks_before(sorted[0], x) {
        seq![sorted[0]] + insert_ranked(x, sorted.drop_first())
    } else {
        seq![x] + sorted
    }
}

/// The candidates by descending score; candidates with one score by
/// ascending id.
pub open spec fn ranking(items: Seq<RankedModel>) -> Seq<RankedModel>
    decreases items.len(),
{
    if items.len() == 0 {
        Seq::empty()
    } else {
        insert_ranked(items[0], ranking(items.drop_first()))
    }
}

/// No entry ranks before an earlier one.
pub open spec fn ranked_order(items: Seq<RankedModel>) -> bool {
    forall|i: int, j: int| 0 <= i < j < items.len() ==> !ranks_before(items[j], items[i])
}

proof fn lemma_insert_ranked_at(x: RankedModel, sorted: Seq<RankedModel>, p: int)
    requires
        0 <= p <= sorted.len(),
        forall|j: int| 0 <= j < p ==> ranks_before(sorted[j], x),
        p < sorted.len() ==> !ranks_before(sorted[p], x),
    ensures
        insert_ranked(x, sorted) == sorted.insert(p, x),
    decreases p,
{
    if p == 0 {
        if sorted.len() == 0 {
            assert(sorted.insert(0, x) =~= seq![x]);
        } else {
            assert(sorted.insert(0, x) =~= seq![x] + sorted);
        }
    } else {
        let rest = sorted.drop_first();
        assert forall|j: int| 0 <= j < p - 1 implies ranks_before(rest[j], x) by {
            assert(rest[j] == sorted[j + 1]);
        }
        lemma_insert_ranked_at(x, rest, p - 1);
        assert(seq![sorted[0]] + rest.insert(p - 1, x) =~= sorted.insert(p, x));
    }
}

/// Ranking is transitive.
pub proof fn lemma_ranks_transitive(a: RankedModel, b: RankedModel, c: RankedModel)
    requires
        ranks_before(a, b),
        ranks_before(b, c),
    ensures
        ranks_before(a, c),
{
    if a.0 == b.0 && b.0 == c.0 {
        lemma_lex_transitive(a.1, b.1, c.1);
    }
}

/// Of two candidates that do not rank before each other, neither ranks
/// before what the other does not rank before.
proof fn lemma_ranks_total(a: RankedModel, b: RankedModel, c: RankedModel)
    requires
        !ranks_before(b, a),
        !ranks_before(c, b),
    ensures
        !ranks_before(c, a),
{
    if ranks_before(c, a) {
        lemma_lex_total(a.1, b.1);
        lemma_lex_total(b.1, c.1);
        if a.0 == b.0 && b.0 == c.0 {
            if a.1 == b.1 {
            } else if b.1 == c.1 {
            } else {
                lemma_lex_transitive(a.1, b.1, c.1);
                lemma_lex_asymmetric(a.1, c.1);
            }
        }
    }
}

/// Putting a candidate into a ranked list gives a ranked list with the same
/// candidates and the new one.
pub proof fn lemma_insert_ranked(x: RankedModel, sorted: Seq<RankedModel>)
    requires
        ranked_order(sorted),
    ensures
        ranked_order(insert_ranked(x, sorted)),
        insert_ranked(x, sorted).to_multiset() == sorted.to_multiset().insert(x),
    decreases sorted.len(),
{
    broadcast use vstd::seq_lib::group_to_multiset_ensures;

    let out = insert_ranked(x, sorted);
    if sorted.len() == 0 {
        assert(out =~= sorted.push(x));
    } else if ranks_before(sorted[0], x) {
        let rest = sorted.drop_first();
        assert forall|i: int, j: int| 0 <= i < j < rest.len() implies !ranks_before(
            rest[j],
            rest[i],
        ) by {
            assert(rest[i] == sorted[i + 1] && rest[j] == sorted[j + 1]);
        }
        lemma_insert_ranked(x, rest);
        let tail = insert_ranked(x, rest);
        assert(out =~= seq![sorted[0]] + tail);
        assert(sorted =~= seq![sorted[0]] + rest);
        vstd::seq_lib::lemma_multiset_commutative(seq![sorted[0]], tail);
        vstd::seq_lib::lemma_multiset_commutative(seq![sorted[0]], rest);
        assert(out.to_multiset() =~= sorted.to_multiset().insert(x));
        assert forall|i: int, j: int| 0 <= i < j < out.len() implies !ranks_before(
            out[j],
            out[i],
        ) by {
            if i == 0 {
                let y = tail[j - 1];
                assert(out[j] == y);
                assert(tail.to_multiset().count(y) > 0);
                if y == x {
                    if ranks_before(x, sorted[0]) {
                        lemma_ranks_transitive(x, sorted[0], x);
                        lemma_lex_irreflexive(x.1);
                    }
                } else {
                    assert(rest.to_multiset().count(y) > 0);
                    assert(rest.contains(y));
                    let k = choose|k: int| 0 <= k < rest.len() && rest[k] == y;
                    assert(sorted[k + 1] == y);
                }
            } else {
                assert(out[i] == tail[i - 1] && out[j] == tail[j - 1]);
            }
        }
    } else {
        assert(out =~= seq![x] + sorted);
        vstd::seq_lib::lemma_multiset_commutative(seq![x], sorted);
        assert(seq![x] =~= Seq::<RankedModel>::empty().push(x));
        assert(out.to_multiset() =~= sorted.to_multiset().insert(x));
        assert forall|i: int, j: int| 0 <= i < j < out.len() implies !ranks_before(
            out[j],
            out[i],
        ) by {
            if i == 0 {
                assert(out[j] == sorted[j - 1]);
                if j > 1 {
                    lemma_ranks_total(x, sorted[0], sorted[j - 1]);
                }
            } else {
                assert(out[i] == sorted[i - 1] && out[j] == sorted[j - 1]);
            }
        }
    }
}

/// Tie-breaking: `ranking` gives the same candidates by descending score,
/// and candidates with one score by ascending id.
pub proof fn lemma_ranking(items: Seq<RankedModel>)
    ensures
        ranked_order(ranking(items)),
        ranking(items).to_multiset() == items.to_multiset(),
    decreases items.len(),
{
    broadcast use vstd::seq_lib::group_to_multiset_ensures;

    if items.len() > 0 {
        let rest = items.drop_first();
        lemma_ranking(rest);
        lemma_insert_ranked(items[0], ranking(rest));
        assert(items =~= seq![items[0]] + rest);
        vstd::seq_lib::lemma_multiset_commutative(seq![items[0]], rest);
        assert(seq![items[0]] =~= Seq::<RankedModel>::empty().push(items[0]));
        assert(items.to_multiset() =~= rest.to_multiset().insert(items[0]));
    }
}

/// The candidates by descending score, candidates with one score by
/// ascending id, cut to the limit.
pub fn rank_candidates(items: Vec<Ranked>, limit: Option<usize>) -> (ranked: Vec<Ranked>)
    ensures
        ranked_models(ranked@) == cut_to(ranking(ranked_models(items@)), limit),
{
    let ghost all = ranked_models(items@);
    let mut rest = items;
    let mut sorted: Vec<Ranked> = Vec::new();
    proof {
        assert(all.skip(all.len() as int) =~= Seq::<RankedModel>::empty());
        assert(ranked_models(sorted@) =~= Seq::<RankedModel>::empty());
    }
    while rest.len() > 0
        invariant
            rest@.len() <= all.len(),
            ranked_models(rest@) == all.take(rest@.len() as int),
            ranked_models(sorted@) == ranking(all.skip(rest@.len() as int)),
        decreases rest.len(),
    {
        let ghost left = rest@.len() as int;
        let item = rest.pop().unwrap();
        let ghost done = ranked_models(sorted@);
        proof {
            assert(item.model() == all.take(left)[left - 1]);
            assert(all.skip(left - 1)[0] == item.model());
            assert(all.skip(left - 1).drop_first() =~= all.skip(left));
            assert(ranked_models(rest@) =~= all.take(left - 1));
        }
        let mut p: usize = 0;
        while p < sorted.len() && (sorted[p].score > item.score || (sorted[p].score == item.score
            && str_lt(sorted[p].id.as_str(), item.id.as_str())))
            invariant
                0 <= p <= sorted.len(),
                done == ranked_models(sorted@),
                forall|j: int| 0 <= j < p ==> ranks_before(done[j], item.model()),
            decreases sorted.len() - p,
        {
            p += 1;
        }
        proof {
            lemma_insert_ranked_at(item.model(), done, p as int);
        }
        sorted.insert(p, item);
        proof {
            assert(ranked_models(sorted@) =~= done.insert(p as int, item.model()));
        }
    }
    proof {
        assert(all.skip(0) =~= all);
    }
    if let Some(limit) = limit {
        let ghost whole = ranked_models(sorted@);
        sorted.truncate(limit);
        proof {
            assert(ranked_models(sorted@) =~= cut_to(whole, Some(limit)));
        }
    }
    sorted
}

/// A candidate with the stored properties of its node in place of the
/// cached ones, where the stored ones are those of an active node.
pub open spec fn hydrated(table: Map<Seq<u8>, Seq<u8>>, item: RankedModel) -> RankedModel {
    let stored = properties_of_rows(prefix_rows(table, prefix1(item.1)));
    if active_data(stored) {
        (item.0, item.1, stored)
    } else {
        item
    }
}

/// The candidates of a list, each hydrated.
pub open spec fn hydrated_all(table: Map<Seq<u8>, Seq<u8>>, items: Seq<RankedModel>) -> Seq<
    RankedModel,
> {
    Seq::new(items.len(), |i: int| hydrated(table, items[i]))
}

/// A candidate with the stored properties of its node in place of the
/// cached ones, where the stored ones are those of an active node; else the
/// candidate as it is.
pub fn hydrated_item(item: &Ranked, stored: PropertyMap) -> (full: Ranked)
    ensures
        full.model() == if active_data(stored@) {
            (item.model().0, item.model().1, stored@)
        } else {
            item.model()
        },
{
    let data = if is_active_data(&stored) {
        stored
    } else {
        item.data.clone()
    };
    Ranked { id: item.id.clone(), score: item.score, data }
}

/// Puts the stored properties of its node in place of the cached ones of
/// each candidate, from the property rows of a snapshot. Without candidates
/// nothing is read, and the result is the empty list.
pub fn hydrate_candidates_in(node_data: &Snapshot, items: Vec<Ranked>) -> (r: Result<
    Vec<Ranked>,
    redb::Error,
>)
    ensures
        r matches Ok(full) ==> ranked_models(full@) == hydrated_all(
            snapshot_rows(node_data),
            ranked_models(items@),
        ),
        items@.len() == 0 ==> r is Ok,
{
    let ghost all = ranked_models(items@);
    let mut full: Vec<Ranked> = Vec::new();
    let mut i: usize = 0;
    while i < items.len()
        invariant
            0 <= i <= items.len(),
            all == ranked_models(items@),
            full@.len() == i,
            forall|j: int|
                0 <= j < i ==> (#[trigger] full@[j]).model() == hydrated(
                    snapshot_rows(node_data),
                    all[j],
                ),
        decreases items.len() - i,
    {
        let item = &items[i];
        let stored = load_node_data_for_id(node_data, item.id.as_str())?;
        full.push(hydrated_item(item, stored));
        i += 1;
    }
    proof {
        assert(ranked_models(full@) =~= hydrated_all(snapshot_rows(node_data), all));
    }
    Ok(full)
}

/// Puts the stored properties in place of the cached ones of each
/// candidate, from one snapshot of the store: the candidates are hydrated
/// from some state of the property rows. Without candidates the store is
/// not read.
pub fn hydrate_candidates(db: &redb::Database, items: Vec<Ranked>) -> (r: Result<
    Vec<Ranked>,
    ServiceError,
>)
    ensures
        r matches Err(e) ==> e is Storage,
        r matches Ok(full) ==> exists|table: Map<Seq<u8>, Seq<u8>>|
            ranked_models(full@) == #[trigger] hydrated_all(table, ranked_models(items@)),
        items@.len() == 0 ==> (r matches Ok(full) && full == items),
{
    if items.len() == 0 {
        proof {
            assert(ranked_models(items@) =~= hydrated_all(Map::empty(), ranked_models(items@)));
        }
        return Ok(items);
    }
    outcome(read_candidates(db, items))
}

/// Hydrates the candidates from one snapshot of the store.
fn read_candidates(db: &redb::Database, items: Vec<Ranked>) -> (r: Result<Vec<Ranked>, redb::Error>)
    ensures
        r matches Ok(full) ==> exists|table: Map<Seq<u8>, Seq<u8>>|
            ranked_models(full@) == #[trigger] hydrated_all(table, ranked_models(items@)),
{
    proof {
        lemma_tables_are_named();
    }
    let txn = begin_read(db)?;
    let node_data = open_snapshot(&txn, NODE_DATA_TABLE)?;
    let full = hydrate_candidates_in(&node_data, items)?;
    proof {
        assert(ranked_models(full@) == hydrated_all(
            snapshot_rows(&node_data),
            ranked_models(items@),
        ));
    }
    Ok(full)
}

/// The nodes of a list whose ids are not excluded, in their order.
pub open spec fn not_excluded(nodes: Seq<(Seq<u8>, NodeModel)>, excluded: Set<Seq<u8>>) -> Seq<
    (Seq<u8>, NodeModel),
>
    decreases nodes.len(),
{
    if nodes.len() == 0 {
        Seq::empty()
    } else {
        let before = not_excluded(nodes.drop_last(), excluded);
        if excluded.contains(nodes.last().0) {
            before
        } else {
            before.push(nodes.last())
        }
    }
}

/// The nodes of a list whose ids are not excluded.
pub fn drop_excluded(nodes: Vec<NodeView>, excluded: &IdSet) -> (kept: Vec<NodeView>)
    ensures
        node_view_models(kept@) == not_excluded(node_view_models(nodes@), excluded@),
{
    let ghost all = node_view_models(nodes@);
    let count = nodes.len();
    let mut rest = nodes;
    let mut back: Vec<NodeView> = Vec::new();
    let mut i: usize = 0;
    let mut kept: Vec<NodeView> = Vec::new();
    proof {
        assert(all.take(0) =~= Seq::<(Seq<u8>, NodeModel)>::empty());
        assert(node_view_models(kept@) =~= Seq::<(Seq<u8>, NodeModel)>::empty());
    }
    while rest.len() > 0
        invariant
            all.len() == count,
            rest@.len() + back@.len() == all.len(),
            node_view_models(rest@) == all.take(rest@.len() as int),
            forall|j: int|
                0 <= j < back@.len() ==> (#[trigger] back@[j]).model() == all[all.len() - 1 - j],
        decreases rest.len(),
    {
        let ghost left = rest@.len() as int;
        let node = rest.pop().unwrap();
        proof {
            assert(node.model() == all.take(left)[left - 1]);
            assert(node_view_models(rest@) =~= all.take(left - 1));
        }
        back.push(node);
    }
    while back.len() > 0
        invariant
            back@.len() <= all.len(),
            all.len() == count,
            i + back@.len() == all.len(),
            forall|j: int|
                0 <= j < back@.len() ==> (#[trigger] back@[j]).model() == all[all.len() - 1 - j],
            node_view_models(kept@) == not_excluded(all.take(i as int), excluded@),
        decreases back.len(),
    {
        let node = back.pop().unwrap();
        let ghost before = node_view_models(kept@);
        proof {
            assert(node.model() == all[i as int]);
            assert(all.take(i + 1).drop_last() =~= all.take(i as int));
            assert(all.take(i + 1).last() == all[i as int]);
        }
        if !excluded.contains(node.id.as_str()) {
            kept.push(node);
            proof {
                assert(node_view_models(kept@) =~= before.push(node.model()));
            }
        }
        i += 1;
    }
    proof {
        assert(all.take(i as int) =~= all);
    }
    kept
}

/// The prefix that a search for nearby nodes asks for: the prefix that the
/// request gives, or the geohash of its point at the precision of its
/// radius.
pub open spec fn wanted_prefix(
    prefix: Option<&str>,
    point: Option<(i64, i64)>,
    radius_mm: Option<i64>,
) -> Option<Seq<u8>> {
    match prefix {
        Some(prefix) => if prefix@.len() == 0 {
            None
        } else {
            Some(utf8(prefix@))
        },
        None => match point {
            Some((lat, lon)) => Some(
                geohash(
                    lat as int,
                    lon as int,
                    precision_for(
                        match radius_mm {
                            Some(radius) => radius as int,
                            None => DEFAULT_RADIUS_MM as int,
                        },
                    ),
                ),
            ),
            None => None,
        },
    }
}

/// The radius of a search for nearby nodes that names none: ten
/// kilometres, in millimetres.
pub const DEFAULT_RADIUS_MM: i64 = 10000000;

/// The geohash prefix of a search for nearby nodes. The request is refused
/// where it gives an empty prefix, and where it gives neither a prefix nor
/// a point. The point is given in ten-millionths of a degree, the radius in
/// millimetres.
pub fn nearby_prefix(prefix: Option<&str>, point: Option<(i64, i64)>, radius_mm: Option<i64>) -> (r: Result<
    String,
    ServiceError,
>)
    ensures
        match wanted_prefix(prefix, point, radius_mm) {
            Some(bytes) => r matches Ok(text) && utf8(text@) == bytes,
            None => r matches Err(e) && e is BadRequest,
        },
{
    match prefix {
        Some(prefix) => {
            if prefix.is_empty() {
                return Err(
                    ServiceError::BadRequest("geo_hash_prefix cannot be empty".to_owned()),
                );
            }
            Ok(prefix.to_owned())
        },
        None => match point {
            Some((lat, lon)) => {
                let radius = match radius_mm {
                    Some(radius) => radius,
                    None => DEFAULT_RADIUS_MM,
                };
                Ok(encode_geohash(lat, lon, geohash_precision_for_radius(radius)))
            },
            None => Err(
                ServiceError::BadRequest("geo_hash_prefix or lat/lon is required".to_owned()),
            ),
        },
    }
}

/// The ids that a search for nearby nodes leaves out: the excluded ids and,
/// where the search has a start, the targets of those edges of the start
/// whose type is excluded.
pub open spec fn nearby_excluded(
    graph: GraphModel,
    start: Option<&str>,
    excluded_types: Set<Seq<u8>>,
    excluded_ids: Set<Seq<u8>>,
) -> Set<Seq<u8>> {
    match start {
        Some(start) => excluded_ids.union(
            blocked_targets(graph[utf8(start@)].edges, excluded_types),
        ),
        None => excluded_ids,
    }
}

/// The ids that a search for nearby nodes leaves out. The request is
/// refused where it names a start that is no cached node.
pub fn nearby_exclusions(
    graph: &Graph,
    start: Option<&str>,
    exclude_edge_types: &Option<String>,
    exclude_ids: &Option<String>,
) -> (r: Result<IdSet, ServiceError>)
    ensures
        match start {
            Some(name) => if graph@.contains_key(utf8(name@)) {
                r matches Ok(set) && set@ == nearby_excluded(
                    graph@,
                    start,
                    csv_items(*exclude_edge_types),
                    csv_items(*exclude_ids),
                )
            } else {
                r matches Err(e) && e is NotFound
            },
            None => r matches Ok(set) && set@ == csv_items(*exclude_ids),
        },
{
    let excluded_types = parse_csv_set(exclude_edge_types);
    let mut excluded = parse_csv_set(exclude_ids);
    if let Some(name) = start {
        let origin = match graph.get_node(name) {
            Some(node) => node,
            None => {
                return Err(ServiceError::NotFound("start node not found".to_owned()));
            },
        };
        let ghost edges = edge_models(origin.neighbors@);
        let ghost named = excluded@;
        let mut i: usize = 0;
        proof {
            assert(edges.take(0) =~= Seq::<EdgeModel>::empty());
            assert(excluded@ =~= named.union(blocked_targets(edges.take(0), excluded_types@)));
        }
        while i < origin.neighbors.len()
            invariant
                0 <= i <= origin.neighbors.len(),
                edges == edge_models(origin.neighbors@),
                excluded@ == named.union(blocked_targets(edges.take(i as int), excluded_types@)),
            decreases origin.neighbors.len() - i,
        {
            proof {
                assert(edges.take(i + 1).drop_last() =~= edges.take(i as int));
                assert(edges.take(i + 1).last() == edges[i as int]);
            }
            let edge = &origin.neighbors[i];
            if is_edge_type_excluded(edge, &excluded_types) {
                excluded.insert(edge.to.clone());
                proof {
                    assert(excluded@ =~= named.union(
                        blocked_targets(edges.take(i + 1), excluded_types@),
                    ));
                }
            }
            i += 1;
        }
        proof {
            assert(edges.take(i as int) =~= edges);
        }
    }
    Ok(excluded)
}

/// What a search for nearby nodes shows: the active nodes of the type whose
/// geohash starts with the prefix, without the excluded ids, in ascending
/// order of their ids, cut to the limit.
pub open spec fn nearby_listing(
    geo: Map<Seq<u8>, Seq<u8>>,
    index: Map<Seq<u8>, Seq<u8>>,
    tables: Tables,
    kind: Seq<u8>,
    geo_key: Seq<u8>,
    prefix: Seq<u8>,
    excluded: Set<Seq<u8>>,
    limit: Option<usize>,
    schema: SchemaCache,
    hydrate: bool,
) -> Seq<(Seq<u8>, NodeModel)> {
    cut_to(
        not_excluded(
            geo_listing(geo, index, tables, kind, geo_key, prefix, None, schema, hydrate),
            excluded,
        ),
        limit,
    )
}

/// Without excluded ids every node is kept.
pub proof fn lemma_none_excluded(nodes: Seq<(Seq<u8>, NodeModel)>)
    ensures
        not_excluded(nodes, Set::empty()) == nodes,
    decreases nodes.len(),
{
    if nodes.len() > 0 {
        lemma_none_excluded(nodes.drop_last());
        assert(nodes.drop_last().push(nodes.last()) =~= nodes);
    }
}

/// The key under which nodes keep their geohash, unless a request names
/// another.
pub const GEO_HASH_KEY: &'static str = "geo_hash";

/// The key under which nodes keep their place as `lat,lon`, unless a
/// request for recommendations names another.
pub const GEO_KEY: &'static str = "location";

/// The key under which nodes keep the number that a request for
/// recommendations may bound, unless the request names another.
pub const NUM_KEY: &'static str = "rating";

/// The key that a request uses: the one that it names, or the usual one.
pub fn key_or<'a>(named: Option<&'a str>, usual: &'a str) -> (key: &'a str)
    ensures
        key@ == match named {
            Some(name) => name@,
            None => usual@,
        },
{
    match named {
        Some(name) => name,
        None => usual,
    }
}

/// The limit that a search for nearby nodes hands to the listing by
/// geohash prefix: its own limit where no id is excluded, and none where
/// some are, since the excluded ones leave before the rest is cut.
pub fn listing_limit(excluded: &IdSet, limit: Option<usize>) -> (r: Option<usize>)
    ensures
        r == if excluded@ == Set::<Seq<u8>>::empty() {
            limit
        } else {
            None
        },
{
    if excluded.is_empty() {
        limit
    } else {
        None
    }
}

/// The nodes of a listing without the excluded ids, in their order, cut to
/// the limit.
pub fn kept_and_cut(listed: Vec<NodeView>, excluded: &IdSet, limit: Option<usize>) -> (found: Vec<
    NodeView,
>)
    ensures
        node_view_models(found@) == cut_to(
            not_excluded(node_view_models(listed@), excluded@),
            limit,
        ),
{
    let ghost whole = node_view_models(listed@);
    let mut found = if excluded.is_empty() {
        proof {
            lemma_none_excluded(whole);
        }
        listed
    } else {
        drop_excluded(listed, excluded)
    };
    if let Some(most) = limit {
        let ghost kept = node_view_models(found@);
        found.truncate(most);
        proof {
            assert(node_view_models(found@) =~= cut_to(kept, Some(most)));
        }
    }
    found
}

/// Searches the tables of one snapshot for the active nodes of a type whose
/// geohash starts with a prefix, leaves out the excluded ids, and cuts the
/// rest, in ascending order of the ids, to the limit.
pub fn list_nearby_in(
    geo_index: &Snapshot,
    node_index: &Snapshot,
    nodes: &Snapshot,
    node_data: &Snapshot,
    edges: &Snapshot,
    edge_data: &Snapshot,
    schema: &SchemaCache,
    kind: &str,
    geo_hash_key: &str,
    prefix: &str,
    excluded: &IdSet,
    limit: Option<usize>,
    hydrate: bool,
) -> (r: Result<Vec<NodeView>, redb::Error>)
    ensures
        r matches Ok(found) ==> node_view_models(found@) == nearby_listing(
            snapshot_rows(geo_index),
            snapshot_rows(node_index),
            tables_of(nodes, node_data, edges, edge_data),
            utf8(kind@),
            utf8(geo_hash_key@),
            utf8(prefix@),
            excluded@,
            limit,
            *schema,
            hydrate,
        ),
{
    let store_limit = listing_limit(excluded, limit);
    let listed = list_nodes_by_geo_prefix_in(
        geo_index,
        node_index,
        nodes,
        node_data,
        edges,
        edge_data,
        kind,
        geo_hash_key,
        prefix,
        store_limit,
        schema,
        hydrate,
    )?;
    let ghost whole = geo_listing(
        snapshot_rows(geo_index),
        snapshot_rows(node_index),
        tables_of(nodes, node_data, edges, edge_data),
        utf8(kind@),
        utf8(geo_hash_key@),
        utf8(prefix@),
        None,
        *schema,
        hydrate,
    );
    proof {
        if excluded@ == Set::<Seq<u8>>::empty() {
            lemma_none_excluded(whole);
            lemma_none_excluded(cut_to(whole, limit));
            assert(cut_to(cut_to(whole, limit), limit) =~= cut_to(whole, limit));
        }
    }
    Ok(kept_and_cut(listed, excluded, limit))
}

/// What a search gives is a search for nearby nodes in some state of the
/// tables.
pub open spec fn is_nearby_listing(
    found: Seq<(Seq<u8>, NodeModel)>,
    kind: Seq<u8>,
    geo_key: Seq<u8>,
    prefix: Seq<u8>,
    excluded: Set<Seq<u8>>,
    limit: Option<usize>,
    schema: SchemaCache,
    hydrate: bool,
) -> bool {
    exists|geo: Map<Seq<u8>, Seq<u8>>, index: Map<Seq<u8>, Seq<u8>>, tables: Tables|
        found == #[trigger] nearby_listing(
            geo,
            index,
            tables,
            kind,
            geo_key,
            prefix,
            excluded,
            limit,
            schema,
            hydrate,
        )
}

/// The key of the geohash that a search uses: the one that the request
/// names, or `geo_hash`.
pub open spec fn geo_key_or_default(geo_hash_key: Option<&str>) -> Seq<u8> {
    match geo_hash_key {
        Some(key) => utf8(key@),
        None => utf8(GEO_HASH_KEY@),
    }
}

/// Searches one snapshot of the store for the active nodes of a type whose
/// geohash starts with a prefix, without the excluded ids, in ascending
/// order of their ids, cut to the limit.
pub fn list_nearby(
    db: &redb::Database,
    schema: &SchemaCache,
    kind: &str,
    geo_hash_key: Option<&str>,
    prefix: &str,
    excluded: &IdSet,
    limit: Option<usize>,
    hydrate: bool,
) -> (r: Result<Vec<NodeView>, ServiceError>)
    ensures
        r matches Err(e) ==> e is Storage,
        r matches Ok(found) ==> is_nearby_listing(
            node_view_models(found@),
            utf8(kind@),
            geo_key_or_default(geo_hash_key),
            utf8(prefix@),
            excluded@,
            limit,
            *schema,
            hydrate,
        ),
{
    let key = match geo_hash_key {
        Some(key) => key,
        None => GEO_HASH_KEY,
    };
    outcome(search_nearby(db, schema, kind, key, prefix, excluded, limit, hydrate))
}

fn search_nearby(
    db: &redb::Database,
    schema: &SchemaCache,
    kind: &str,
    key: &str,
    prefix: &str,
    excluded: &IdSet,
    limit: Option<usize>,
    hydrate: bool,
) -> (r: Result<Vec<NodeView>, redb::Error>)
    ensures
        r matches Ok(found) ==> is_nearby_listing(
            node_view_models(found@),
            utf8(kind@),
            utf8(key@),
            utf8(prefix@),
            excluded@,
            limit,
            *schema,
            hydrate,
        ),
{
    proof {
        lemma_tables_are_named();
    }
    let txn = begin_read(db)?;
    let geo_index = open_snapshot(&txn, GEO_INDEX_TABLE)?;
    let node_index = open_snapshot(&txn, NODE_INDEX_TABLE)?;
    let nodes = open_snapshot(&txn, NODES_TABLE)?;
    let node_data = open_snapshot(&txn, NODE_DATA_TABLE)?;
    let edges = open_snapshot(&txn, EDGES_TABLE)?;
    let edge_data = open_snapshot(&txn, EDGE_DATA_TABLE)?;
    let found = list_nearby_in(
        &geo_index,
        &node_index,
        &nodes,
        &node_data,
        &edges,
        &edge_data,
        schema,
        kind,
        key,
        prefix,
        excluded,
        limit,
        hydrate,
    )?;
    proof {
        assert(node_view_models(found@) == nearby_listing(
            snapshot_rows(&geo_index),
            snapshot_rows(&node_index),
            tables_of(&nodes, &node_data, &edges, &edge_data),
            utf8(kind@),
            utf8(key@),
            utf8(prefix@),
            excluded@,
            limit,
            *schema,
            hydrate,
        ));
    }
    Ok(found)
}

/// Nothing that a search for nearby nodes gives has an excluded id, and
/// where there is a limit, it gives no more.
pub proof fn lemma_nearby_listing_bounds(
    geo: Map<Seq<u8>, Seq<u8>>,
    index: Map<Seq<u8>, Seq<u8>>,
    tables: Tables,
    kind: Seq<u8>,
    geo_key: Seq<u8>,
    prefix: Seq<u8>,
    excluded: Set<Seq<u8>>,
    limit: Option<usize>,
    schema: SchemaCache,
    hydrate: bool,
)
    ensures
        ({
            let found = nearby_listing(
                geo,
                index,
                tables,
                kind,
                geo_key,
                prefix,
                excluded,
                limit,
                schema,
                hydrate,
            );
            &&& forall|i: int| 0 <= i < found.len() ==> !excluded.contains((#[trigger] found[i]).0)
            &&& limit matches Some(most) ==> found.len() <= most
        }),
{
    let whole = geo_listing(geo, index, tables, kind, geo_key, prefix, None, schema, hydrate);
    lemma_not_excluded(whole, excluded);
}

/// No node that `not_excluded` keeps has an excluded id.
pub proof fn lemma_not_excluded(nodes: Seq<(Seq<u8>, NodeModel)>, excluded: Set<Seq<u8>>)
    ensures
        forall|i: int|
            0 <= i < not_excluded(nodes, excluded).len() ==> !excluded.contains(
                (#[trigger] not_excluded(nodes, excluded)[i]).0,
            ),
    decreases nodes.len(),
{
    if nodes.len() > 0 {
        lemma_not_excluded(nodes.drop_last(), excluded);
        let before = not_excluded(nodes.drop_last(), excluded);
        let out = not_excluded(nodes, excluded);
        assert forall|i: int| 0 <= i < out.len() implies !excluded.contains((#[trigger] out[i]).0) by {
            if excluded.contains(nodes.last().0) {
                assert(out == before);
            } else {
                assert(out == before.push(nodes.last()));
                if i < before.len() {
                    assert(out[i] == before[i]);
                }
            }
        }
    }
}

} // verus!
