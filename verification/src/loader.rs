use vstd::prelude::*;
use crate::text::{utf8, strings_utf8};
use crate::codec::decode;
use crate::keys::{cut2, cut3, join2, prefix2, split_two, split_three, edge_key};
use crate::assoc::{has_key, key_index};
use crate::props::Pair;
use crate::graph::{Graph, GraphModel, empty_node, edge_in, with_node, with_edge, with_node_data, with_edge_data};
use crate::idset::IdSet;
use crate::lru::{LruCache, holds_decodings, decode_component_cached};
use crate::schema::{SchemaCache, STATUS_KEY, STATUS_ACTIVE, deserialize_schema_fields, decoded_fields};
use crate::store::{Snapshot, snapshot_rows, snapshot_get, prefix_rows, has_scan, scan_rows, row_ahead, row_bytes};
use crate::reads::{ids_of_rows, edges_of_rows, string_pairs, node_ids_by_index, edge_ids_by_index};
use crate::views::{set_of, all_rows, edge_key_set};

verus! {

/// The graph with a node for each id.
pub open spec fn with_nodes(graph: GraphModel, ids: Seq<Seq<u8>>) -> GraphModel
    decreases ids.len(),
{
    if ids.len() == 0 {
        graph
    } else {
        with_node(with_nodes(graph, ids.drop_last()), ids.last())
    }
}

/// An edge whose two ends are among the given nodes.
pub open spec fn joins(edge: (Seq<u8>, Seq<u8>), nodes: Set<Seq<u8>>) -> bool {
    nodes.contains(edge.0) && nodes.contains(edge.1)
}

/// The edges of a list whose two ends are among the given nodes.
pub open spec fn joining(edges: Seq<(Seq<u8>, Seq<u8>)>, nodes: Set<Seq<u8>>) -> Seq<
    (Seq<u8>, Seq<u8>),
>
    decreases edges.len(),
{
    if edges.len() == 0 {
        Seq::empty()
    } else {
        let before = joining(edges.drop_last(), nodes);
        if joins(edges.last(), nodes) {
            before.push(edges.last())
        } else {
            before
        }
    }
}

/// The graph with each edge of the list, in its order.
pub open spec fn with_edges(graph: GraphModel, edges: Seq<(Seq<u8>, Seq<u8>)>) -> GraphModel
    decreases edges.len(),
{
    if edges.len() == 0 {
        graph
    } else {
        with_edge(with_edges(graph, edges.drop_last()), edges.last().0, edges.last().1)
    }
}

/// The node, key and value that a property row gives to the cache: the node
/// is active and the key is kept in memory.
pub open spec fn cached_node_property(row: Pair, active: Set<Seq<u8>>, schema: SchemaCache) -> Option<
    (Seq<u8>, Pair),
> {
    match cut2(row.0) {
        Some((id, key)) => match decode(id) {
            Some(id) => if active.contains(id) {
                match decode(key) {
                    Some(key) => if schema.node_allows(key) {
                        Some((id, (key, row.1)))
                    } else {
                        None
                    },
                    None => None,
                }
            } else {
                None
            },
            None => None,
        },
        None => None,
    }
}

/// The graph with the properties that the property rows of the nodes give
/// to the cache.
pub open spec fn with_node_rows(
    graph: GraphModel,
    rows: Seq<Pair>,
    active: Set<Seq<u8>>,
    schema: SchemaCache,
) -> GraphModel
    decreases rows.len(),
{
    if rows.len() == 0 {
        graph
    } else {
        let before = with_node_rows(graph, rows.drop_last(), active, schema);
        match cached_node_property(rows.last(), active, schema) {
            Some((id, property)) => with_node_data(before, id, property.0, property.1),
            None => before,
        }
    }
}

/// The edge, key and value that a property row gives to the cache: the edge
/// is among the cached ones and the key is kept in memory.
pub open spec fn cached_edge_property(row: Pair, cached: Set<Seq<u8>>, schema: SchemaCache) -> Option<
    ((Seq<u8>, Seq<u8>), Pair),
> {
    match cut3(row.0) {
        Some((from, to, key)) => match (decode(from), decode(to)) {
            (Some(from), Some(to)) => if cached.contains(join2(from, to)) {
                match decode(key) {
                    Some(key) => if schema.edge_allows(key) {
                        Some(((from, to), (key, row.1)))
                    } else {
                        None
                    },
                    None => None,
                }
            } else {
                None
            },
            _ => None,
        },
        None => None,
    }
}

/// The graph with the properties that the property rows of the edges give
/// to the cache.
pub open spec fn with_edge_rows(
    graph: GraphModel,
    rows: Seq<Pair>,
    cached: Set<Seq<u8>>,
    schema: SchemaCache,
) -> GraphModel
    decreases rows.len(),
{
    if rows.len() == 0 {
        graph
    } else {
        let before = with_edge_rows(graph, rows.drop_last(), cached, schema);
        match cached_edge_property(rows.last(), cached, schema) {
            Some((edge, property)) => with_edge_data(
                before,
                edge.0,
                edge.1,
                property.0,
                property.1,
            ),
            None => before,
        }
    }
}

/// The ids that the node index names as active.
pub open spec fn active_node_ids(node_index: Map<Seq<u8>, Seq<u8>>) -> Seq<Seq<u8>> {
    ids_of_rows(prefix_rows(node_index, prefix2(utf8(STATUS_KEY@), utf8(STATUS_ACTIVE@))))
}

/// The edges that the edge index names as active.
pub open spec fn active_edge_ids(edge_index: Map<Seq<u8>, Seq<u8>>) -> Seq<(Seq<u8>, Seq<u8>)> {
    edges_of_rows(prefix_rows(edge_index, prefix2(utf8(STATUS_KEY@), utf8(STATUS_ACTIVE@))))
}

/// The cache that the tables of a snapshot give: the active nodes, the
/// active edges between them, and of their properties those that are kept
/// in memory.
pub open spec fn loaded_graph(
    node_index: Map<Seq<u8>, Seq<u8>>,
    edge_index: Map<Seq<u8>, Seq<u8>>,
    node_data: Map<Seq<u8>, Seq<u8>>,
    edge_data: Map<Seq<u8>, Seq<u8>>,
    schema: SchemaCache,
) -> GraphModel {
    let ids = active_node_ids(node_index);
    let active = set_of(ids);
    let edges = joining(active_edge_ids(edge_index), active);
    if ids.len() == 0 {
        Map::empty()
    } else {
        with_edge_rows(
            with_node_rows(
                with_edges(with_nodes(Map::empty(), ids), edges),
                all_rows(node_data),
                active,
                schema,
            ),
            all_rows(edge_data),
            edge_key_set(edges),
            schema,
        )
    }
}

/// The nodes of the graph are the given ones, and its edges are the given
/// ones.
pub open spec fn holds_exactly(
    graph: GraphModel,
    nodes: Set<Seq<u8>>,
    edges: Seq<(Seq<u8>, Seq<u8>)>,
) -> bool {
    &&& forall|id: Seq<u8>| graph.contains_key(id) <==> nodes.contains(id)
    &&& forall|from: Seq<u8>, to: Seq<u8>| #[trigger]
        edge_in(graph, from, to) <==> edges.contains((from, to))
}

/// The cache is what the four tables give under the whitelists: it is the
/// loaded graph, it holds exactly the nodes that the node index names as
/// active and the edges between them that the edge index names as active,
/// and the rows that the indexes hold under the active status can be
/// listed (the edge index is read only where there is an active node).
pub open spec fn is_load_of(
    graph: GraphModel,
    node_index: Map<Seq<u8>, Seq<u8>>,
    edge_index: Map<Seq<u8>, Seq<u8>>,
    node_data: Map<Seq<u8>, Seq<u8>>,
    edge_data: Map<Seq<u8>, Seq<u8>>,
    schema: SchemaCache,
) -> bool {
    &&& graph == loaded_graph(node_index, edge_index, node_data, edge_data, schema)
    &&& holds_exactly(
        graph,
        set_of(active_node_ids(node_index)),
        joining(active_edge_ids(edge_index), set_of(active_node_ids(node_index))),
    )
    &&& has_scan(node_index, prefix2(utf8(STATUS_KEY@), utf8(STATUS_ACTIVE@)))
    &&& (active_node_ids(node_index).len() > 0 ==> has_scan(
        edge_index,
        prefix2(utf8(STATUS_KEY@), utf8(STATUS_ACTIVE@)),
    ))
}

/// Every property of the cache is one that the whitelists keep in memory.
pub open spec fn respects_whitelist(graph: GraphModel, schema: SchemaCache) -> bool {
    &&& forall|id: Seq<u8>, key: Seq<u8>|
        graph.contains_key(id) && #[trigger] graph[id].data.contains_key(key)
            ==> schema.node_allows(key)
    &&& forall|id: Seq<u8>, i: int, key: Seq<u8>|
        graph.contains_key(id) && 0 <= i < graph[id].edges.len()
            && #[trigger] graph[id].edges[i].1.contains_key(key) ==> schema.edge_allows(key)
}

/// Adding a node keeps what the cache holds in step with the nodes and
/// edges that it was given, and keeps it respecting the whitelists.
pub proof fn lemma_with_node_holds(
    graph: GraphModel,
    nodes: Set<Seq<u8>>,
    edges: Seq<(Seq<u8>, Seq<u8>)>,
    schema: SchemaCache,
    id: Seq<u8>,
)
    requires
        holds_exactly(graph, nodes, edges),
        respects_whitelist(graph, schema),
    ensures
        holds_exactly(with_node(graph, id), nodes.insert(id), edges),
        respects_whitelist(with_node(graph, id), schema),
{
    let next = with_node(graph, id);
    if !graph.contains_key(id) {
        assert(next[id] == empty_node());
        assert forall|from: Seq<u8>, to: Seq<u8>| #[trigger]
            edge_in(next, from, to) <==> edges.contains((from, to)) by {
            if from == id {
                if has_key(next[from].edges, to) {
                    let i = key_index(next[from].edges, to);
                    assert(0 <= i < next[from].edges.len());
                }
                assert(!edge_in(next, from, to));
                assert(!edge_in(graph, from, to));
            } else {
                assert(next.contains_key(from) <==> graph.contains_key(from));
                if graph.contains_key(from) {
                    assert(next[from] == graph[from]);
                }
                assert(edge_in(graph, from, to) <==> edge_in(next, from, to));
            }
        }
        assert forall|n: Seq<u8>, key: Seq<u8>|
            next.contains_key(n) && #[trigger] next[n].data.contains_key(key) implies schema.node_allows(
            key,
        ) by {
            if n != id {
                assert(graph[n].data.contains_key(key));
            }
        }
        assert forall|n: Seq<u8>, i: int, key: Seq<u8>|
            next.contains_key(n) && 0 <= i < next[n].edges.len()
                && #[trigger] next[n].edges[i].1.contains_key(key) implies schema.edge_allows(key) by {
            if n != id {
                assert(graph[n].edges[i].1.contains_key(key));
            }
        }
        assert forall|n: Seq<u8>| next.contains_key(n) <==> nodes.insert(id).contains(n) by {}
    } else {
        assert(nodes.insert(id) =~= nodes);
    }
}

/// Adding an edge out of one of the nodes keeps what the cache holds in step
/// with the nodes and edges that it was given, and keeps it respecting the
/// whitelists.
pub proof fn lemma_with_edge_holds(
    graph: GraphModel,
    nodes: Set<Seq<u8>>,
    edges: Seq<(Seq<u8>, Seq<u8>)>,
    schema: SchemaCache,
    from: Seq<u8>,
    to: Seq<u8>,
)
    requires
        holds_exactly(graph, nodes, edges),
        respects_whitelist(graph, schema),
        nodes.contains(from),
    ensures
        holds_exactly(with_edge(graph, from, to), nodes, edges.push((from, to))),
        respects_whitelist(with_edge(graph, from, to), schema),
{
    let next = with_edge(graph, from, to);
    let more = edges.push((from, to));
    assert(graph.contains_key(from));
    assert(more[edges.len() as int] == (from, to));
    assert(more.contains((from, to)));
    assert forall|a: Seq<u8>, b: Seq<u8>| more.contains((a, b)) <==> (edges.contains((a, b)) || (
    a == from && b == to)) by {
        if edges.contains((a, b)) {
            let i = choose|i: int| 0 <= i < edges.len() && edges[i] == (a, b);
            assert(more[i] == (a, b));
        }
        if more.contains((a, b)) {
            let i = choose|i: int| 0 <= i < more.len() && more[i] == (a, b);
            if i < edges.len() {
                assert(edges[i] == (a, b));
            }
        }
    }
    let old_edges = graph[from].edges;
    if has_key(old_edges, to) {
        assert(next == graph);
        assert(edge_in(graph, from, to));
        assert(edges.contains((from, to)));
        assert forall|a: Seq<u8>, b: Seq<u8>| #[trigger]
            edge_in(next, a, b) <==> more.contains((a, b)) by {
            assert(edge_in(graph, a, b) <==> edges.contains((a, b)));
        }
    } else {
        let new_edges = old_edges.push((to, Map::empty()));
        assert(next[from].edges == new_edges);
        assert(new_edges[old_edges.len() as int].0 == to);
        assert(has_key(new_edges, to));
        assert forall|b: Seq<u8>| has_key(new_edges, b) <==> (has_key(old_edges, b) || b == to) by {
            if has_key(new_edges, b) {
                let i = key_index(new_edges, b);
                if i < old_edges.len() {
                    assert(old_edges[i].0 == b);
                    assert(has_key(old_edges, b));
                }
            }
            if has_key(old_edges, b) {
                let i = key_index(old_edges, b);
                assert(new_edges[i].0 == b);
            }
        }
        assert forall|a: Seq<u8>, b: Seq<u8>| #[trigger]
            edge_in(next, a, b) <==> more.contains((a, b)) by {
            assert(edge_in(graph, a, b) <==> edges.contains((a, b)));
            assert(next.contains_key(a) <==> graph.contains_key(a));
            if a != from && graph.contains_key(a) {
                assert(next[a] == graph[a]);
            }
        }
        assert forall|id: Seq<u8>, i: int, key: Seq<u8>|
            next.contains_key(id) && 0 <= i < next[id].edges.len()
                && #[trigger] next[id].edges[i].1.contains_key(key) implies schema.edge_allows(key) by {
            if id == from {
                if i < old_edges.len() {
                    assert(new_edges[i] == old_edges[i]);
                    assert(graph[id].edges[i].1.contains_key(key));
                }
            } else {
                assert(graph[id].edges[i].1.contains_key(key));
            }
        }
        assert forall|id: Seq<u8>, key: Seq<u8>|
            next.contains_key(id) && #[trigger] next[id].data.contains_key(key) implies schema.node_allows(
            key,
        ) by {
            assert(graph[id].data.contains_key(key));
        }
    }
}

/// Setting a node property that the whitelist keeps in memory changes
/// neither the nodes nor the edges of the cache, and keeps it respecting the
/// whitelists.
pub proof fn lemma_with_node_data_holds(graph: GraphModel, nodes: Set<Seq<u8>>, edges: Seq<(Seq<u8>, Seq<u8>)>, schema: SchemaCache, id: Seq<u8>, key: Seq<u8>, value: Seq<u8>)
    requires
        holds_exactly(graph, nodes, edges),
        respects_whitelist(graph, schema),
        schema.node_allows(key),
    ensures
        holds_exactly(with_node_data(graph, id, key, value), nodes, edges),
        respects_whitelist(with_node_data(graph, id, key, value), schema),
{
    let next = with_node_data(graph, id, key, value);
    assert forall|a: Seq<u8>, b: Seq<u8>| #[trigger]
        edge_in(next, a, b) <==> edges.contains((a, b)) by {
        assert(edge_in(graph, a, b) <==> edge_in(next, a, b));
    }
    assert forall|n: Seq<u8>, k: Seq<u8>|
        next.contains_key(n) && #[trigger] next[n].data.contains_key(k) implies schema.node_allows(
        k,
    ) by {
        if k != key {
            assert(graph[n].data.contains_key(k));
        }
    }
    assert forall|n: Seq<u8>, i: int, k: Seq<u8>|
        next.contains_key(n) && 0 <= i < next[n].edges.len()
            && #[trigger] next[n].edges[i].1.contains_key(k) implies schema.edge_allows(k) by {
        assert(graph[n].edges[i].1.contains_key(k));
    }
}

/// Setting an edge property that the whitelist keeps in memory changes
/// neither the nodes nor the edges of the cache, and keeps it respecting the
/// whitelists.
pub proof fn lemma_with_edge_data_holds(graph: GraphModel, nodes: Set<Seq<u8>>, edges: Seq<(Seq<u8>, Seq<u8>)>, schema: SchemaCache, from: Seq<u8>, to: Seq<u8>, key: Seq<u8>, value: Seq<u8>)
    requires
        holds_exactly(graph, nodes, edges),
        respects_whitelist(graph, schema),
        schema.edge_allows(key),
    ensures
        holds_exactly(with_edge_data(graph, from, to, key, value), nodes, edges),
        respects_whitelist(with_edge_data(graph, from, to, key, value), schema),
{
    let next = with_edge_data(graph, from, to, key, value);
    if next != graph {
        let old_edges = graph[from].edges;
        let at = key_index(old_edges, to);
        let new_edges = next[from].edges;
        assert forall|a: Seq<u8>, b: Seq<u8>| #[trigger]
            edge_in(next, a, b) <==> edges.contains((a, b)) by {
            if a == from {
                if has_key(new_edges, b) {
                    let i = key_index(new_edges, b);
                    assert(old_edges[i].0 == b);
                    assert(has_key(old_edges, b));
                }
                if has_key(old_edges, b) {
                    let i = key_index(old_edges, b);
                    assert(new_edges[i].0 == b);
                }
            }
            assert(edge_in(graph, a, b) <==> edge_in(next, a, b));
        }
        assert forall|n: Seq<u8>, i: int, k: Seq<u8>|
            next.contains_key(n) && 0 <= i < next[n].edges.len()
                && #[trigger] next[n].edges[i].1.contains_key(k) implies schema.edge_allows(k) by {
            if n == from && i == at {
                if k != key {
                    assert(graph[n].edges[i].1.contains_key(k));
                }
            } else {
                assert(graph[n].edges[i].1.contains_key(k));
            }
        }
        assert forall|n: Seq<u8>, k: Seq<u8>|
            next.contains_key(n) && #[trigger] next[n].data.contains_key(k) implies schema.node_allows(
            k,
        ) by {
            assert(graph[n].data.contains_key(k));
        }
    }
}

/// The items among the first `i + 1` are those among the first `i` and the
/// item at `i`.
pub proof fn lemma_set_of_take(ids: Seq<Seq<u8>>, i: int)
    requires
        0 <= i < ids.len(),
    ensures
        set_of(ids.take(i + 1)) == set_of(ids.take(i)).insert(ids[i]),
{
    let more = ids.take(i + 1);
    let less = ids.take(i);
    assert forall|id: Seq<u8>| set_of(more).contains(id) <==> set_of(less).insert(ids[i]).contains(
        id,
    ) by {
        if more.contains(id) {
            let j = choose|j: int| 0 <= j < more.len() && more[j] == id;
            if j < i {
                assert(less[j] == id);
            }
        }
        if less.contains(id) {
            let j = choose|j: int| 0 <= j < less.len() && less[j] == id;
            assert(more[j] == id);
        }
        assert(more[i] == ids[i]);
    }
    assert(set_of(more) =~= set_of(less).insert(ids[i]));
}

/// Every edge that `joining` keeps has its two ends among the nodes.
pub proof fn lemma_joining_joins(edges: Seq<(Seq<u8>, Seq<u8>)>, nodes: Set<Seq<u8>>)
    ensures
        forall|i: int|
            0 <= i < joining(edges, nodes).len() ==> joins(
                #[trigger] joining(edges, nodes)[i],
                nodes,
            ),
    decreases edges.len(),
{
    if edges.len() > 0 {
        lemma_joining_joins(edges.drop_last(), nodes);
        let before = joining(edges.drop_last(), nodes);
        let out = joining(edges, nodes);
        assert forall|i: int| 0 <= i < out.len() implies joins(#[trigger] out[i], nodes) by {
            if joins(edges.last(), nodes) {
                assert(out == before.push(edges.last()));
                if i < before.len() {
                    assert(out[i] == before[i]);
                }
            } else {
                assert(out == before);
            }
        }
    }
}

/// The cache before any property is put into it: it holds the active
/// nodes and, of the edges that the index names as active, those between
/// two nodes of `active`, which are returned in the order of the index.
/// Where `active` holds the active nodes, the cache holds exactly these
/// nodes and edges.
pub fn linked_graph(
    active_nodes: &Vec<String>,
    active: &IdSet,
    active_edges: &Vec<(String, String)>,
) -> (r: (Graph, Vec<(String, String)>))
    ensures
        string_pairs(r.1@) == joining(string_pairs(active_edges@), active@),
        r.0@ == with_edges(
            with_nodes(Map::empty(), strings_utf8(active_nodes@)),
            string_pairs(r.1@),
        ),
        active@ == set_of(strings_utf8(active_nodes@)) ==> holds_exactly(
            r.0@,
            active@,
            string_pairs(r.1@),
        ),
        active@ == set_of(strings_utf8(active_nodes@)) ==> forall|schema: SchemaCache| #[trigger]
            respects_whitelist(r.0@, schema),
{
    let mut graph = Graph::new();
    let ghost ids = strings_utf8(active_nodes@);
    let ghost none = Seq::<(Seq<u8>, Seq<u8>)>::empty();
    let ghost any: SchemaCache = arbitrary();
    let mut i: usize = 0;
    proof {
        assert(ids.take(0) =~= Seq::<Seq<u8>>::empty());
        assert(set_of(ids.take(0)) =~= Set::<Seq<u8>>::empty());
        assert forall|from: Seq<u8>, to: Seq<u8>| !edge_in(graph@, from, to) by {}
    }
    while i < active_nodes.len()
        invariant
            0 <= i <= active_nodes.len(),
            ids == strings_utf8(active_nodes@),
            none == Seq::<(Seq<u8>, Seq<u8>)>::empty(),
            graph@ == with_nodes(Map::empty(), ids.take(i as int)),
            holds_exactly(graph@, set_of(ids.take(i as int)), none),
            forall|schema: SchemaCache| #[trigger] respects_whitelist(graph@, schema),
        decreases active_nodes.len() - i,
    {
        let ghost before = graph@;
        graph.add_node(active_nodes[i].as_str());
        proof {
            assert(ids.take(i + 1).drop_last() =~= ids.take(i as int));
            assert(ids.take(i + 1).last() == ids[i as int]);
            lemma_set_of_take(ids, i as int);
            assert(respects_whitelist(before, any));
            lemma_with_node_holds(before, set_of(ids.take(i as int)), none, any, ids[i as int]);
            assert forall|schema: SchemaCache| #[trigger] respects_whitelist(graph@, schema) by {
                assert(respects_whitelist(before, schema));
                lemma_with_node_holds(
                    before,
                    set_of(ids.take(i as int)),
                    none,
                    schema,
                    ids[i as int],
                );
            }
        }
        i += 1;
    }
    proof {
        assert(ids.take(i as int) =~= ids);
    }
    let ghost named = string_pairs(active_edges@);
    let ghost bare = graph@;
    let ghost exact = active@ == set_of(ids);
    let mut kept: Vec<(String, String)> = Vec::new();
    let mut i: usize = 0;
    proof {
        assert(named.take(0) =~= none);
        assert(string_pairs(kept@) =~= none);
    }
    while i < active_edges.len()
        invariant
            0 <= i <= active_edges.len(),
            named == string_pairs(active_edges@),
            exact == (active@ == set_of(ids)),
            string_pairs(kept@) == joining(named.take(i as int), active@),
            graph@ == with_edges(bare, string_pairs(kept@)),
            exact ==> holds_exactly(graph@, set_of(ids), string_pairs(kept@)),
            exact ==> forall|schema: SchemaCache| #[trigger] respects_whitelist(graph@, schema),
        decreases active_edges.len() - i,
    {
        proof {
            assert(named.take(i + 1).drop_last() =~= named.take(i as int));
            assert(named.take(i + 1).last() == named[i as int]);
        }
        let from = active_edges[i].0.as_str();
        let to = active_edges[i].1.as_str();
        if active.contains(from) && active.contains(to) {
            let ghost before = string_pairs(kept@);
            let ghost old_graph = graph@;
            graph.add_edge(from, to);
            kept.push((from.to_owned(), to.to_owned()));
            proof {
                assert(string_pairs(kept@) =~= before.push((utf8(from@), utf8(to@))));
                assert(string_pairs(kept@).drop_last() =~= before);
                if exact {
                    assert(respects_whitelist(old_graph, any));
                    lemma_with_edge_holds(old_graph, set_of(ids), before, any, utf8(from@), utf8(to@));
                    assert forall|schema: SchemaCache| #[trigger]
                        respects_whitelist(graph@, schema) by {
                        assert(respects_whitelist(old_graph, schema));
                        lemma_with_edge_holds(
                            old_graph,
                            set_of(ids),
                            before,
                            schema,
                            utf8(from@),
                            utf8(to@),
                        );
                    }
                }
            }
        }
        i += 1;
    }
    proof {
        assert(named.take(i as int) =~= named);
    }
    (graph, kept)
}

/// Puts into the cache the property that a property row of a node gives
/// to it: the node is active and the key is kept in memory. Another row is
/// passed over.
pub fn cache_node_row(
    row: &(String, String),
    active: &IdSet,
    schema: &SchemaCache,
    cache: &mut LruCache,
    graph: &mut Graph,
)
    ensures
        holds_decodings(old(cache).pairs()) ==> holds_decodings(final(cache).pairs()),
        holds_decodings(old(cache).pairs()) ==> final(graph)@ == match cached_node_property(
            row_bytes(*row),
            active@,
            *schema,
        ) {
            Some((id, property)) => with_node_data(old(graph)@, id, property.0, property.1),
            None => old(graph)@,
        },
{
    if let Some((id, key)) = split_two(row.0.as_str()) {
        if let Some(id) = decode_component_cached(id, cache) {
            if active.contains(id.as_str()) {
                if let Some(key) = decode_component_cached(key, cache) {
                    if schema.node_in_memory(key.as_str()) {
                        graph.set_node_data(id.as_str(), key.as_str(), row.1.as_str());
                    }
                }
            }
        }
    }
}

/// Puts into the cache the property that a property row of an edge gives
/// to it: the edge is among the cached ones and the key is kept in memory.
/// Another row is passed over.
pub fn cache_edge_row(
    row: &(String, String),
    cached: &IdSet,
    schema: &SchemaCache,
    cache: &mut LruCache,
    graph: &mut Graph,
)
    ensures
        holds_decodings(old(cache).pairs()) ==> holds_decodings(final(cache).pairs()),
        holds_decodings(old(cache).pairs()) ==> final(graph)@ == match cached_edge_property(
            row_bytes(*row),
            cached@,
            *schema,
        ) {
            Some((edge, property)) => with_edge_data(
                old(graph)@,
                edge.0,
                edge.1,
                property.0,
                property.1,
            ),
            None => old(graph)@,
        },
{
    if let Some((from, to, key)) = split_three(row.0.as_str()) {
        if let Some(from) = decode_component_cached(from, cache) {
            if let Some(to) = decode_component_cached(to, cache) {
                let edge = edge_key(from.as_str(), to.as_str());
                if cached.contains(edge.as_str()) {
                    if let Some(key) = decode_component_cached(key, cache) {
                        if schema.edge_in_memory(key.as_str()) {
                            graph.set_edge_data(
                                from.as_str(),
                                to.as_str(),
                                key.as_str(),
                                row.1.as_str(),
                            );
                        }
                    }
                }
            }
        }
    }
}

/// Builds the cache from the tables of one snapshot: the nodes that the
/// node index names as active, the edges between them that the edge index
/// names as active, and of the properties of both those that the
/// whitelists keep in memory.
pub fn load_graph_in(
    node_index: &Snapshot,
    edge_index: &Snapshot,
    node_data: &Snapshot,
    edge_data: &Snapshot,
    schema: &SchemaCache,
) -> (r: Result<Graph, redb::Error>)
    ensures
        r matches Ok(graph) ==> is_load_of(
            graph@,
            snapshot_rows(node_index),
            snapshot_rows(edge_index),
            snapshot_rows(node_data),
            snapshot_rows(edge_data),
            *schema,
        ) && respects_whitelist(graph@, *schema),
{
    let mut cache = LruCache::new(4096);
    let active_nodes = node_ids_by_index(node_index, STATUS_KEY, STATUS_ACTIVE)?;
    let ghost ids = strings_utf8(active_nodes@);
    if active_nodes.len() == 0 {
        let graph = Graph::new();
        proof {
            let named = active_edge_ids(snapshot_rows(edge_index));
            lemma_joining_joins(named, set_of(ids));
            assert forall|from: Seq<u8>, to: Seq<u8>| !joining(named, set_of(ids)).contains(
                (from, to),
            ) by {
                if joining(named, set_of(ids)).contains((from, to)) {
                    let i = choose|i: int|
                        0 <= i < joining(named, set_of(ids)).len() && joining(named, set_of(ids))[i]
                            == (from, to);
                    assert(joins(joining(named, set_of(ids))[i], set_of(ids)));
                    assert(ids.contains(from));
                }
            }
            assert forall|from: Seq<u8>, to: Seq<u8>| !edge_in(graph@, from, to) by {}
        }
        return Ok(graph);
    }
    let active = IdSet::from_list(&active_nodes);
    proof {
        assert(active@ =~= set_of(ids));
    }
    let active_edges = edge_ids_by_index(edge_index, STATUS_KEY, STATUS_ACTIVE)?;
    let (mut graph, kept) = linked_graph(&active_nodes, &active, &active_edges);
    let cached = crate::views::edge_keys_of(&kept);
    let ghost edges = string_pairs(kept@);
    let ghost linked = graph@;
    proof {
        reveal_strlit("");
        assert(utf8(""@) =~= Seq::<u8>::empty());
    }
    let mut scan = scan_rows(node_data, "")?;
    let ghost pairs = scan.rest();
    let ghost mut i: int = 0;
    let mut row = scan.next()?;
    proof {
        if pairs.len() > 0 {
            assert(pairs.drop_first() =~= pairs.skip(1));
        }
        assert(pairs.take(0) =~= Seq::<Pair>::empty());
    }
    while row.is_some()
        invariant
            0 <= i <= pairs.len(),
            row_ahead(row, scan.rest(), pairs, i),
            active@ == set_of(ids),
            holds_decodings(cache.pairs()),
            graph@ == with_node_rows(linked, pairs.take(i), active@, *schema),
            holds_exactly(graph@, set_of(ids), edges),
            respects_whitelist(graph@, *schema),
        decreases pairs.len() - i,
    {
        proof {
            assert(pairs.take(i + 1).drop_last() =~= pairs.take(i));
            assert(pairs.take(i + 1).last() == pairs[i]);
        }
        let found = row.unwrap();
        let ghost before = graph@;
        cache_node_row(&found, &active, schema, &mut cache, &mut graph);
        proof {
            match cached_node_property(pairs[i], active@, *schema) {
                Some((id, property)) => {
                    lemma_with_node_data_holds(
                        before,
                        set_of(ids),
                        edges,
                        *schema,
                        id,
                        property.0,
                        property.1,
                    );
                },
                None => {},
            }
        }
        proof {
            i = i + 1;
        }
        row = scan.next()?;
        proof {
            if i < pairs.len() {
                assert(pairs.skip(i).drop_first() =~= pairs.skip(i + 1));
            }
        }
    }
    proof {
        assert(pairs.take(i) =~= pairs);
    }
    let ghost filled = graph@;
    let mut scan = scan_rows(edge_data, "")?;
    let ghost pairs = scan.rest();
    let ghost mut i: int = 0;
    let mut row = scan.next()?;
    proof {
        if pairs.len() > 0 {
            assert(pairs.drop_first() =~= pairs.skip(1));
        }
        assert(pairs.take(0) =~= Seq::<Pair>::empty());
    }
    while row.is_some()
        invariant
            0 <= i <= pairs.len(),
            row_ahead(row, scan.rest(), pairs, i),
            cached@ == edge_key_set(edges),
            holds_decodings(cache.pairs()),
            graph@ == with_edge_rows(filled, pairs.take(i), cached@, *schema),
            holds_exactly(graph@, set_of(ids), edges),
            respects_whitelist(graph@, *schema),
        decreases pairs.len() - i,
    {
        proof {
            assert(pairs.take(i + 1).drop_last() =~= pairs.take(i));
            assert(pairs.take(i + 1).last() == pairs[i]);
        }
        let found = row.unwrap();
        let ghost before = graph@;
        cache_edge_row(&found, &cached, schema, &mut cache, &mut graph);
        proof {
            match cached_edge_property(pairs[i], cached@, *schema) {
                Some((edge, property)) => {
                    lemma_with_edge_data_holds(
                        before,
                        set_of(ids),
                        edges,
                        *schema,
                        edge.0,
                        edge.1,
                        property.0,
                        property.1,
                    );
                },
                None => {},
            }
        }
        proof {
            i = i + 1;
        }
        row = scan.next()?;
        proof {
            if i < pairs.len() {
                assert(pairs.skip(i).drop_first() =~= pairs.skip(i + 1));
            }
        }
    }
    proof {
        assert(pairs.take(i) =~= pairs);
    }
    Ok(graph)
}

/// The whitelist that the schema table holds for a kind of entity: the
/// fields of the row under the name of the kind, where there is one and it
/// holds any.
pub open spec fn stored_whitelist(rows: Map<Seq<u8>, Seq<u8>>, name: Seq<u8>) -> Seq<Seq<u8>> {
    if rows.contains_key(name) {
        decoded_fields(crate::text::split_on(rows[name], crate::codec::KEY_SEP))
    } else {
        Seq::empty()
    }
}

/// The fields that a row of the schema table holds; none where there is no
/// row.
pub fn fields_of_row(stored: Option<String>) -> (fields: Vec<String>)
    ensures
        strings_utf8(fields@) == match stored {
            Some(value) => decoded_fields(
                crate::text::split_on(utf8(value@), crate::codec::KEY_SEP),
            ),
            None => Seq::empty(),
        },
{
    match stored {
        Some(value) => deserialize_schema_fields(value.as_str()),
        None => {
            let fields: Vec<String> = Vec::new();
            proof {
                assert(strings_utf8(fields@) =~= Seq::<Seq<u8>>::empty());
            }
            fields
        },
    }
}

/// The whitelists with the given fields: a kind has a whitelist where it
/// has at least one field.
pub fn schema_of_fields(node_fields: Vec<String>, edge_fields: Vec<String>) -> (schema: SchemaCache)
    ensures
        schema.node_fields == node_fields,
        schema.edge_fields == edge_fields,
        schema.node_defined == (node_fields@.len() > 0),
        schema.edge_defined == (edge_fields@.len() > 0),
{
    let node_defined = node_fields.len() > 0;
    let edge_defined = edge_fields.len() > 0;
    SchemaCache { node_fields, edge_fields, node_defined, edge_defined }
}

/// Reads the whitelists from the schema table of a snapshot. A kind has a
/// whitelist where its row holds at least one field.
pub fn load_schema_in(table: &Snapshot) -> (r: Result<SchemaCache, redb::Error>)
    ensures
        r matches Ok(schema) ==> {
            &&& strings_utf8(schema.node_fields@) == stored_whitelist(
                snapshot_rows(table),
                utf8("node"@),
            )
            &&& strings_utf8(schema.edge_fields@) == stored_whitelist(
                snapshot_rows(table),
                utf8("edge"@),
            )
            &&& schema.node_defined == (schema.node_fields@.len() > 0)
            &&& schema.edge_defined == (schema.edge_fields@.len() > 0)
        },
{
    let node_fields = fields_of_row(snapshot_get(table, "node")?);
    let edge_fields = fields_of_row(snapshot_get(table, "edge")?);
    Ok(schema_of_fields(node_fields, edge_fields))
}

} // verus!
