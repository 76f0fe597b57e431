use vstd::prelude::*;
use crate::text::utf8;
use crate::keys::{join2, lemma_join2_injective};
use crate::assoc::{distinct_keys, has_key};
use crate::props::Pair;
use crate::graph::{GraphModel, with_node, without_node};
use crate::schema::{SchemaCache, STATUS_KEY, STATUS_DELETED};
use crate::index::{NodeRows, node_upsert, node_upsert_all};
use crate::canon::stored_active;
use crate::persist::lemma_node_properties_are_written;
use crate::service::{node_created, node_patched, node_data_set, with_node_properties, lemma_deactivates_means, lemma_node_properties_keep_the_nodes, lemma_words_differ};
use crate::assoc::{pairs_map, lemma_pairs_map_push};
use crate::keys::join3;
use crate::graph::{edge_in, edges_distinct};
use crate::index::EdgeRows;
use crate::persist::{stored_block, edge_rows_deleted, lemma_block_rows_deleted};
use crate::schema::STATUS_ACTIVE;
use crate::service::{defaulted, unlinked, lemma_created_node_is_cached_while_active, lemma_block_edges_leave};
use crate::graph::NodeModel;
use crate::keys::prefix1;
use crate::store::has_scan;
use crate::views::{Tables, fetched_node, listed_node, listed_nodes};
use crate::canon::{is_text, stored_properties};
use crate::means::{tables_keyed, lemma_fetched_node_means, lemma_listed_node_means, lemma_listed_nodes_mean};
use crate::assoc::key_index;

verus! {

/// The cache holds a node exactly where the property rows give it the
/// status `active`.
pub open spec fn holds_the_active_nodes(graph: GraphModel, rows: NodeRows) -> bool {
    forall|id: Seq<u8>| #[trigger] graph.contains_key(id) <==> stored_active(rows.data, id)
}

/// Writing properties for a node leaves the property rows of every other
/// node as they are.
pub proof fn lemma_other_nodes_keep_their_rows(
    rows: NodeRows,
    id: Seq<u8>,
    pairs: Seq<Pair>,
    other: Seq<u8>,
    key: Seq<u8>,
)
    requires
        other != id,
    ensures
        node_upsert_all(rows, id, pairs).data.contains_key(join2(other, key))
            == rows.data.contains_key(join2(other, key)),
        rows.data.contains_key(join2(other, key)) ==> node_upsert_all(rows, id, pairs).data[join2(
            other,
            key,
        )] == rows.data[join2(other, key)],
    decreases pairs.len(),
{
    if pairs.len() > 0 {
        lemma_other_nodes_keep_their_rows(rows, id, pairs.drop_last(), other, key);
        if join2(id, pairs.last().0) == join2(other, key) {
            lemma_join2_injective(id, pairs.last().0, other, key);
        }
    }
}

/// Writing properties without a status for a node leaves its status as it
/// is.
pub proof fn lemma_status_stays(rows: NodeRows, id: Seq<u8>, pairs: Seq<Pair>)
    requires
        !has_key(pairs, utf8(STATUS_KEY@)),
    ensures
        stored_active(node_upsert_all(rows, id, pairs).data, id) == stored_active(rows.data, id),
    decreases pairs.len(),
{
    if pairs.len() > 0 {
        let less = pairs.drop_last();
        assert forall|i: int| 0 <= i < less.len() implies less[i].0 != utf8(STATUS_KEY@) by {
            assert(less[i] == pairs[i]);
        }
        lemma_status_stays(rows, id, less);
        let last = pairs.len() - 1;
        assert(pairs[last].0 != utf8(STATUS_KEY@));
        if join2(id, pairs[last].0) == join2(id, utf8(STATUS_KEY@)) {
            lemma_join2_injective(id, pairs[last].0, id, utf8(STATUS_KEY@));
        }
    }
}

/// The cache and the active set, when a node is created: if the cache
/// holds the active nodes before, it holds them after, once the node and
/// its properties, which have a status, are written and cached.
pub proof fn lemma_creation_keeps_the_active_nodes(
    graph: GraphModel,
    rows: NodeRows,
    schema: SchemaCache,
    id: Seq<u8>,
    pairs: Seq<Pair>,
)
    requires
        holds_the_active_nodes(graph, rows),
        distinct_keys(pairs),
        has_key(pairs, utf8(STATUS_KEY@)),
    ensures
        holds_the_active_nodes(
            node_created(graph, schema, id, pairs),
            node_upsert_all(rows, id, pairs),
        ),
{
    let after = node_created(graph, schema, id, pairs);
    let written = node_upsert_all(rows, id, pairs);
    let status = utf8(STATUS_KEY@);
    lemma_deactivates_means(pairs);
    lemma_node_properties_keep_the_nodes(with_node(graph, id), id, pairs, schema);
    lemma_node_properties_are_written(rows, id, pairs, status);
    assert forall|x: Seq<u8>| #[trigger] after.contains_key(x) <==> stored_active(
        written.data,
        x,
    ) by {
        let kept = with_node_properties(with_node(graph, id), id, pairs, schema);
        assert(kept.dom().contains(x) == with_node(graph, id).dom().contains(x));
        if x != id {
            lemma_other_nodes_keep_their_rows(rows, id, pairs, x, status);
            assert(graph.contains_key(x) <==> stored_active(rows.data, x));
        }
    }
}

/// The cache and the active set, when properties are merged into a cached
/// node: if the cache holds the active nodes before, it holds them after.
pub proof fn lemma_patch_keeps_the_active_nodes(
    graph: GraphModel,
    rows: NodeRows,
    schema: SchemaCache,
    id: Seq<u8>,
    pairs: Seq<Pair>,
)
    requires
        holds_the_active_nodes(graph, rows),
        distinct_keys(pairs),
        graph.contains_key(id),
    ensures
        holds_the_active_nodes(
            node_patched(graph, schema, id, pairs),
            node_upsert_all(rows, id, pairs),
        ),
{
    let after = node_patched(graph, schema, id, pairs);
    let written = node_upsert_all(rows, id, pairs);
    let status = utf8(STATUS_KEY@);
    lemma_deactivates_means(pairs);
    lemma_node_properties_keep_the_nodes(graph, id, pairs, schema);
    if has_key(pairs, status) {
        lemma_node_properties_are_written(rows, id, pairs, status);
    } else {
        lemma_status_stays(rows, id, pairs);
    }
    assert(graph.contains_key(id) <==> stored_active(rows.data, id));
    assert forall|x: Seq<u8>| #[trigger] after.contains_key(x) <==> stored_active(
        written.data,
        x,
    ) by {
        let kept = with_node_properties(graph, id, pairs, schema);
        assert(kept.dom().contains(x) == graph.dom().contains(x));
        if x != id {
            lemma_other_nodes_keep_their_rows(rows, id, pairs, x, status);
            assert(graph.contains_key(x) <==> stored_active(rows.data, x));
        }
    }
}

/// The cache and the active set, when a property of a cached node is set:
/// if the cache holds the active nodes before, it holds them after.
pub proof fn lemma_setting_keeps_the_active_nodes(
    graph: GraphModel,
    rows: NodeRows,
    schema: SchemaCache,
    id: Seq<u8>,
    key: Seq<u8>,
    value: Seq<u8>,
)
    requires
        holds_the_active_nodes(graph, rows),
        graph.contains_key(id),
    ensures
        holds_the_active_nodes(
            node_data_set(graph, schema, id, key, value),
            node_upsert(rows, id, key, value),
        ),
{
    let after = node_data_set(graph, schema, id, key, value);
    let written = node_upsert(rows, id, key, value);
    let status = utf8(STATUS_KEY@);
    assert(graph.contains_key(id) <==> stored_active(rows.data, id));
    assert forall|x: Seq<u8>| #[trigger] after.contains_key(x) <==> stored_active(
        written.data,
        x,
    ) by {
        if join2(id, key) == join2(x, status) {
            lemma_join2_injective(id, key, x, status);
        }
        assert(graph.contains_key(x) <==> stored_active(rows.data, x));
    }
}

/// The cache and the active set, when a node is deleted: if the cache
/// holds the active nodes before, it holds them after.
pub proof fn lemma_deletion_keeps_the_active_nodes(graph: GraphModel, rows: NodeRows, id: Seq<u8>)
    requires
        holds_the_active_nodes(graph, rows),
    ensures
        holds_the_active_nodes(
            without_node(graph, id),
            node_upsert(rows, id, utf8(STATUS_KEY@), utf8(STATUS_DELETED@)),
        ),
{
    let after = without_node(graph, id);
    let status = utf8(STATUS_KEY@);
    let written = node_upsert(rows, id, status, utf8(STATUS_DELETED@));
    lemma_words_differ();
    assert forall|x: Seq<u8>| #[trigger] after.contains_key(x) <==> stored_active(
        written.data,
        x,
    ) by {
        if join2(id, status) == join2(x, status) {
            lemma_join2_injective(id, status, x, status);
        }
        assert(graph.contains_key(x) <==> stored_active(rows.data, x));
    }
}

/// What creating a node does to the store and to the cache together: the
/// property rows hold for the node the status that the request gives, or
/// `active` where it gives none, and the cache holds the node exactly where
/// that status is `active`.
pub proof fn lemma_creating_a_node(
    graph: GraphModel,
    rows: NodeRows,
    schema: SchemaCache,
    id: Seq<u8>,
    payload: Seq<Pair>,
)
    requires
        distinct_keys(payload),
    ensures
        ({
            let status = utf8(STATUS_KEY@);
            let written = node_upsert_all(rows, id, defaulted(payload));
            let after = node_created(graph, schema, id, defaulted(payload));
            &&& written.data.contains_key(join2(id, status))
            &&& written.data[join2(id, status)] == if has_key(payload, status) {
                pairs_map(payload)[status]
            } else {
                utf8(STATUS_ACTIVE@)
            }
            &&& after.contains_key(id) <==> stored_active(written.data, id)
        }),
{
    let status = utf8(STATUS_KEY@);
    let pairs = defaulted(payload);
    if !has_key(payload, status) {
        lemma_pairs_map_push(payload, status, utf8(STATUS_ACTIVE@));
        assert(pairs[payload.len() as int].0 == status);
    }
    assert(has_key(pairs, status));
    lemma_node_properties_are_written(rows, id, pairs, status);
    lemma_created_node_is_cached_while_active(graph, schema, id, pairs);
}

/// What deleting a block edge does to the store and to the cache together:
/// where the property rows hold the type `block` for an edge between two
/// different nodes, they hold the status `deleted` for both directions
/// afterwards, and the cache holds neither.
pub proof fn lemma_deleting_a_block_edge(
    graph: GraphModel,
    rows: EdgeRows,
    from: Seq<u8>,
    to: Seq<u8>,
)
    requires
        edges_distinct(graph),
        from != to,
        stored_block(rows.data, from, to),
    ensures
        ({
            let status = utf8(STATUS_KEY@);
            let both = stored_block(rows.data, from, to) && from != to;
            let written = edge_rows_deleted(rows, from, to, both);
            let after = unlinked(graph, from, to, both);
            &&& written.data.contains_key(join3(from, to, status))
            &&& written.data.contains_key(join3(to, from, status))
            &&& written.data[join3(from, to, status)] == utf8(STATUS_DELETED@)
            &&& written.data[join3(to, from, status)] == utf8(STATUS_DELETED@)
            &&& !edge_in(after, from, to)
            &&& !edge_in(after, to, from)
        }),
{
    lemma_block_rows_deleted(rows, from, to);
    lemma_block_edges_leave(graph, from, to);
}

/// A node whose stored status is not `active` is not read: neither a read
/// of the node nor a listing shows it. This holds of tables whose keys are
/// made of strings.
pub proof fn lemma_inactive_node_is_not_read(
    tables: Tables,
    active: Set<Seq<u8>>,
    id: Seq<u8>,
    kind: Option<Seq<u8>>,
    schema: SchemaCache,
    hydrate: bool,
)
    requires
        has_scan(tables.node_data, Seq::<u8>::empty()),
        has_scan(tables.edges, Seq::<u8>::empty()),
        has_scan(tables.edge_data, Seq::<u8>::empty()),
        has_scan(tables.node_data, prefix1(id)),
        has_scan(tables.edges, prefix1(id)),
        has_scan(tables.edge_data, prefix1(id)),
        tables_keyed(tables),
        is_text(id),
        tables.node_data.contains_key(join2(id, utf8(STATUS_KEY@))),
        tables.node_data[join2(id, utf8(STATUS_KEY@))] != utf8(STATUS_ACTIVE@),
    ensures
        fetched_node(tables, id, schema, hydrate) is None,
        listed_node(tables, active, id, kind, schema, hydrate) is None,
        forall|ids: Seq<Seq<u8>>, node: (Seq<u8>, NodeModel)|
            node.0 == id ==> !(#[trigger] listed_nodes(
                tables,
                active,
                ids,
                kind,
                schema,
                hydrate,
            ).contains(node)),
{
    let status = utf8(STATUS_KEY@);
    assert(is_text(status)) by {
        vstd::utf8::encode_utf8_valid_utf8(STATUS_KEY@);
    }
    lemma_fetched_node_means(tables, id, schema, hydrate);
    lemma_listed_node_means(tables, active, id, kind, schema, hydrate);
    assert(stored_properties(tables.node_data, id).contains_key(status));
    assert forall|ids: Seq<Seq<u8>>, node: (Seq<u8>, NodeModel)| node.0 == id implies !(
    #[trigger] listed_nodes(tables, active, ids, kind, schema, hydrate).contains(node)) by {
        lemma_listed_nodes_mean(tables, active, ids, kind, schema, hydrate, node);
    }
}

/// What deleting a node does to the store and to what is read of it: once
/// a node is marked as deleted, the property rows hold the status `deleted`
/// for it, and every other row of the node properties is as before.
pub proof fn lemma_deleted_node_is_stored(rows: NodeRows, id: Seq<u8>, other: Seq<u8>)
    ensures
        ({
            let status = utf8(STATUS_KEY@);
            let written = node_upsert(rows, id, status, utf8(STATUS_DELETED@));
            &&& written.data.contains_key(join2(id, status))
            &&& written.data[join2(id, status)] == utf8(STATUS_DELETED@)
            &&& written.data[join2(id, status)] != utf8(STATUS_ACTIVE@)
            &&& other != join2(id, status) ==> written.data.contains_key(other)
                == rows.data.contains_key(other)
            &&& other != join2(id, status) && rows.data.contains_key(other) ==> written.data[other]
                == rows.data[other]
        }),
{
    lemma_words_differ();
}

/// What the deletion of a node does to the cache: the node is not there,
/// no node has an edge to it, and every edge between other nodes is there
/// exactly where it was.
pub proof fn lemma_deleted_node_leaves_the_cache(
    graph: GraphModel,
    id: Seq<u8>,
    from: Seq<u8>,
    to: Seq<u8>,
)
    requires
        edges_distinct(graph),
    ensures
        !without_node(graph, id).contains_key(id),
        !edge_in(without_node(graph, id), from, id),
        !edge_in(without_node(graph, id), id, to),
        from != id && to != id ==> (edge_in(without_node(graph, id), from, to) <==> edge_in(
            graph,
            from,
            to,
        )),
{
    let after = without_node(graph, id);
    if graph.contains_key(from) && from != id {
        let edges = graph[from].edges;
        assert(distinct_keys(edges));
        if has_key(edges, id) {
            let at = key_index(edges, id);
            crate::assoc::lemma_pairs_map_remove(edges, at);
            if to != id {
                let left = edges.remove(at);
                if has_key(edges, to) {
                    let i = key_index(edges, to);
                    assert(i != at);
                    assert(left[if i < at {
                        i
                    } else {
                        i - 1
                    }] == edges[i]);
                }
                if has_key(left, to) {
                    let j = key_index(left, to);
                    assert(left[j] == edges[if j < at {
                        j
                    } else {
                        j + 1
                    }]);
                }
            }
        }
    }
}

/// The tables once a node is marked as deleted.
pub open spec fn tables_without(tables: Tables, rows: NodeRows, id: Seq<u8>) -> Tables {
    Tables {
        node_data: node_upsert(rows, id, utf8(STATUS_KEY@), utf8(STATUS_DELETED@)).data,
        ..tables
    }
}

/// A deleted node is not found again: once a node is marked as deleted in
/// the property rows, neither a read of the node nor a listing shows it.
/// This holds of tables whose keys are made of strings.
pub proof fn lemma_deleted_node_is_not_found(
    tables: Tables,
    rows: NodeRows,
    active: Set<Seq<u8>>,
    id: Seq<u8>,
    kind: Option<Seq<u8>>,
    schema: SchemaCache,
    hydrate: bool,
)
    requires
        rows.data == tables.node_data,
        is_text(id),
        tables_keyed(tables_without(tables, rows, id)),
        has_scan(tables_without(tables, rows, id).node_data, Seq::<u8>::empty()),
        has_scan(tables.edges, Seq::<u8>::empty()),
        has_scan(tables.edge_data, Seq::<u8>::empty()),
        has_scan(tables_without(tables, rows, id).node_data, prefix1(id)),
        has_scan(tables.edges, prefix1(id)),
        has_scan(tables.edge_data, prefix1(id)),
    ensures
        fetched_node(tables_without(tables, rows, id), id, schema, hydrate) is None,
        listed_node(tables_without(tables, rows, id), active, id, kind, schema, hydrate) is None,
{
    lemma_deleted_node_is_stored(rows, id, id);
    lemma_inactive_node_is_not_read(
        tables_without(tables, rows, id),
        active,
        id,
        kind,
        schema,
        hydrate,
    );
}

} // verus!
