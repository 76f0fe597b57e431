use vstd::prelude::*;
use crate::text::{utf8, str_eq, strings_utf8, sort_unique};
use crate::assoc::{has_key, key_index, distinct_keys, pairs_map, lemma_pairs_map_at, lemma_pairs_map_push, lemma_pairs_map_update};
use crate::props::{PropertyMap, Pair};
use crate::graph::{Graph, GraphModel, Properties, edge_in, edges_distinct, with_node, with_edge, with_node_data, with_edge_data, without_edge, without_node, reachable};
use crate::schema::{SchemaCache, EntityKind, active_data, named_kind, parse_entity_kind, normalize_fields, trimmed_fields, copy_strings, STATUS_KEY, STATUS_ACTIVE, STATUS_DELETED, TYPE_KEY, TYPE_BLOCK};
use crate::store::error_text;
use crate::loader::{respects_whitelist, is_load_of};
use crate::views::{NodeView, EdgeListView, Tables, opt_str, node_view_models, edge_list_models, fetched_node, node_listing, edge_listing};
use crate::db::{get_node_from_db, list_nodes_from_db, list_edges_from_db, init_db, rebuild_indexes_if_empty, ensure_status_defaults, load_schema, insert_node, insert_edge, insert_node_data, insert_node_data_bulk, insert_edge_data, insert_edge_data_bulk, soft_delete_node, soft_delete_edge, save_schema, load_graph};
use crate::persist::mirror_data;

verus! {

/// Why an operation of the service did not succeed.
#[derive(Debug)]
pub enum ServiceError {
    /// A node or an edge that the operation needs is not there.
    NotFound(String),
    /// The request cannot be served as it is.
    BadRequest(String),
    /// The store failed; the text is that of its error.
    Storage(String),
}

impl ServiceError {
    /// The text of the error.
    pub fn message(&self) -> (text: &String)
        ensures
            match *self {
                ServiceError::NotFound(s) => *text == s,
                ServiceError::BadRequest(s) => *text == s,
                ServiceError::Storage(s) => *text == s,
            },
    {
        match self {
            ServiceError::NotFound(text) => text,
            ServiceError::BadRequest(text) => text,
            ServiceError::Storage(text) => text,
        }
    }
}

/// The error of the service for a failure of the store with the given
/// text.
pub fn storage_failure(text: String) -> (e: ServiceError)
    ensures
        e == ServiceError::Storage(text),
{
    ServiceError::Storage(text)
}

/// The error of the service for an error of the store: a failure of the
/// store with the text of the error.
pub fn storage_error(error: redb::Error) -> (e: ServiceError)
    ensures
        e is Storage,
{
    storage_failure(error_text(&error))
}

fn node_not_found() -> (e: ServiceError)
    ensures
        e matches ServiceError::NotFound(text) && text@ == "node not found"@,
{
    ServiceError::NotFound("node not found".to_owned())
}

fn edge_not_found() -> (e: ServiceError)
    ensures
        e matches ServiceError::NotFound(text) && text@ == "edge not found"@,
{
    ServiceError::NotFound("edge not found".to_owned())
}

/// What an operation gives for what the store gave: the value where the
/// store gave one, and a failure of the store where it failed.
pub fn outcome<T>(got: Result<T, redb::Error>) -> (r: Result<T, ServiceError>)
    ensures
        match got {
            Ok(value) => r matches Ok(same) && same == value,
            Err(_) => r matches Err(e) && e is Storage,
        },
{
    match got {
        Ok(value) => Ok(value),
        Err(error) => Err(storage_error(error)),
    }
}

/// What the deletion of a node gives for what the store gave: success
/// where the node had a row, `NotFound` where it had none, and a failure of
/// the store where the store failed.
pub fn node_deletion_outcome(found: Result<bool, redb::Error>) -> (r: Result<(), ServiceError>)
    ensures
        match found {
            Ok(true) => r is Ok,
            Ok(false) => r matches Err(e) && e is NotFound,
            Err(_) => r matches Err(e) && e is Storage,
        },
{
    match found {
        Ok(true) => Ok(()),
        Ok(false) => Err(node_not_found()),
        Err(error) => Err(storage_error(error)),
    }
}

/// What the deletion of an edge gives for what the store gave: whether
/// both directions were marked where the edge had a row, `NotFound` where
/// it had none, and a failure of the store where the store failed.
pub fn edge_deletion_outcome(done: Result<Option<bool>, redb::Error>) -> (r: Result<
    bool,
    ServiceError,
>)
    ensures
        match done {
            Ok(Some(both)) => r matches Ok(same) && same == both,
            Ok(None) => r matches Err(e) && e is NotFound,
            Err(_) => r matches Err(e) && e is Storage,
        },
{
    match done {
        Ok(Some(both)) => Ok(both),
        Ok(None) => Err(edge_not_found()),
        Err(error) => Err(storage_error(error)),
    }
}

/// What a read of one node gives for what the store gave: the node where
/// the store has it as an active node, `NotFound` where it has not, and a
/// failure of the store where the store failed.
pub fn found_node(got: Result<Option<NodeView>, redb::Error>) -> (r: Result<NodeView, ServiceError>)
    ensures
        match got {
            Ok(Some(view)) => r matches Ok(same) && same == view,
            Ok(None) => r matches Err(e) && e is NotFound,
            Err(_) => r matches Err(e) && e is Storage,
        },
{
    match got {
        Ok(Some(view)) => Ok(view),
        Ok(None) => Err(node_not_found()),
        Err(error) => Err(storage_error(error)),
    }
}

/// The properties with the status `active`, unless they have a status.
pub open spec fn defaulted(pairs: Seq<Pair>) -> Seq<Pair> {
    if has_key(pairs, utf8(STATUS_KEY@)) {
        pairs
    } else {
        pairs.push((utf8(STATUS_KEY@), utf8(STATUS_ACTIVE@)))
    }
}

/// The property sets a status other than `active`: an entity is active
/// exactly while its status is `active`, so the entity that gets the
/// property is active no more.
pub open spec fn deactivating(key: Seq<u8>, value: Seq<u8>) -> bool {
    key == utf8(STATUS_KEY@) && value != utf8(STATUS_ACTIVE@)
}

/// One of the properties sets a status other than `active`, such as
/// `deleted`.
pub open spec fn deactivates(pairs: Seq<Pair>) -> bool {
    exists|i: int| 0 <= i < pairs.len() && deactivating((#[trigger] pairs[i]).0, pairs[i].1)
}

/// The properties are those of a block edge: their type is `block`.
pub open spec fn is_block(data: Properties) -> bool {
    data.contains_key(utf8(TYPE_KEY@)) && data[utf8(TYPE_KEY@)] == utf8(TYPE_BLOCK@)
}

/// The graph with those of the properties set on a node that the whitelist
/// keeps in memory.
pub open spec fn with_node_properties(
    graph: GraphModel,
    id: Seq<u8>,
    pairs: Seq<Pair>,
    schema: SchemaCache,
) -> GraphModel
    decreases pairs.len(),
{
    if pairs.len() == 0 {
        graph
    } else {
        let before = with_node_properties(graph, id, pairs.drop_last(), schema);
        if schema.node_allows(pairs.last().0) {
            with_node_data(before, id, pairs.last().0, pairs.last().1)
        } else {
            before
        }
    }
}

/// The graph with those of the properties set on an edge that the whitelist
/// keeps in memory.
pub open spec fn with_edge_properties(
    graph: GraphModel,
    from: Seq<u8>,
    to: Seq<u8>,
    pairs: Seq<Pair>,
    schema: SchemaCache,
) -> GraphModel
    decreases pairs.len(),
{
    if pairs.len() == 0 {
        graph
    } else {
        let before = with_edge_properties(graph, from, to, pairs.drop_last(), schema);
        if schema.edge_allows(pairs.last().0) {
            with_edge_data(before, from, to, pairs.last().0, pairs.last().1)
        } else {
            before
        }
    }
}

/// The graph with an edge and its properties.
pub open spec fn linked(
    graph: GraphModel,
    from: Seq<u8>,
    to: Seq<u8>,
    pairs: Seq<Pair>,
    schema: SchemaCache,
) -> GraphModel {
    with_edge_properties(with_edge(graph, from, to), from, to, pairs, schema)
}

/// The cache once an edge is written with its properties: it holds the
/// edge with those of the properties that the whitelist keeps in memory,
/// unless the properties set a status other than `active`; then it does not hold the edge.
pub open spec fn linked_live(
    graph: GraphModel,
    from: Seq<u8>,
    to: Seq<u8>,
    pairs: Seq<Pair>,
    schema: SchemaCache,
) -> GraphModel {
    let kept = linked(graph, from, to, pairs, schema);
    if deactivates(pairs) {
        without_edge(kept, from, to)
    } else {
        kept
    }
}

/// The cache once an edge is written with its properties and, where
/// `mirror` holds and the ends differ, the edge in the other direction is
/// written with the same properties.
pub open spec fn linked_both(
    graph: GraphModel,
    from: Seq<u8>,
    to: Seq<u8>,
    pairs: Seq<Pair>,
    schema: SchemaCache,
    mirror: bool,
) -> GraphModel {
    let forward = linked_live(graph, from, to, pairs, schema);
    if mirror && from != to {
        linked_live(forward, to, from, pairs, schema)
    } else {
        forward
    }
}

/// Whitelist filtering: setting a property that the whitelist keeps in
/// memory leaves a cache that respects the whitelist.
pub proof fn lemma_respects_node_data(
    graph: GraphModel,
    schema: SchemaCache,
    id: Seq<u8>,
    key: Seq<u8>,
    value: Seq<u8>,
)
    requires
        respects_whitelist(graph, schema),
        schema.node_allows(key),
    ensures
        respects_whitelist(with_node_data(graph, id, key, value), schema),
{
    let next = with_node_data(graph, id, key, value);
    assert forall|n: Seq<u8>, k: Seq<u8>|
        next.contains_key(n) && #[trigger] next[n].data.contains_key(k) implies schema.node_allows(
        k,
    ) by {
        if k != key {
            assert(graph[n].data.contains_key(k));
        }
    }
    assert forall|n: Seq<u8>, i: int, k: Seq<u8>|
        next.contains_key(n) && 0 <= i < next[n].edges.len()
            && #[trigger] next[n].edges[i].1.contains_key(k) implies schema.edge_allows(k) by {
        assert(graph[n].edges[i].1.contains_key(k));
    }
}

/// Whitelist filtering: setting an edge property that the whitelist keeps
/// in memory leaves a cache that respects the whitelist.
pub proof fn lemma_respects_edge_data(
    graph: GraphModel,
    schema: SchemaCache,
    from: Seq<u8>,
    to: Seq<u8>,
    key: Seq<u8>,
    value: Seq<u8>,
)
    requires
        respects_whitelist(graph, schema),
        schema.edge_allows(key),
    ensures
        respects_whitelist(with_edge_data(graph, from, to, key, value), schema),
{
    let next = with_edge_data(graph, from, to, key, value);
    if next != graph {
        let at = key_index(graph[from].edges, to);
        assert forall|n: Seq<u8>, i: int, k: Seq<u8>|
            next.contains_key(n) && 0 <= i < next[n].edges.len()
                && #[trigger] next[n].edges[i].1.contains_key(k) implies schema.edge_allows(k) by {
            if n == from && i == at {
                if k != key {
                    assert(graph[n].edges[i].1.contains_key(k));
                }
            } else {
                assert(graph[n].edges[i].1.contains_key(k));
            }
        }
        assert forall|n: Seq<u8>, k: Seq<u8>|
            next.contains_key(n) && #[trigger] next[n].data.contains_key(k) implies schema.node_allows(
            k,
        ) by {
            assert(graph[n].data.contains_key(k));
        }
    }
}

/// Whitelist filtering: a new node or a new edge has no properties, so the
/// cache goes on respecting the whitelist.
pub proof fn lemma_respects_growth(graph: GraphModel, schema: SchemaCache, from: Seq<u8>, to: Seq<u8>)
    requires
        respects_whitelist(graph, schema),
    ensures
        respects_whitelist(with_node(graph, from), schema),
        respects_whitelist(with_edge(graph, from, to), schema),
{
    let grown = with_node(graph, from);
    assert forall|n: Seq<u8>, k: Seq<u8>|
        grown.contains_key(n) && #[trigger] grown[n].data.contains_key(k) implies schema.node_allows(
        k,
    ) by {
        if graph.contains_key(n) {
            assert(graph[n].data.contains_key(k));
        }
    }
    assert forall|n: Seq<u8>, i: int, k: Seq<u8>|
        grown.contains_key(n) && 0 <= i < grown[n].edges.len()
            && #[trigger] grown[n].edges[i].1.contains_key(k) implies schema.edge_allows(k) by {
        if graph.contains_key(n) {
            assert(graph[n].edges[i].1.contains_key(k));
        }
    }
    let next = with_edge(graph, from, to);
    if next != graph {
        let old_edges = graph[from].edges;
        assert forall|n: Seq<u8>, i: int, k: Seq<u8>|
            next.contains_key(n) && 0 <= i < next[n].edges.len()
                && #[trigger] next[n].edges[i].1.contains_key(k) implies schema.edge_allows(k) by {
            if n == from {
                if i < old_edges.len() {
                    assert(next[n].edges[i] == old_edges[i]);
                    assert(graph[n].edges[i].1.contains_key(k));
                }
            } else {
                assert(graph[n].edges[i].1.contains_key(k));
            }
        }
        assert forall|n: Seq<u8>, k: Seq<u8>|
            next.contains_key(n) && #[trigger] next[n].data.contains_key(k) implies schema.node_allows(
            k,
        ) by {
            assert(graph[n].data.contains_key(k));
        }
    }
}

/// Whitelist filtering: taking a node or an edge out leaves a cache that
/// respects the whitelist.
pub proof fn lemma_respects_removal(graph: GraphModel, schema: SchemaCache, from: Seq<u8>, to: Seq<u8>)
    requires
        respects_whitelist(graph, schema),
    ensures
        respects_whitelist(without_edge(graph, from, to), schema),
        respects_whitelist(without_node(graph, from), schema),
{
    let next = without_edge(graph, from, to);
    assert forall|n: Seq<u8>, i: int, k: Seq<u8>|
        next.contains_key(n) && 0 <= i < next[n].edges.len()
            && #[trigger] next[n].edges[i].1.contains_key(k) implies schema.edge_allows(k) by {
        let old_edges = graph[n].edges;
        if n == from && has_key(old_edges, to) {
            let at = key_index(old_edges, to);
            let j = if i < at {
                i
            } else {
                i + 1
            };
            assert(next[n].edges[i] == old_edges[j]);
            assert(graph[n].edges[j].1.contains_key(k));
        } else {
            assert(graph[n].edges[i].1.contains_key(k));
        }
    }
    assert forall|n: Seq<u8>, k: Seq<u8>|
        next.contains_key(n) && #[trigger] next[n].data.contains_key(k) implies schema.node_allows(
        k,
    ) by {
        assert(graph[n].data.contains_key(k));
    }
    let less = without_node(graph, from);
    assert forall|n: Seq<u8>, i: int, k: Seq<u8>|
        less.contains_key(n) && 0 <= i < less[n].edges.len()
            && #[trigger] less[n].edges[i].1.contains_key(k) implies schema.edge_allows(k) by {
        let old_edges = graph[n].edges;
        if has_key(old_edges, from) {
            let at = key_index(old_edges, from);
            let j = if i < at {
                i
            } else {
                i + 1
            };
            assert(less[n].edges[i] == old_edges[j]);
            assert(graph[n].edges[j].1.contains_key(k));
        } else {
            assert(graph[n].edges[i].1.contains_key(k));
        }
    }
    assert forall|n: Seq<u8>, k: Seq<u8>|
        less.contains_key(n) && #[trigger] less[n].data.contains_key(k) implies schema.node_allows(
        k,
    ) by {
        assert(graph[n].data.contains_key(k));
    }
}

/// Whitelist filtering over any list of properties of a node.
pub proof fn lemma_respects_node_properties(
    graph: GraphModel,
    schema: SchemaCache,
    id: Seq<u8>,
    pairs: Seq<Pair>,
)
    requires
        respects_whitelist(graph, schema),
    ensures
        respects_whitelist(with_node_properties(graph, id, pairs, schema), schema),
    decreases pairs.len(),
{
    if pairs.len() > 0 {
        lemma_respects_node_properties(graph, schema, id, pairs.drop_last());
        if schema.node_allows(pairs.last().0) {
            lemma_respects_node_data(
                with_node_properties(graph, id, pairs.drop_last(), schema),
                schema,
                id,
                pairs.last().0,
                pairs.last().1,
            );
        }
    }
}

/// Whitelist filtering over any list of properties of an edge.
pub proof fn lemma_respects_edge_properties(
    graph: GraphModel,
    schema: SchemaCache,
    from: Seq<u8>,
    to: Seq<u8>,
    pairs: Seq<Pair>,
)
    requires
        respects_whitelist(graph, schema),
    ensures
        respects_whitelist(with_edge_properties(graph, from, to, pairs, schema), schema),
    decreases pairs.len(),
{
    if pairs.len() > 0 {
        lemma_respects_edge_properties(graph, schema, from, to, pairs.drop_last());
        if schema.edge_allows(pairs.last().0) {
            lemma_respects_edge_data(
                with_edge_properties(graph, from, to, pairs.drop_last(), schema),
                schema,
                from,
                to,
                pairs.last().0,
                pairs.last().1,
            );
        }
    }
}

/// The key of the status is not the key of the type, and the status
/// `active` is not the status `deleted`.
pub proof fn lemma_words_differ()
    ensures
        utf8(STATUS_KEY@) != utf8(TYPE_KEY@),
        utf8(STATUS_ACTIVE@) != utf8(STATUS_DELETED@),
{
    reveal_strlit("status");
    reveal_strlit("type");
    reveal_strlit("active");
    reveal_strlit("deleted");
    assert(STATUS_KEY@.len() != TYPE_KEY@.len());
    assert(STATUS_ACTIVE@.len() != STATUS_DELETED@.len());
    if utf8(STATUS_KEY@) == utf8(TYPE_KEY@) {
        crate::text::lemma_utf8_injective(STATUS_KEY@, TYPE_KEY@);
    }
    if utf8(STATUS_ACTIVE@) == utf8(STATUS_DELETED@) {
        crate::text::lemma_utf8_injective(STATUS_ACTIVE@, STATUS_DELETED@);
    }
}

/// The mirror of an edge that became a block edge is active.
pub proof fn lemma_mirror_is_active()
    ensures
        !deactivates(mirror_properties()),
{
    lemma_words_differ();
    if deactivates(mirror_properties()) {
        let i = choose|i: int|
            0 <= i < mirror_properties().len() && deactivating(
                (#[trigger] mirror_properties()[i]).0,
                mirror_properties()[i].1,
            );
        assert(i == 0 || i == 1);
    }
}

/// The properties with the status `active`, unless they have a status.
pub fn with_default_status(data: PropertyMap) -> (out: PropertyMap)
    ensures
        out.pairs() == defaulted(data.pairs()),
        out@ == if data@.contains_key(utf8(STATUS_KEY@)) {
            data@
        } else {
            data@.insert(utf8(STATUS_KEY@), utf8(STATUS_ACTIVE@))
        },
{
    let mut out = data;
    let ghost before = out.pairs();
    if !out.contains_key(STATUS_KEY) {
        out.insert(STATUS_KEY.to_owned(), STATUS_ACTIVE.to_owned());
    } else {
        proof {
            assert(has_key(before, utf8(STATUS_KEY@))) by {
                assert(out@.contains_key(utf8(STATUS_KEY@)));
            }
        }
    }
    out
}

/// Whether the properties are those of a block edge.
pub fn data_is_block(data: &PropertyMap) -> (r: bool)
    ensures
        r == is_block(data@),
{
    match data.get(TYPE_KEY) {
        Some(kind) => str_eq(kind.as_str(), TYPE_BLOCK),
        None => false,
    }
}

/// Sets on a cached node those of the properties that the whitelist keeps
/// in memory. Returns whether the properties set a status other than `active`.
pub fn apply_node_properties(graph: &mut Graph, schema: &SchemaCache, id: &str, data: &PropertyMap) -> (deleted: bool)
    ensures
        final(graph)@ == with_node_properties(old(graph)@, utf8(id@), data.pairs(), *schema),
        deleted == deactivates(data.pairs()),
{
    let ghost before = graph@;
    let ghost pairs = data.pairs();
    let count = data.len();
    let mut deleted = false;
    let mut i: usize = 0;
    proof {
        assert(pairs.take(0) =~= Seq::<Pair>::empty());
    }
    while i < count
        invariant
            0 <= i <= count,
            count == pairs.len(),
            pairs == data.pairs(),
            graph@ == with_node_properties(before, utf8(id@), pairs.take(i as int), *schema),
            deleted == deactivates(pairs.take(i as int)),
        decreases count - i,
    {
        proof {
            assert(pairs.take(i + 1).drop_last() =~= pairs.take(i as int));
            assert(pairs.take(i + 1).last() == pairs[i as int]);
        }
        let key = data.key_at(i);
        let value = data.value_at(i);
        if schema.node_in_memory(key.as_str()) {
            graph.set_node_data(id, key.as_str(), value.as_str());
        }
        let ghost was = deleted;
        if str_eq(key.as_str(), STATUS_KEY) && !str_eq(value.as_str(), STATUS_ACTIVE) {
            deleted = true;
        }
        proof {
            let more = pairs.take(i + 1);
            let less = pairs.take(i as int);
            if deactivates(less) {
                let j = choose|j: int| 0 <= j < less.len() && deactivating((#[trigger] less[j]).0, less[j].1);
                assert(more[j] == less[j]);
            }
            if deactivates(more) && !deleted {
                let j = choose|j: int| 0 <= j < more.len() && deactivating((#[trigger] more[j]).0, more[j].1);
                if j < i {
                    assert(less[j] == more[j]);
                }
            }
            if deleted && !was {
                assert(deactivating(more[i as int].0, more[i as int].1));
            }
        }
        i += 1;
    }
    proof {
        assert(pairs.take(i as int) =~= pairs);
    }
    deleted
}

/// Sets on a cached edge those of the properties that the whitelist keeps
/// in memory. Returns whether the properties set a status other than `active`.
pub fn apply_edge_properties(
    graph: &mut Graph,
    schema: &SchemaCache,
    from: &str,
    to: &str,
    data: &PropertyMap,
) -> (deleted: bool)
    ensures
        final(graph)@ == with_edge_properties(
            old(graph)@,
            utf8(from@),
            utf8(to@),
            data.pairs(),
            *schema,
        ),
        deleted == deactivates(data.pairs()),
{
    let ghost before = graph@;
    let ghost pairs = data.pairs();
    let count = data.len();
    let mut deleted = false;
    let mut i: usize = 0;
    proof {
        assert(pairs.take(0) =~= Seq::<Pair>::empty());
    }
    while i < count
        invariant
            0 <= i <= count,
            count == pairs.len(),
            pairs == data.pairs(),
            graph@ == with_edge_properties(
                before,
                utf8(from@),
                utf8(to@),
                pairs.take(i as int),
                *schema,
            ),
            deleted == deactivates(pairs.take(i as int)),
        decreases count - i,
    {
        proof {
            assert(pairs.take(i + 1).drop_last() =~= pairs.take(i as int));
            assert(pairs.take(i + 1).last() == pairs[i as int]);
        }
        let key = data.key_at(i);
        let value = data.value_at(i);
        if schema.edge_in_memory(key.as_str()) {
            graph.set_edge_data(from, to, key.as_str(), value.as_str());
        }
        let ghost was = deleted;
        if str_eq(key.as_str(), STATUS_KEY) && !str_eq(value.as_str(), STATUS_ACTIVE) {
            deleted = true;
        }
        proof {
            let more = pairs.take(i + 1);
            let less = pairs.take(i as int);
            if deactivates(less) {
                let j = choose|j: int| 0 <= j < less.len() && deactivating((#[trigger] less[j]).0, less[j].1);
                assert(more[j] == less[j]);
            }
            if deactivates(more) && !deleted {
                let j = choose|j: int| 0 <= j < more.len() && deactivating((#[trigger] more[j]).0, more[j].1);
                if j < i {
                    assert(less[j] == more[j]);
                }
            }
            if deleted && !was {
                assert(deactivating(more[i as int].0, more[i as int].1));
            }
        }
        i += 1;
    }
    proof {
        assert(pairs.take(i as int) =~= pairs);
    }
    deleted
}

/// The properties of each edge out of a node, under the target of the edge.
pub open spec fn edges_from(graph: GraphModel, from: Seq<u8>) -> Map<Seq<u8>, Properties> {
    pairs_map(graph[from].edges)
}

/// What setting properties on a cached edge does: the edge gets each
/// property that the whitelist keeps in memory, and everything else stays.
pub proof fn lemma_edge_properties_effect(
    graph: GraphModel,
    from: Seq<u8>,
    to: Seq<u8>,
    pairs: Seq<Pair>,
    schema: SchemaCache,
)
    requires
        graph.contains_key(from),
        has_key(graph[from].edges, to),
        distinct_keys(graph[from].edges),
        distinct_keys(pairs),
    ensures
        ({
            let next = with_edge_properties(graph, from, to, pairs, schema);
            &&& next.dom() == graph.dom()
            &&& forall|n: Seq<u8>| n != from && graph.contains_key(n) ==> #[trigger] next[n] == graph[n]
            &&& distinct_keys(next[from].edges)
            &&& edges_from(next, from).dom() == edges_from(graph, from).dom()
            &&& forall|t: Seq<u8>|
                t != to && edges_from(graph, from).contains_key(t) ==> #[trigger] edges_from(
                    next,
                    from,
                )[t] == edges_from(graph, from)[t]
            &&& forall|i: int|
                0 <= i < pairs.len() && schema.edge_allows((#[trigger] pairs[i]).0) ==> edges_from(
                    next,
                    from,
                )[to].contains_key(pairs[i].0) && edges_from(next, from)[to][pairs[i].0]
                    == pairs[i].1
        }),
    decreases pairs.len(),
{
    let next = with_edge_properties(graph, from, to, pairs, schema);
    if pairs.len() > 0 {
        let less = pairs.drop_last();
        let before = with_edge_properties(graph, from, to, less, schema);
        assert forall|i: int, j: int| 0 <= i < j < less.len() implies less[i].0 != less[j].0 by {
            assert(less[i] == pairs[i] && less[j] == pairs[j]);
        }
        lemma_edge_properties_effect(graph, from, to, less, schema);
        let key = pairs.last().0;
        let value = pairs.last().1;
        assert(edges_from(before, from).contains_key(to));
        assert(has_key(before[from].edges, to));
        if schema.edge_allows(key) {
            let edges = before[from].edges;
            let at = key_index(edges, to);
            lemma_pairs_map_at(edges, at);
            let data = edges[at].1.insert(key, value);
            lemma_pairs_map_update(edges, at, data);
            assert(next[from].edges == edges.update(at, (to, data)));
            assert(edges_from(next, from) == edges_from(before, from).insert(to, data));
            assert(next.dom() =~= graph.dom());
            assert(edges_from(next, from).dom() =~= edges_from(graph, from).dom());
            assert forall|i: int|
                0 <= i < pairs.len() && schema.edge_allows((#[trigger] pairs[i]).0) implies edges_from(
                next,
                from,
            )[to].contains_key(pairs[i].0) && edges_from(next, from)[to][pairs[i].0]
                == pairs[i].1 by {
                if i < less.len() {
                    assert(less[i] == pairs[i]);
                    assert(pairs[i].0 != pairs[pairs.len() - 1].0);
                }
            }
        } else {
            assert forall|i: int|
                0 <= i < pairs.len() && schema.edge_allows((#[trigger] pairs[i]).0) implies edges_from(
                next,
                from,
            )[to].contains_key(pairs[i].0) && edges_from(next, from)[to][pairs[i].0]
                == pairs[i].1 by {
                assert(less[i] == pairs[i]);
            }
        }
    }
}

/// What adding an edge with properties to a cached node does.
pub proof fn lemma_linked_effect(
    graph: GraphModel,
    from: Seq<u8>,
    to: Seq<u8>,
    pairs: Seq<Pair>,
    schema: SchemaCache,
)
    requires
        graph.contains_key(from),
        edges_distinct(graph),
        distinct_keys(pairs),
    ensures
        ({
            let next = linked(graph, from, to, pairs, schema);
            &&& next.dom() == graph.dom()
            &&& edges_distinct(next)
            &&& forall|n: Seq<u8>| n != from && graph.contains_key(n) ==> #[trigger] next[n] == graph[n]
            &&& edge_in(next, from, to)
            &&& forall|i: int|
                0 <= i < pairs.len() && schema.edge_allows((#[trigger] pairs[i]).0)
                    ==> crate::graph::edge_data(next, from, to).contains_key(pairs[i].0)
                    && crate::graph::edge_data(next, from, to)[pairs[i].0] == pairs[i].1
        }),
{
    let grown = with_edge(graph, from, to);
    let next = linked(graph, from, to, pairs, schema);
    assert(distinct_keys(graph[from].edges));
    if !has_key(graph[from].edges, to) {
        lemma_pairs_map_push(graph[from].edges, to, Map::<Seq<u8>, Seq<u8>>::empty());
        let edges = graph[from].edges.push((to, Map::empty()));
        assert(edges[graph[from].edges.len() as int].0 == to);
        assert(has_key(grown[from].edges, to));
    }
    assert(grown.dom() =~= graph.dom());
    lemma_edge_properties_effect(grown, from, to, pairs, schema);
    assert forall|n: Seq<u8>| next.contains_key(n) implies distinct_keys(
        #[trigger] next[n].edges,
    ) by {
        if n != from {
            assert(next[n] == grown[n]);
            assert(grown[n] == graph[n]);
            assert(distinct_keys(graph[n].edges));
        }
    }
    assert(edges_from(next, from).contains_key(to));
    assert forall|n: Seq<u8>| n != from && graph.contains_key(n) implies #[trigger] next[n]
        == graph[n] by {
        assert(next[n] == grown[n]);
    }
}

/// Block symmetry: once an edge is created in both directions with one list
/// of properties, the cache has both edges, and each has every property of
/// the list that the whitelist keeps in memory, with the value that the
/// list gives.
pub proof fn lemma_block_edges_mirror(
    graph: GraphModel,
    from: Seq<u8>,
    to: Seq<u8>,
    pairs: Seq<Pair>,
    schema: SchemaCache,
)
    requires
        graph.contains_key(from),
        graph.contains_key(to),
        from != to,
        edges_distinct(graph),
        distinct_keys(pairs),
        !deactivates(pairs),
    ensures
        ({
            let both = linked_both(graph, from, to, pairs, schema, true);
            &&& edge_in(both, from, to)
            &&& edge_in(both, to, from)
            &&& forall|i: int|
                0 <= i < pairs.len() && schema.edge_allows((#[trigger] pairs[i]).0) ==> {
                    &&& crate::graph::edge_data(both, from, to).contains_key(pairs[i].0)
                    &&& crate::graph::edge_data(both, to, from).contains_key(pairs[i].0)
                    &&& crate::graph::edge_data(both, from, to)[pairs[i].0] == pairs[i].1
                    &&& crate::graph::edge_data(both, to, from)[pairs[i].0] == pairs[i].1
                }
        }),
{
    let forward = linked(graph, from, to, pairs, schema);
    lemma_linked_effect(graph, from, to, pairs, schema);
    assert(forward.contains_key(to));
    lemma_linked_effect(forward, to, from, pairs, schema);
    let both = linked(forward, to, from, pairs, schema);
    assert(both[from] == forward[from]);
}

/// Taking an edge out of a graph leaves no node with two edges to one
/// target, and leaves every other node as it is.
pub proof fn lemma_without_edge_effect(graph: GraphModel, from: Seq<u8>, to: Seq<u8>)
    requires
        edges_distinct(graph),
    ensures
        edges_distinct(without_edge(graph, from, to)),
        without_edge(graph, from, to).dom() == graph.dom(),
        !edge_in(without_edge(graph, from, to), from, to),
        forall|n: Seq<u8>|
            n != from && graph.contains_key(n) ==> #[trigger] without_edge(graph, from, to)[n]
                == graph[n],
{
    let less = without_edge(graph, from, to);
    if graph.contains_key(from) {
        let edges = graph[from].edges;
        assert(distinct_keys(edges));
        if has_key(edges, to) {
            crate::assoc::lemma_pairs_map_remove(edges, key_index(edges, to));
        }
        assert(!has_key(less[from].edges, to));
        assert(distinct_keys(less[from].edges));
        assert(less.dom() =~= graph.dom());
        assert forall|n: Seq<u8>| less.contains_key(n) implies distinct_keys(
            #[trigger] less[n].edges,
        ) by {
            if n != from {
                assert(less[n] == graph[n]);
            }
        }
    }
}

/// Block symmetry: once an edge is written in both directions with
/// properties that set a status other than `active`, the cache has neither direction.
pub proof fn lemma_block_edges_deleted(
    graph: GraphModel,
    from: Seq<u8>,
    to: Seq<u8>,
    pairs: Seq<Pair>,
    schema: SchemaCache,
)
    requires
        graph.contains_key(from),
        graph.contains_key(to),
        from != to,
        edges_distinct(graph),
        distinct_keys(pairs),
        deactivates(pairs),
    ensures
        !edge_in(linked_both(graph, from, to, pairs, schema, true), from, to),
        !edge_in(linked_both(graph, from, to, pairs, schema, true), to, from),
{
    let grown = linked(graph, from, to, pairs, schema);
    lemma_linked_effect(graph, from, to, pairs, schema);
    lemma_without_edge_effect(grown, from, to);
    let forward = without_edge(grown, from, to);
    assert(forward.contains_key(to));
    let back = linked(forward, to, from, pairs, schema);
    lemma_linked_effect(forward, to, from, pairs, schema);
    lemma_without_edge_effect(back, to, from);
    let both = without_edge(back, to, from);
    assert(both[from] == back[from]);
    assert(back[from] == forward[from]);
}

/// Once an edge is deleted, in one direction or in both, the cache does
/// not have it.
pub proof fn lemma_edge_leaves(graph: GraphModel, from: Seq<u8>, to: Seq<u8>, both: bool)
    requires
        edges_distinct(graph),
    ensures
        !edge_in(unlinked(graph, from, to, both), from, to),
{
    if both {
        lemma_block_edges_leave(graph, from, to);
    } else {
        let less = without_edge(graph, from, to);
        if graph.contains_key(from) {
            let edges = graph[from].edges;
            assert(distinct_keys(edges));
            if has_key(edges, to) {
                crate::assoc::lemma_pairs_map_remove(edges, key_index(edges, to));
            }
            assert(!has_key(less[from].edges, to));
        }
    }
}

/// Block symmetry: once an edge is deleted in both directions, the cache
/// has neither.
pub proof fn lemma_block_edges_leave(graph: GraphModel, from: Seq<u8>, to: Seq<u8>)
    requires
        edges_distinct(graph),
    ensures
        !edge_in(unlinked(graph, from, to, true), from, to),
        !edge_in(unlinked(graph, from, to, true), to, from),
{
    let less = without_edge(graph, from, to);
    if graph.contains_key(from) {
        let edges = graph[from].edges;
        assert(distinct_keys(edges));
        if has_key(edges, to) {
            crate::assoc::lemma_pairs_map_remove(edges, key_index(edges, to));
        }
        assert(!has_key(less[from].edges, to));
    }
    assert(!edge_in(less, from, to));
    if from != to {
        let least = without_edge(less, to, from);
        if less.contains_key(to) {
            let edges = less[to].edges;
            assert(less[to] == graph[to]);
            assert(distinct_keys(graph[to].edges));
            if has_key(edges, from) {
                crate::assoc::lemma_pairs_map_remove(edges, key_index(edges, from));
            }
            assert(!has_key(least[to].edges, from));
        }
        if least.contains_key(from) {
            assert(least[from] == less[from]);
        }
    }
}

/// The cache is what some state of the tables of the store gives under the
/// whitelists.
pub open spec fn is_loaded(graph: GraphModel, schema: SchemaCache) -> bool {
    exists|
        node_index: Map<Seq<u8>, Seq<u8>>,
        edge_index: Map<Seq<u8>, Seq<u8>>,
        node_data: Map<Seq<u8>, Seq<u8>>,
        edge_data: Map<Seq<u8>, Seq<u8>>,
    |
        #[trigger] is_load_of(graph, node_index, edge_index, node_data, edge_data, schema)
}

/// Starts the service on a store: makes the tables that are not there,
/// fills each index that holds nothing from the property rows, gives every
/// node and edge without a status the status `active`, and reads the
/// whitelists and the cache.
pub fn start(db: &redb::Database) -> (r: Result<(SchemaCache, Graph), ServiceError>)
    ensures
        r matches Err(e) ==> e is Storage,
        r matches Ok(loaded) ==> respects_whitelist(loaded.1@, loaded.0) && is_loaded(
            loaded.1@,
            loaded.0,
        ),
{
    outcome(init_db(db))?;
    outcome(rebuild_indexes_if_empty(db))?;
    outcome(ensure_status_defaults(db))?;
    let schema = outcome(load_schema(db))?;
    let graph = outcome(load_graph(db, &schema))?;
    Ok((schema, graph))
}

/// The properties that a request carries, if it carries any.
pub open spec fn payload(data: Option<PropertyMap>) -> Seq<Pair> {
    match data {
        Some(data) => data.pairs(),
        None => Seq::empty(),
    }
}

/// The properties that a request carries; none where it carries none.
pub fn payload_or_empty(data: Option<PropertyMap>) -> (out: PropertyMap)
    ensures
        out.pairs() == payload(data),
{
    match data {
        Some(data) => data,
        None => PropertyMap::new(),
    }
}

/// The cache once a node is written with its properties: it holds the node
/// with those of the properties that the whitelist keeps in memory, unless
/// the properties set a status other than `active`; then it does not hold
/// the node.
pub open spec fn node_created(graph: GraphModel, schema: SchemaCache, id: Seq<u8>, pairs: Seq<Pair>) -> GraphModel {
    node_patched(with_node(graph, id), schema, id, pairs)
}

/// Properties set a status other than `active` exactly where the status
/// that they give is not `active`.
pub proof fn lemma_deactivates_means(pairs: Seq<Pair>)
    requires
        distinct_keys(pairs),
    ensures
        deactivates(pairs) <==> has_key(pairs, utf8(STATUS_KEY@)) && pairs_map(pairs)[utf8(
            STATUS_KEY@,
        )] != utf8(STATUS_ACTIVE@),
        deactivates(pairs) <==> !active_data(pairs_map(pairs)),
{
    let status = utf8(STATUS_KEY@);
    if has_key(pairs, status) {
        let at = key_index(pairs, status);
        lemma_pairs_map_at(pairs, at);
        if pairs[at].1 != utf8(STATUS_ACTIVE@) {
            assert(deactivating(pairs[at].0, pairs[at].1));
        }
    }
    if deactivates(pairs) {
        let i = choose|i: int|
            0 <= i < pairs.len() && deactivating((#[trigger] pairs[i]).0, pairs[i].1);
        lemma_pairs_map_at(pairs, i);
    }
}

/// Setting properties on a node adds no node to a graph and takes none
/// away.
pub proof fn lemma_node_properties_keep_the_nodes(
    graph: GraphModel,
    id: Seq<u8>,
    pairs: Seq<Pair>,
    schema: SchemaCache,
)
    ensures
        with_node_properties(graph, id, pairs, schema).dom() == graph.dom(),
    decreases pairs.len(),
{
    if pairs.len() > 0 {
        lemma_node_properties_keep_the_nodes(graph, id, pairs.drop_last(), schema);
        let before = with_node_properties(graph, id, pairs.drop_last(), schema);
        assert(with_node_properties(graph, id, pairs, schema).dom() =~= before.dom());
    }
}

/// The cache and the active set, at the creation of a node: once a node is
/// created, the cache holds it exactly where the properties that were
/// written for it are those of an active node.
pub proof fn lemma_created_node_is_cached_while_active(
    graph: GraphModel,
    schema: SchemaCache,
    id: Seq<u8>,
    pairs: Seq<Pair>,
)
    requires
        distinct_keys(pairs),
    ensures
        node_created(graph, schema, id, pairs).contains_key(id) <==> active_data(pairs_map(pairs)),
{
    lemma_deactivates_means(pairs);
    lemma_node_properties_keep_the_nodes(with_node(graph, id), id, pairs, schema);
    assert(with_node(graph, id).contains_key(id));
    assert(with_node_properties(with_node(graph, id), id, pairs, schema).dom().contains(id));
}

/// The cache and the active set, at the creation of an edge: once an edge
/// out of a cached node is written, the cache holds it exactly where the
/// properties that were written for it are those of an active edge.
pub proof fn lemma_written_edge_is_cached_while_active(
    graph: GraphModel,
    schema: SchemaCache,
    from: Seq<u8>,
    to: Seq<u8>,
    pairs: Seq<Pair>,
)
    requires
        graph.contains_key(from),
        edges_distinct(graph),
        distinct_keys(pairs),
    ensures
        edge_in(linked_live(graph, from, to, pairs, schema), from, to) <==> active_data(
            pairs_map(pairs),
        ),
{
    lemma_deactivates_means(pairs);
    lemma_linked_effect(graph, from, to, pairs, schema);
    lemma_without_edge_effect(linked(graph, from, to, pairs, schema), from, to);
}

/// Puts a node that was written with its properties into the cache, with
/// those of the properties that the whitelist keeps in memory. Where the
/// properties set a status other than `active`, the node leaves the cache.
pub fn cache_node(graph: &mut Graph, schema: &SchemaCache, id: &str, data: &PropertyMap)
    ensures
        final(graph)@ == node_created(old(graph)@, *schema, utf8(id@), data.pairs()),
        respects_whitelist(old(graph)@, *schema) ==> respects_whitelist(final(graph)@, *schema),
{
    proof {
        if respects_whitelist(graph@, *schema) {
            lemma_respects_growth(graph@, *schema, utf8(id@), utf8(id@));
        }
    }
    graph.add_node(id);
    proof {
        if respects_whitelist(graph@, *schema) {
            lemma_respects_node_properties(graph@, *schema, utf8(id@), data.pairs());
        }
    }
    let deleted = apply_node_properties(graph, schema, id, data);
    if deleted {
        proof {
            if respects_whitelist(graph@, *schema) {
                lemma_respects_removal(graph@, *schema, utf8(id@), utf8(id@));
            }
        }
        graph.remove_node(id);
    }
}

/// Puts an edge that was written with its properties into the cache, with
/// those of the properties that the whitelist keeps in memory. Where the
/// properties set a status other than `active`, the edge leaves the cache.
pub fn cache_edge(graph: &mut Graph, schema: &SchemaCache, from: &str, to: &str, data: &PropertyMap)
    ensures
        final(graph)@ == linked_live(
            old(graph)@,
            utf8(from@),
            utf8(to@),
            data.pairs(),
            *schema,
        ),
        respects_whitelist(old(graph)@, *schema) ==> respects_whitelist(final(graph)@, *schema),
{
    proof {
        if respects_whitelist(graph@, *schema) {
            lemma_respects_growth(graph@, *schema, utf8(from@), utf8(to@));
        }
    }
    graph.add_edge(from, to);
    proof {
        if respects_whitelist(graph@, *schema) {
            lemma_respects_edge_properties(graph@, *schema, utf8(from@), utf8(to@), data.pairs());
        }
    }
    let deleted = apply_edge_properties(graph, schema, from, to, data);
    if deleted {
        proof {
            if respects_whitelist(graph@, *schema) {
                lemma_respects_removal(graph@, *schema, utf8(from@), utf8(to@));
            }
        }
        graph.remove_edge(from, to);
    }
}

/// Puts an edge that was written with its properties into the cache and,
/// where it is a block edge between two different nodes, the edge in the
/// other direction with the same properties.
pub fn cache_edges(graph: &mut Graph, schema: &SchemaCache, from: &str, to: &str, data: &PropertyMap)
    ensures
        final(graph)@ == linked_both(
            old(graph)@,
            utf8(from@),
            utf8(to@),
            data.pairs(),
            *schema,
            is_block(data@),
        ),
        respects_whitelist(old(graph)@, *schema) ==> respects_whitelist(final(graph)@, *schema),
{
    cache_edge(graph, schema, from, to, data);
    if data_is_block(data) && !str_eq(from, to) {
        cache_edge(graph, schema, to, from, data);
    }
}

/// Whether an operation on a node can go on: the cache holds the node.
pub fn admit_node(graph: &Graph, id: &str) -> (r: Result<(), ServiceError>)
    ensures
        r is Ok <==> graph@.contains_key(utf8(id@)),
        r matches Err(e) ==> e is NotFound,
{
    if graph.has_node(id) {
        Ok(())
    } else {
        Err(node_not_found())
    }
}

/// Whether an edge can be created: the cache holds both of its ends.
pub fn admit_ends(graph: &Graph, from: &str, to: &str) -> (r: Result<(), ServiceError>)
    ensures
        r is Ok <==> graph@.contains_key(utf8(from@)) && graph@.contains_key(utf8(to@)),
        r matches Err(e) ==> e is NotFound,
{
    if graph.has_node(from) && graph.has_node(to) {
        Ok(())
    } else {
        Err(node_not_found())
    }
}

/// Whether an operation on an edge can go on: the cache holds the edge.
pub fn admit_edge(graph: &Graph, from: &str, to: &str) -> (r: Result<(), ServiceError>)
    ensures
        r is Ok <==> edge_in(graph@, utf8(from@), utf8(to@)),
        r matches Err(e) ==> e is NotFound,
{
    if graph.has_edge(from, to) {
        Ok(())
    } else {
        Err(edge_not_found())
    }
}

/// Writes a node with its properties to the store, in one transaction.
pub fn store_node(db: &redb::Database, id: &str, payload: &PropertyMap) -> (r: Result<
    (),
    ServiceError,
>)
    ensures
        r matches Err(e) ==> e is Storage,
{
    outcome(insert_node(db, id, payload))
}

/// Writes an edge with its properties to the store and, where it is a block
/// edge between two different nodes, its mirror, in one transaction.
pub fn store_edge(db: &redb::Database, from: &str, to: &str, payload: &PropertyMap) -> (r: Result<
    (),
    ServiceError,
>)
    ensures
        r matches Err(e) ==> e is Storage,
{
    outcome(insert_edge(db, from, to, payload))
}

/// Sets a property of a node in the store, in one transaction.
pub fn store_node_property(db: &redb::Database, id: &str, key: &str, value: &str) -> (r: Result<
    (),
    ServiceError,
>)
    ensures
        r matches Err(e) ==> e is Storage,
{
    outcome(insert_node_data(db, id, key, value))
}

/// Merges properties into a node in the store, in one transaction.
pub fn store_node_properties(db: &redb::Database, id: &str, data: &PropertyMap) -> (r: Result<
    (),
    ServiceError,
>)
    ensures
        r matches Err(e) ==> e is Storage,
{
    outcome(insert_node_data_bulk(db, id, data))
}

/// Sets a property of an edge in the store and, where it makes the edge a
/// block edge, writes its mirror, in one transaction.
pub fn store_edge_property(
    db: &redb::Database,
    from: &str,
    to: &str,
    key: &str,
    value: &str,
) -> (r: Result<(), ServiceError>)
    ensures
        r matches Err(e) ==> e is Storage,
{
    outcome(insert_edge_data(db, from, to, key, value))
}

/// Merges properties into an edge in the store and, where they make the
/// edge a block edge, writes its mirror, in one transaction.
pub fn store_edge_properties(db: &redb::Database, from: &str, to: &str, data: &PropertyMap) -> (r: Result<
    (),
    ServiceError,
>)
    ensures
        r matches Err(e) ==> e is Storage,
{
    outcome(insert_edge_data_bulk(db, from, to, data))
}

/// Marks a node and every edge at it as deleted in the store, in one
/// transaction. A node without a row is not found, and nothing is written.
pub fn store_node_deletion(db: &redb::Database, id: &str) -> (r: Result<(), ServiceError>)
    ensures
        r matches Err(e) ==> !(e is BadRequest),
{
    node_deletion_outcome(soft_delete_node(db, id))
}

/// Marks an edge as deleted in the store and, where the store holds the
/// type `block` for it or `always_both` holds, the edge in the other
/// direction, in one transaction. Returns whether both were marked. An edge
/// without a row is not found, and nothing is written.
pub fn store_edge_deletion(db: &redb::Database, from: &str, to: &str, always_both: bool) -> (r: Result<
    bool,
    ServiceError,
>)
    ensures
        r matches Err(e) ==> !(e is BadRequest),
{
    edge_deletion_outcome(soft_delete_edge(db, from, to, always_both))
}

/// Puts a node that was created with the properties `payload` into the
/// cache: with the status `active` unless they have a status, and not at
/// all where they set a status other than `active`.
pub fn cache_created_node(graph: &mut Graph, schema: &SchemaCache, id: &str, payload: &PropertyMap)
    ensures
        final(graph)@ == node_created(old(graph)@, *schema, utf8(id@), defaulted(payload.pairs())),
        respects_whitelist(old(graph)@, *schema) ==> respects_whitelist(final(graph)@, *schema),
{
    let full = with_default_status(payload.clone());
    cache_node(graph, schema, id, &full);
}

/// Puts an edge that was created with the properties `payload` into the
/// cache, in both directions where it is a block edge between two
/// different nodes: with the status `active` unless they have a status,
/// and not at all where they set a status other than `active`.
pub fn cache_created_edge(
    graph: &mut Graph,
    schema: &SchemaCache,
    from: &str,
    to: &str,
    payload: &PropertyMap,
)
    ensures
        final(graph)@ == linked_both(
            old(graph)@,
            utf8(from@),
            utf8(to@),
            defaulted(payload.pairs()),
            *schema,
            is_block(pairs_map(defaulted(payload.pairs()))),
        ),
        respects_whitelist(old(graph)@, *schema) ==> respects_whitelist(final(graph)@, *schema),
{
    let full = with_default_status(payload.clone());
    cache_edges(graph, schema, from, to, &full);
}

/// The properties that a request to create a block edge carries, with the
/// type `block`.
pub fn block_payload(data: Option<PropertyMap>) -> (out: PropertyMap)
    ensures
        out.pairs() == as_block(payload(data)),
        is_block(out@),
        distinct_keys(out.pairs()),
{
    let mut given = payload_or_empty(data);
    given.insert(TYPE_KEY.to_owned(), TYPE_BLOCK.to_owned());
    given
}

/// Sets a property of a cached node in the cache.
pub fn cache_node_property(graph: &mut Graph, schema: &SchemaCache, id: &str, key: &str, value: &str)
    ensures
        final(graph)@ == node_data_set(
            old(graph)@,
            *schema,
            utf8(id@),
            utf8(key@),
            utf8(value@),
        ),
        respects_whitelist(old(graph)@, *schema) ==> respects_whitelist(final(graph)@, *schema),
{
    if schema.node_in_memory(key) {
        proof {
            if respects_whitelist(graph@, *schema) {
                lemma_respects_node_data(graph@, *schema, utf8(id@), utf8(key@), utf8(value@));
            }
        }
        graph.set_node_data(id, key, value);
    }
    if str_eq(key, STATUS_KEY) && !str_eq(value, STATUS_ACTIVE) {
        proof {
            if respects_whitelist(graph@, *schema) {
                lemma_respects_removal(graph@, *schema, utf8(id@), utf8(id@));
            }
        }
        graph.remove_node(id);
    }
}

/// Sets a property of a cached edge in the cache.
pub fn cache_edge_property(
    graph: &mut Graph,
    schema: &SchemaCache,
    from: &str,
    to: &str,
    key: &str,
    value: &str,
)
    ensures
        final(graph)@ == edge_data_set(
            old(graph)@,
            *schema,
            utf8(from@),
            utf8(to@),
            utf8(key@),
            utf8(value@),
        ),
        respects_whitelist(old(graph)@, *schema) ==> respects_whitelist(final(graph)@, *schema),
{
    if schema.edge_in_memory(key) {
        proof {
            if respects_whitelist(graph@, *schema) {
                lemma_respects_edge_data(
                    graph@,
                    *schema,
                    utf8(from@),
                    utf8(to@),
                    utf8(key@),
                    utf8(value@),
                );
            }
        }
        graph.set_edge_data(from, to, key, value);
    }
    if str_eq(key, STATUS_KEY) && !str_eq(value, STATUS_ACTIVE) {
        proof {
            if respects_whitelist(graph@, *schema) {
                lemma_respects_removal(graph@, *schema, utf8(from@), utf8(to@));
            }
        }
        graph.remove_edge(from, to);
    }
    if str_eq(key, TYPE_KEY) && str_eq(value, TYPE_BLOCK) && !str_eq(from, to) {
        let reverse = mirror_data();
        proof {
            lemma_mirror_is_active();
        }
        cache_edge(graph, schema, to, from, &reverse);
    }
}

/// Merges properties into a cached node in the cache.
pub fn cache_node_patch(graph: &mut Graph, schema: &SchemaCache, id: &str, data: &PropertyMap)
    ensures
        final(graph)@ == node_patched(old(graph)@, *schema, utf8(id@), data.pairs()),
        respects_whitelist(old(graph)@, *schema) ==> respects_whitelist(final(graph)@, *schema),
{
    proof {
        if respects_whitelist(graph@, *schema) {
            lemma_respects_node_properties(graph@, *schema, utf8(id@), data.pairs());
        }
    }
    let deleted = apply_node_properties(graph, schema, id, data);
    if deleted {
        proof {
            if respects_whitelist(graph@, *schema) {
                lemma_respects_removal(graph@, *schema, utf8(id@), utf8(id@));
            }
        }
        graph.remove_node(id);
    }
}

/// Merges properties into a cached edge in the cache.
pub fn cache_edge_patch(graph: &mut Graph, schema: &SchemaCache, from: &str, to: &str, data: &PropertyMap)
    ensures
        final(graph)@ == edge_patched(
            old(graph)@,
            *schema,
            utf8(from@),
            utf8(to@),
            data.pairs(),
        ),
        respects_whitelist(old(graph)@, *schema) ==> respects_whitelist(final(graph)@, *schema),
{
    proof {
        if respects_whitelist(graph@, *schema) {
            lemma_respects_edge_properties(graph@, *schema, utf8(from@), utf8(to@), data.pairs());
        }
    }
    let deleted = apply_edge_properties(graph, schema, from, to, data);
    if deleted {
        proof {
            if respects_whitelist(graph@, *schema) {
                lemma_respects_removal(graph@, *schema, utf8(from@), utf8(to@));
            }
        }
        graph.remove_edge(from, to);
    }
    if data_is_block(data) && !str_eq(from, to) {
        let reverse = with_default_status(data.clone());
        cache_edge(graph, schema, to, from, &reverse);
    }
}

/// Ends the creation of a node for what the store gave: where the node was
/// written, the cache gets it as `cache_created_node` says; where the store
/// failed, the cache stays as it is.
pub fn settle_created_node(
    graph: &mut Graph,
    schema: &SchemaCache,
    id: &str,
    payload: &PropertyMap,
    stored: Result<(), redb::Error>,
) -> (r: Result<(), ServiceError>)
    ensures
        match stored {
            Ok(_) => r is Ok && final(graph)@ == node_created(
                old(graph)@,
                *schema,
                utf8(id@),
                defaulted(payload.pairs()),
            ),
            Err(_) => (r matches Err(e) && e is Storage) && final(graph)@ == old(graph)@,
        },
        respects_whitelist(old(graph)@, *schema) ==> respects_whitelist(final(graph)@, *schema),
{
    outcome(stored)?;
    cache_created_node(graph, schema, id, payload);
    Ok(())
}

/// Ends the creation of an edge for what the store gave: where the edge was
/// written, the cache gets it as `cache_created_edge` says; where the store
/// failed, the cache stays as it is.
pub fn settle_created_edge(
    graph: &mut Graph,
    schema: &SchemaCache,
    from: &str,
    to: &str,
    payload: &PropertyMap,
    stored: Result<(), redb::Error>,
) -> (r: Result<(), ServiceError>)
    ensures
        match stored {
            Ok(_) => r is Ok && final(graph)@ == linked_both(
                old(graph)@,
                utf8(from@),
                utf8(to@),
                defaulted(payload.pairs()),
                *schema,
                is_block(pairs_map(defaulted(payload.pairs()))),
            ),
            Err(_) => (r matches Err(e) && e is Storage) && final(graph)@ == old(graph)@,
        },
        respects_whitelist(old(graph)@, *schema) ==> respects_whitelist(final(graph)@, *schema),
{
    outcome(stored)?;
    cache_created_edge(graph, schema, from, to, payload);
    Ok(())
}

/// Ends the setting of a property of a node for what the store gave.
pub fn settle_node_property(
    graph: &mut Graph,
    schema: &SchemaCache,
    id: &str,
    key: &str,
    value: &str,
    stored: Result<(), redb::Error>,
) -> (r: Result<(), ServiceError>)
    ensures
        match stored {
            Ok(_) => r is Ok && final(graph)@ == node_data_set(
                old(graph)@,
                *schema,
                utf8(id@),
                utf8(key@),
                utf8(value@),
            ),
            Err(_) => (r matches Err(e) && e is Storage) && final(graph)@ == old(graph)@,
        },
        respects_whitelist(old(graph)@, *schema) ==> respects_whitelist(final(graph)@, *schema),
{
    outcome(stored)?;
    cache_node_property(graph, schema, id, key, value);
    Ok(())
}

/// Ends the setting of a property of an edge for what the store gave.
pub fn settle_edge_property(
    graph: &mut Graph,
    schema: &SchemaCache,
    from: &str,
    to: &str,
    key: &str,
    value: &str,
    stored: Result<(), redb::Error>,
) -> (r: Result<(), ServiceError>)
    ensures
        match stored {
            Ok(_) => r is Ok && final(graph)@ == edge_data_set(
                old(graph)@,
                *schema,
                utf8(from@),
                utf8(to@),
                utf8(key@),
                utf8(value@),
            ),
            Err(_) => (r matches Err(e) && e is Storage) && final(graph)@ == old(graph)@,
        },
        respects_whitelist(old(graph)@, *schema) ==> respects_whitelist(final(graph)@, *schema),
{
    outcome(stored)?;
    cache_edge_property(graph, schema, from, to, key, value);
    Ok(())
}

/// Ends the merging of properties into a node for what the store gave.
pub fn settle_node_patch(
    graph: &mut Graph,
    schema: &SchemaCache,
    id: &str,
    data: &PropertyMap,
    stored: Result<(), redb::Error>,
) -> (r: Result<(), ServiceError>)
    ensures
        match stored {
            Ok(_) => r is Ok && final(graph)@ == node_patched(
                old(graph)@,
                *schema,
                utf8(id@),
                data.pairs(),
            ),
            Err(_) => (r matches Err(e) && e is Storage) && final(graph)@ == old(graph)@,
        },
        respects_whitelist(old(graph)@, *schema) ==> respects_whitelist(final(graph)@, *schema),
{
    outcome(stored)?;
    cache_node_patch(graph, schema, id, data);
    Ok(())
}

/// Ends the merging of properties into an edge for what the store gave.
pub fn settle_edge_patch(
    graph: &mut Graph,
    schema: &SchemaCache,
    from: &str,
    to: &str,
    data: &PropertyMap,
    stored: Result<(), redb::Error>,
) -> (r: Result<(), ServiceError>)
    ensures
        match stored {
            Ok(_) => r is Ok && final(graph)@ == edge_patched(
                old(graph)@,
                *schema,
                utf8(from@),
                utf8(to@),
                data.pairs(),
            ),
            Err(_) => (r matches Err(e) && e is Storage) && final(graph)@ == old(graph)@,
        },
        respects_whitelist(old(graph)@, *schema) ==> respects_whitelist(final(graph)@, *schema),
{
    outcome(stored)?;
    cache_edge_patch(graph, schema, from, to, data);
    Ok(())
}

/// Ends the deletion of a node for what the store gave: where the node had
/// a row, it leaves the cache with the edges that lead to it; where it had
/// none, it is not found; where the store failed, so does the deletion. In
/// the two last cases the cache stays as it is.
pub fn settle_node_deletion(graph: &mut Graph, id: &str, found: Result<bool, redb::Error>) -> (r: Result<
    (),
    ServiceError,
>)
    ensures
        match found {
            Ok(true) => r is Ok && final(graph)@ == without_node(old(graph)@, utf8(id@)),
            Ok(false) => (r matches Err(e) && e is NotFound) && final(graph)@ == old(graph)@,
            Err(_) => (r matches Err(e) && e is Storage) && final(graph)@ == old(graph)@,
        },
{
    node_deletion_outcome(found)?;
    graph.remove_node(id);
    Ok(())
}

/// Ends the deletion of an edge for what the store gave: where the edge had
/// a row, it leaves the cache, with the edge in the other direction where
/// the store marked both or `always_both` holds; where it had none, it is
/// not found; where the store failed, so does the deletion. In the two last
/// cases the cache stays as it is.
pub fn settle_edge_deletion(
    graph: &mut Graph,
    from: &str,
    to: &str,
    always_both: bool,
    done: Result<Option<bool>, redb::Error>,
) -> (r: Result<(), ServiceError>)
    ensures
        match done {
            Ok(Some(both)) => r is Ok && final(graph)@ == unlinked(
                old(graph)@,
                utf8(from@),
                utf8(to@),
                always_both || both,
            ) && !edge_in(final(graph)@, utf8(from@), utf8(to@)),
            Ok(None) => (r matches Err(e) && e is NotFound) && final(graph)@ == old(graph)@,
            Err(_) => (r matches Err(e) && e is Storage) && final(graph)@ == old(graph)@,
        },
{
    let both = edge_deletion_outcome(done)?;
    unlink_cached(graph, from, to, always_both || both);
    Ok(())
}

/// Creates a node: writes its row and its properties, with the status
/// `active` unless the properties have one, and adds it to the cache with
/// the properties that the whitelist keeps in memory. A node that is
/// created with the status `deleted` is written and not cached.
pub fn create_node(
    db: &redb::Database,
    graph: &mut Graph,
    schema: &SchemaCache,
    id: &str,
    data: Option<PropertyMap>,
) -> (r: Result<(), ServiceError>)
    ensures
        r is Ok ==> final(graph)@ == node_created(
            old(graph)@,
            *schema,
            utf8(id@),
            defaulted(payload(data)),
        ),
        r matches Err(e) ==> e is Storage && final(graph)@ == old(graph)@,
        respects_whitelist(old(graph)@, *schema) ==> respects_whitelist(final(graph)@, *schema),
{
    let given = payload_or_empty(data);
    let stored = insert_node(db, id, &given);
    settle_created_node(graph, schema, id, &given, stored)
}

/// Creates an edge between two cached nodes, with the status `active`
/// unless the properties have one. An edge of type `block` between two
/// different nodes is created in both directions, with the same
/// properties. An edge that is created with the status `deleted` is written
/// and not cached.
pub fn create_edge(
    db: &redb::Database,
    graph: &mut Graph,
    schema: &SchemaCache,
    from: &str,
    to: &str,
    data: Option<PropertyMap>,
) -> (r: Result<(), ServiceError>)
    ensures
        !(old(graph)@.contains_key(utf8(from@)) && old(graph)@.contains_key(utf8(to@))) ==> (r matches Err(
            e,
        ) && e is NotFound),
        old(graph)@.contains_key(utf8(from@)) && old(graph)@.contains_key(utf8(to@)) ==> (r matches Err(
            e,
        ) ==> e is Storage),
        r is Err ==> final(graph)@ == old(graph)@,
        r is Ok ==> final(graph)@ == linked_both(
            old(graph)@,
            utf8(from@),
            utf8(to@),
            defaulted(payload(data)),
            *schema,
            is_block(crate::assoc::pairs_map(defaulted(payload(data)))),
        ),
        respects_whitelist(old(graph)@, *schema) ==> respects_whitelist(final(graph)@, *schema),
{
    admit_ends(graph, from, to)?;
    let given = payload_or_empty(data);
    let stored = insert_edge(db, from, to, &given);
    settle_created_edge(graph, schema, from, to, &given, stored)
}

/// The properties with the type `block`.
pub open spec fn as_block(pairs: Seq<Pair>) -> Seq<Pair> {
    if has_key(pairs, utf8(TYPE_KEY@)) {
        pairs.update(key_index(pairs, utf8(TYPE_KEY@)), (utf8(TYPE_KEY@), utf8(TYPE_BLOCK@)))
    } else {
        pairs.push((utf8(TYPE_KEY@), utf8(TYPE_BLOCK@)))
    }
}

/// Creates a block edge between two cached nodes: an edge of type `block`,
/// in both directions where the nodes differ, with the same properties.
pub fn create_block(
    db: &redb::Database,
    graph: &mut Graph,
    schema: &SchemaCache,
    from: &str,
    to: &str,
    data: Option<PropertyMap>,
) -> (r: Result<(), ServiceError>)
    ensures
        !(old(graph)@.contains_key(utf8(from@)) && old(graph)@.contains_key(utf8(to@))) ==> (r matches Err(
            e,
        ) && e is NotFound),
        old(graph)@.contains_key(utf8(from@)) && old(graph)@.contains_key(utf8(to@)) ==> (r matches Err(
            e,
        ) ==> e is Storage),
        r is Err ==> final(graph)@ == old(graph)@,
        r is Ok ==> final(graph)@ == linked_both(
            old(graph)@,
            utf8(from@),
            utf8(to@),
            defaulted(as_block(payload(data))),
            *schema,
            true,
        ),
        respects_whitelist(old(graph)@, *schema) ==> respects_whitelist(final(graph)@, *schema),
{
    admit_ends(graph, from, to)?;
    let given = block_payload(data);
    let stored = insert_edge(db, from, to, &given);
    proof {
        lemma_words_differ();
        if !has_key(given.pairs(), utf8(STATUS_KEY@)) {
            lemma_pairs_map_push(given.pairs(), utf8(STATUS_KEY@), utf8(STATUS_ACTIVE@));
        }
    }
    settle_created_edge(graph, schema, from, to, &given, stored)
}

/// The cache once a property of a node is set: the property is kept where
/// the whitelist keeps it in memory, and the node leaves the cache where
/// its status becomes `deleted`.
pub open spec fn node_data_set(
    graph: GraphModel,
    schema: SchemaCache,
    id: Seq<u8>,
    key: Seq<u8>,
    value: Seq<u8>,
) -> GraphModel {
    let kept = if schema.node_allows(key) {
        with_node_data(graph, id, key, value)
    } else {
        graph
    };
    if deactivating(key, value) {
        without_node(kept, id)
    } else {
        kept
    }
}

/// Sets a property of a cached node, in the store and in the cache.
pub fn set_node_data(
    db: &redb::Database,
    graph: &mut Graph,
    schema: &SchemaCache,
    id: &str,
    key: &str,
    value: &str,
) -> (r: Result<(), ServiceError>)
    ensures
        !old(graph)@.contains_key(utf8(id@)) ==> (r matches Err(e) && e is NotFound),
        old(graph)@.contains_key(utf8(id@)) ==> (r matches Err(e) ==> e is Storage),
        r is Err ==> final(graph)@ == old(graph)@,
        r is Ok ==> final(graph)@ == node_data_set(
            old(graph)@,
            *schema,
            utf8(id@),
            utf8(key@),
            utf8(value@),
        ),
        respects_whitelist(old(graph)@, *schema) ==> respects_whitelist(final(graph)@, *schema),
{
    admit_node(graph, id)?;
    let stored = insert_node_data(db, id, key, value);
    settle_node_property(graph, schema, id, key, value, stored)
}

/// The properties of the edge that mirrors an edge which became a block
/// edge.
pub open spec fn mirror_properties() -> Seq<Pair> {
    seq![(utf8(TYPE_KEY@), utf8(TYPE_BLOCK@)), (utf8(STATUS_KEY@), utf8(STATUS_ACTIVE@))]
}

/// The cache once a property of an edge is set: the property is kept where
/// the whitelist keeps it in memory; the edge leaves the cache where its
/// status becomes `deleted`; and where its type becomes `block` and its
/// ends differ, the edge in the other direction is there as an active block
/// edge.
pub open spec fn edge_data_set(
    graph: GraphModel,
    schema: SchemaCache,
    from: Seq<u8>,
    to: Seq<u8>,
    key: Seq<u8>,
    value: Seq<u8>,
) -> GraphModel {
    let kept = if schema.edge_allows(key) {
        with_edge_data(graph, from, to, key, value)
    } else {
        graph
    };
    let left = if deactivating(key, value) {
        without_edge(kept, from, to)
    } else {
        kept
    };
    if key == utf8(TYPE_KEY@) && value == utf8(TYPE_BLOCK@) && from != to {
        linked(left, to, from, mirror_properties(), schema)
    } else {
        left
    }
}

/// Sets a property of a cached edge, in the store and in the cache.
pub fn set_edge_data(
    db: &redb::Database,
    graph: &mut Graph,
    schema: &SchemaCache,
    from: &str,
    to: &str,
    key: &str,
    value: &str,
) -> (r: Result<(), ServiceError>)
    ensures
        !edge_in(old(graph)@, utf8(from@), utf8(to@)) ==> (r matches Err(e) && e is NotFound),
        edge_in(old(graph)@, utf8(from@), utf8(to@)) ==> (r matches Err(e) ==> e is Storage),
        r is Err ==> final(graph)@ == old(graph)@,
        r is Ok ==> final(graph)@ == edge_data_set(
            old(graph)@,
            *schema,
            utf8(from@),
            utf8(to@),
            utf8(key@),
            utf8(value@),
        ),
        respects_whitelist(old(graph)@, *schema) ==> respects_whitelist(final(graph)@, *schema),
{
    admit_edge(graph, from, to)?;
    let stored = insert_edge_data(db, from, to, key, value);
    settle_edge_property(graph, schema, from, to, key, value, stored)
}

/// The cache once properties of a node are merged: those that the
/// whitelist keeps in memory are set, and the node leaves the cache where
/// they set a status other than `active`.
pub open spec fn node_patched(graph: GraphModel, schema: SchemaCache, id: Seq<u8>, pairs: Seq<Pair>) -> GraphModel {
    let kept = with_node_properties(graph, id, pairs, schema);
    if deactivates(pairs) {
        without_node(kept, id)
    } else {
        kept
    }
}

/// Merges properties into a cached node, in the store and in the cache.
pub fn update_node_data(
    db: &redb::Database,
    graph: &mut Graph,
    schema: &SchemaCache,
    id: &str,
    data: &PropertyMap,
) -> (r: Result<(), ServiceError>)
    ensures
        !old(graph)@.contains_key(utf8(id@)) ==> (r matches Err(e) && e is NotFound),
        old(graph)@.contains_key(utf8(id@)) ==> (r matches Err(e) ==> e is Storage),
        r is Err ==> final(graph)@ == old(graph)@,
        r is Ok ==> final(graph)@ == node_patched(old(graph)@, *schema, utf8(id@), data.pairs()),
        respects_whitelist(old(graph)@, *schema) ==> respects_whitelist(final(graph)@, *schema),
{
    admit_node(graph, id)?;
    let stored = insert_node_data_bulk(db, id, data);
    settle_node_patch(graph, schema, id, data, stored)
}

/// The cache once properties of an edge are merged: those that the
/// whitelist keeps in memory are set, and the edge leaves the cache where
/// they set a status other than `active`. Where they make it a block edge and its ends
/// differ, the edge in the other direction gets the same properties, with
/// the status `active` unless they have a status, and is cached unless
/// they set a status other than `active`.
pub open spec fn edge_patched(
    graph: GraphModel,
    schema: SchemaCache,
    from: Seq<u8>,
    to: Seq<u8>,
    pairs: Seq<Pair>,
) -> GraphModel {
    let kept = with_edge_properties(graph, from, to, pairs, schema);
    let left = if deactivates(pairs) {
        without_edge(kept, from, to)
    } else {
        kept
    };
    if is_block(crate::assoc::pairs_map(pairs)) && from != to {
        linked_live(left, to, from, defaulted(pairs), schema)
    } else {
        left
    }
}

/// Merges properties into a cached edge, in the store and in the cache.
pub fn update_edge_data(
    db: &redb::Database,
    graph: &mut Graph,
    schema: &SchemaCache,
    from: &str,
    to: &str,
    data: &PropertyMap,
) -> (r: Result<(), ServiceError>)
    ensures
        !edge_in(old(graph)@, utf8(from@), utf8(to@)) ==> (r matches Err(e) && e is NotFound),
        edge_in(old(graph)@, utf8(from@), utf8(to@)) ==> (r matches Err(e) ==> e is Storage),
        r is Err ==> final(graph)@ == old(graph)@,
        r is Ok ==> final(graph)@ == edge_patched(
            old(graph)@,
            *schema,
            utf8(from@),
            utf8(to@),
            data.pairs(),
        ),
        respects_whitelist(old(graph)@, *schema) ==> respects_whitelist(final(graph)@, *schema),
{
    admit_edge(graph, from, to)?;
    let stored = insert_edge_data_bulk(db, from, to, data);
    settle_edge_patch(graph, schema, from, to, data, stored)
}

/// Deletes a node: marks it and every edge at it as deleted in the store,
/// and takes it out of the cache with the edges that lead to it.
pub fn delete_node(db: &redb::Database, graph: &mut Graph, id: &str) -> (r: Result<
    (),
    ServiceError,
>)
    ensures
        r is Ok ==> final(graph)@ == without_node(old(graph)@, utf8(id@)),
        r matches Err(e) ==> !(e is BadRequest) && final(graph)@ == old(graph)@,
{
    let found = soft_delete_node(db, id);
    settle_node_deletion(graph, id, found)
}

/// The cache without an edge and, where `both` holds and the ends differ,
/// without the edge in the other direction.
pub open spec fn unlinked(graph: GraphModel, from: Seq<u8>, to: Seq<u8>, both: bool) -> GraphModel {
    let less = without_edge(graph, from, to);
    if both && from != to {
        without_edge(less, to, from)
    } else {
        less
    }
}

/// Takes an edge out of the cache and, where `both` holds and the ends
/// differ, the edge in the other direction.
pub fn unlink_cached(graph: &mut Graph, from: &str, to: &str, both: bool)
    ensures
        final(graph)@ == unlinked(old(graph)@, utf8(from@), utf8(to@), both),
        !edge_in(final(graph)@, utf8(from@), utf8(to@)),
{
    let ghost before = graph@;
    graph.remove_edge(from, to);
    if both && !str_eq(from, to) {
        graph.remove_edge(to, from);
    }
    proof {
        lemma_edge_leaves(before, utf8(from@), utf8(to@), both);
    }
}

/// Deletes an edge: marks it as deleted in the store and takes it out of
/// the cache. Where the type that the store holds for the edge is `block`
/// and its ends differ, the edge in the other direction is deleted with it,
/// in the same transaction. The type is read from the store, since the
/// cache holds it only where the whitelist keeps it in memory.
pub fn delete_edge(db: &redb::Database, graph: &mut Graph, from: &str, to: &str) -> (r: Result<
    (),
    ServiceError,
>)
    ensures
        r is Ok ==> final(graph)@ == unlinked(old(graph)@, utf8(from@), utf8(to@), true)
            || final(graph)@ == unlinked(old(graph)@, utf8(from@), utf8(to@), false),
        r is Ok ==> !edge_in(final(graph)@, utf8(from@), utf8(to@)),
        r matches Err(e) ==> !(e is BadRequest) && final(graph)@ == old(graph)@,
{
    let done = soft_delete_edge(db, from, to, false);
    settle_edge_deletion(graph, from, to, false, done)
}

/// Deletes a cached block edge in both directions, in the store and in the
/// cache.
pub fn delete_block(db: &redb::Database, graph: &mut Graph, from: &str, to: &str) -> (r: Result<
    (),
    ServiceError,
>)
    ensures
        !edge_in(old(graph)@, utf8(from@), utf8(to@)) ==> (r matches Err(e) && e is NotFound),
        r is Ok ==> final(graph)@ == unlinked(old(graph)@, utf8(from@), utf8(to@), true),
        r matches Err(e) ==> !(e is BadRequest) && final(graph)@ == old(graph)@,
{
    admit_edge(graph, from, to)?;
    let done = soft_delete_edge(db, from, to, true);
    settle_edge_deletion(graph, from, to, true, done)
}

/// The fields that a whitelist keeps of those that a request names.
pub open spec fn kept_fields(fields: Seq<String>) -> Seq<Seq<u8>> {
    sort_unique(trimmed_fields(fields))
}

/// The kind and the fields of a whitelist that a request names. The
/// request is refused where the name of the kind is neither `node` nor
/// `edge`, and where no field is left once the fields are trimmed.
pub fn checked_whitelist(entity: &str, fields: &Vec<String>) -> (r: Result<
    (EntityKind, Vec<String>),
    ServiceError,
>)
    ensures
        match r {
            Ok(named) => named_kind(entity@) == Some(named.0) && strings_utf8(named.1@)
                == kept_fields(fields@) && named.1@.len() > 0,
            Err(e) => e is BadRequest && (named_kind(entity@) is None || kept_fields(fields@).len()
                == 0),
        },
{
    let kind = match parse_entity_kind(entity) {
        Some(kind) => kind,
        None => {
            return Err(ServiceError::BadRequest("entity must be node or edge".to_owned()));
        },
    };
    let kept = normalize_fields(fields);
    if kept.len() == 0 {
        return Err(ServiceError::BadRequest("fields must not be empty".to_owned()));
    }
    Ok((kind, kept))
}

/// The name under which the whitelist of a kind is stored.
pub fn kind_name(kind: EntityKind) -> (name: &'static str)
    ensures
        named_kind(name@) == Some(kind),
{
    proof {
        reveal_strlit("node");
        reveal_strlit("edge");
        assert("node"@[0] != "edge"@[0]);
    }
    match kind {
        EntityKind::Node => "node",
        EntityKind::Edge => "edge",
    }
}

fn store_whitelist_rows(db: &redb::Database, kind: EntityKind, fields: &Vec<String>) -> Result<
    (),
    redb::Error,
> {
    save_schema(db, kind_name(kind), fields.as_slice())
}

/// Writes the whitelist of a kind of entity to the store, in one
/// transaction.
pub fn store_whitelist(db: &redb::Database, kind: EntityKind, fields: &Vec<String>) -> (r: Result<
    (),
    ServiceError,
>)
    ensures
        r matches Err(e) ==> e is Storage,
{
    outcome(store_whitelist_rows(db, kind, fields))
}

/// Gives a kind of entity its whitelist; the other kind keeps its own.
pub fn set_whitelist(schema: &mut SchemaCache, kind: EntityKind, fields: Vec<String>)
    ensures
        match kind {
            EntityKind::Node => final(schema).node_defined && final(schema).node_fields == fields
                && final(schema).edge_defined == old(schema).edge_defined
                && final(schema).edge_fields == old(schema).edge_fields,
            EntityKind::Edge => final(schema).edge_defined && final(schema).edge_fields == fields
                && final(schema).node_defined == old(schema).node_defined
                && final(schema).node_fields == old(schema).node_fields,
        },
{
    match kind {
        EntityKind::Node => {
            schema.node_fields = fields;
            schema.node_defined = true;
        },
        EntityKind::Edge => {
            schema.edge_fields = fields;
            schema.edge_defined = true;
        },
    }
}

/// Builds the cache anew from the store, under the whitelists.
pub fn reload_cache(db: &redb::Database, schema: &SchemaCache) -> (r: Result<Graph, ServiceError>)
    ensures
        r matches Err(e) ==> e is Storage,
        r matches Ok(graph) ==> respects_whitelist(graph@, *schema) && is_loaded(graph@, *schema),
{
    outcome(load_graph(db, schema))
}

/// The whitelists once the kind `kind` has the fields `kept`; the other
/// kind keeps its own.
pub open spec fn has_whitelist(
    after: SchemaCache,
    before: SchemaCache,
    kind: EntityKind,
    kept: Seq<Seq<u8>>,
) -> bool {
    match kind {
        EntityKind::Node => after.node_defined && strings_utf8(after.node_fields@) == kept
            && after.edge_defined == before.edge_defined && after.edge_fields
            == before.edge_fields,
        EntityKind::Edge => after.edge_defined && strings_utf8(after.edge_fields@) == kept
            && after.node_defined == before.node_defined && after.node_fields
            == before.node_fields,
    }
}

/// The whitelists once the kind that `name` stands for has the fields
/// `kept`.
pub open spec fn has_named_whitelist(
    after: SchemaCache,
    before: SchemaCache,
    name: Seq<char>,
    kept: Seq<Seq<u8>>,
) -> bool {
    match named_kind(name) {
        Some(kind) => has_whitelist(after, before, kind, kept),
        None => false,
    }
}

/// Ends the storing of a whitelist for what the store gave: where it was
/// written, the kind gets it; where the store failed, the whitelists stay
/// as they are.
pub fn settle_whitelist(
    schema: &mut SchemaCache,
    kind: EntityKind,
    fields: Vec<String>,
    stored: Result<(), redb::Error>,
) -> (r: Result<(), ServiceError>)
    ensures
        match stored {
            Ok(_) => r is Ok && has_whitelist(
                *final(schema),
                *old(schema),
                kind,
                strings_utf8(fields@),
            ),
            Err(_) => (r matches Err(e) && e is Storage) && *final(schema) == *old(schema),
        },
{
    outcome(stored)?;
    set_whitelist(schema, kind, fields);
    Ok(())
}

/// Ends the rebuilding of the cache for what the store gave: where the
/// cache was read, it takes the place of the old one; where the store
/// failed, the old one stays.
pub fn settle_reload(graph: &mut Graph, loaded: Result<Graph, redb::Error>) -> (r: Result<
    (),
    ServiceError,
>)
    ensures
        match loaded {
            Ok(fresh) => r is Ok && *final(graph) == fresh,
            Err(_) => (r matches Err(e) && e is Storage) && *final(graph) == *old(graph),
        },
{
    let fresh = outcome(loaded)?;
    *graph = fresh;
    Ok(())
}

/// Sets the whitelist of a kind of entity and builds the cache anew under
/// it. The request is refused where the name of the kind is neither `node`
/// nor `edge`, and where no field is left once the fields are trimmed.
/// Whatever fails, the cache stays as it is; the whitelists stay as they
/// are unless it is the rebuilding that failed, after the whitelist was
/// stored and set.
pub fn upsert_schema(
    db: &redb::Database,
    graph: &mut Graph,
    schema: &mut SchemaCache,
    entity: &str,
    fields: &Vec<String>,
) -> (r: Result<(), ServiceError>)
    ensures
        (named_kind(entity@) is None || kept_fields(fields@).len() == 0) ==> (r matches Err(e)
            && e is BadRequest) && *final(schema) == *old(schema),
        !(named_kind(entity@) is None || kept_fields(fields@).len() == 0) ==> (r matches Err(e)
            ==> e is Storage),
        r is Err ==> final(graph)@ == old(graph)@,
        r is Err ==> *final(schema) == *old(schema) || has_named_whitelist(
            *final(schema),
            *old(schema),
            entity@,
            kept_fields(fields@),
        ),
        r is Ok ==> respects_whitelist(final(graph)@, *final(schema)) && is_loaded(
            final(graph)@,
            *final(schema),
        ) && has_named_whitelist(*final(schema), *old(schema), entity@, kept_fields(fields@)),
{
    let (kind, kept) = match checked_whitelist(entity, fields) {
        Ok(named) => named,
        Err(error) => {
            return Err(error);
        },
    };
    let stored = store_whitelist_rows(db, kind, &kept);
    settle_whitelist(schema, kind, kept, stored)?;
    let loaded = load_graph(db, schema);
    settle_reload(graph, loaded)
}

/// The whitelist of one kind of entity, as a reader gets it.
#[derive(Debug)]
pub struct SchemaView {
    pub entity: String,
    pub fields: Vec<String>,
}

/// Reads the whitelists: that of the kind that `entity` names, or both. The
/// fields come in ascending order. The request is refused where `entity` is
/// neither `node` nor `edge`.
pub fn get_schema(schema: &SchemaCache, entity: Option<&str>) -> (r: Result<
    Vec<SchemaView>,
    ServiceError,
>)
    ensures
        match entity {
            Some(name) => if name@ == "node"@ {
                r matches Ok(views) && views@.len() == 1 && views@[0].entity@ == "node"@
                    && strings_utf8(views@[0].fields@) == sort_unique(
                    strings_utf8(schema.node_fields@),
                )
            } else if name@ == "edge"@ {
                r matches Ok(views) && views@.len() == 1 && views@[0].entity@ == "edge"@
                    && strings_utf8(views@[0].fields@) == sort_unique(
                    strings_utf8(schema.edge_fields@),
                )
            } else {
                r matches Err(e) && e is BadRequest
            },
            None => r matches Ok(views) && views@.len() == 2 && views@[0].entity@ == "node"@
                && strings_utf8(views@[0].fields@) == sort_unique(
                strings_utf8(schema.node_fields@),
            ) && views@[1].entity@ == "edge"@ && strings_utf8(views@[1].fields@) == sort_unique(
                strings_utf8(schema.edge_fields@),
            ),
        },
{
    let (want_node, want_edge) = match entity {
        Some(name) => {
            let node = str_eq(name, "node");
            let edge = str_eq(name, "edge");
            if !node && !edge {
                return Err(ServiceError::BadRequest("entity must be node or edge".to_owned()));
            }
            proof {
                if node && edge {
                    reveal_strlit("node");
                    reveal_strlit("edge");
                    assert("node"@[0] != "edge"@[0]);
                }
            }
            (node, edge)
        },
        None => (true, true),
    };
    let mut views: Vec<SchemaView> = Vec::new();
    if want_node {
        let fields = crate::text::sorted_unique(copy_strings(&schema.node_fields));
        views.push(SchemaView { entity: "node".to_owned(), fields });
    }
    if want_edge {
        let fields = crate::text::sorted_unique(copy_strings(&schema.edge_fields));
        views.push(SchemaView { entity: "edge".to_owned(), fields });
    }
    Ok(views)
}

/// Whether a reader gets the stored properties: as the request says, and
/// where it says nothing, yes.
pub open spec fn wants_hydration(hydrate: Option<bool>) -> bool {
    match hydrate {
        Some(choice) => choice,
        None => true,
    }
}

/// Whether a reader gets the stored properties: as the request says, and
/// where it says nothing, yes.
pub fn hydration(hydrate: Option<bool>) -> (choice: bool)
    ensures
        choice == wants_hydration(hydrate),
{
    match hydrate {
        Some(choice) => choice,
        None => true,
    }
}

/// Reads one node with its edges. A node that has no row or is not active
/// is not found.
pub fn get_node(db: &redb::Database, schema: &SchemaCache, id: &str, hydrate: Option<bool>) -> (r: Result<
    NodeView,
    ServiceError,
>)
    ensures
        r matches Err(e) ==> !(e is BadRequest),
        r matches Ok(view) ==> utf8(view.id@) == utf8(id@) && exists|tables: Tables|
            Some(view.model()) == #[trigger] fetched_node(
                tables,
                utf8(id@),
                *schema,
                wants_hydration(hydrate),
            ),
{
    found_node(get_node_from_db(db, id, schema, hydration(hydrate)))
}

/// Lists the active nodes, all of them or those of one type.
pub fn list_nodes(
    db: &redb::Database,
    schema: &SchemaCache,
    kind: Option<&str>,
    hydrate: Option<bool>,
) -> (r: Result<Vec<NodeView>, ServiceError>)
    ensures
        r matches Err(e) ==> e is Storage,
        r matches Ok(views) ==> exists|index: Map<Seq<u8>, Seq<u8>>, tables: Tables|
            node_view_models(views@) == #[trigger] node_listing(
                index,
                tables,
                opt_str(kind),
                *schema,
                wants_hydration(hydrate),
            ),
{
    outcome(list_nodes_from_db(db, kind, schema, hydration(hydrate)))
}

/// Lists the active edges, filtered by type, source and target.
pub fn list_edges(
    db: &redb::Database,
    schema: &SchemaCache,
    kind: Option<&str>,
    from: Option<&str>,
    to: Option<&str>,
    hydrate: Option<bool>,
) -> (r: Result<Vec<EdgeListView>, ServiceError>)
    ensures
        r matches Err(e) ==> e is Storage,
        r matches Ok(views) ==> exists|
            index: Map<Seq<u8>, Seq<u8>>,
            edges: Map<Seq<u8>, Seq<u8>>,
            edge_data: Map<Seq<u8>, Seq<u8>>,
        |
            edge_list_models(views@) == #[trigger] edge_listing(
                index,
                edges,
                edge_data,
                opt_str(kind),
                opt_str(from),
                opt_str(to),
                *schema,
                wants_hydration(hydrate),
            ),
{
    outcome(list_edges_from_db(db, kind, from, to, schema, hydration(hydrate)))
}

/// Whether a request may be served: it carries the key of the service.
pub fn is_authorized(provided: Option<&str>, api_key: &str) -> (allowed: bool)
    ensures
        allowed == match provided {
            Some(key) => key@ == api_key@,
            None => false,
        },
{
    match provided {
        Some(key) => str_eq(key, api_key),
        None => false,
    }
}

/// Whether the cache has a path from one node to another.
pub fn check_path(graph: &Graph, from: &str, to: &str) -> (exists: bool)
    ensures
        exists == reachable(graph@, utf8(from@), utf8(to@)),
{
    graph.exist_path(from, to)
}

} // verus!
