use vstd::prelude::*;
use crate::text::{utf8, strings_utf8};
use crate::keys::{join2, prefix2};
use crate::props::PropertyMap;
use crate::graph::Graph;
use crate::schema::SchemaCache;
use crate::store::{snapshot_rows, prefix_rows, begin_read, begin_write, open_snapshot, open_table, commit, lemma_tables_are_named, NODES_TABLE, EDGES_TABLE, NODE_DATA_TABLE, EDGE_DATA_TABLE, NODE_INDEX_TABLE, EDGE_INDEX_TABLE, GEO_INDEX_TABLE, SCHEMA_TABLE};
use crate::index::{put_whitelist, upsert_node_property, upsert_node_properties};
use crate::reads::{ids_of_rows, edges_of_rows, string_pairs, keyed_properties, active_properties, node_ids_by_index, node_ids_by_geo_prefix, edge_ids_by_index, node_data_for_ids};
use crate::views::{NodeView, EdgeListView, Tables, tables_of, opt_str, node_view_models, edge_list_models, fetched_node, node_listing, geo_listing, edge_listing, get_node_in, list_nodes_in, list_nodes_by_geo_prefix_in, list_edges_in};
use crate::loader::{load_graph_in, load_schema_in, respects_whitelist, is_load_of, stored_whitelist};
use crate::persist::{write_node, write_edge, write_edge_property, write_edge_properties, delete_node_rows, delete_edge_rows, backfill_status, rebuild_node_index, rebuild_edge_index};

verus! {

/// Makes the eight tables, where they are not there, in one transaction.
pub(crate) fn init_db(db: &redb::Database) -> Result<(), redb::Error> {
    proof {
        lemma_tables_are_named();
    }
    let txn = begin_write(db)?;
    {
        open_table(&txn, NODES_TABLE)?;
        open_table(&txn, NODE_DATA_TABLE)?;
        open_table(&txn, EDGES_TABLE)?;
        open_table(&txn, EDGE_DATA_TABLE)?;
        open_table(&txn, NODE_INDEX_TABLE)?;
        open_table(&txn, EDGE_INDEX_TABLE)?;
        open_table(&txn, GEO_INDEX_TABLE)?;
        open_table(&txn, SCHEMA_TABLE)?;
    }
    commit(txn)
}

/// Stores the whitelist of a kind of entity, in one transaction.
pub(crate) fn save_schema(db: &redb::Database, entity: &str, fields: &[String]) -> Result<(), redb::Error> {
    proof {
        lemma_tables_are_named();
    }
    let txn = begin_write(db)?;
    {
        let mut table = open_table(&txn, SCHEMA_TABLE)?;
        put_whitelist(&mut table, entity, fields)?;
    }
    commit(txn)
}

/// Reads the whitelists from one snapshot of the store: they are what some
/// state of the schema table holds.
pub fn load_schema(db: &redb::Database) -> (r: Result<SchemaCache, redb::Error>)
    ensures
        r matches Ok(schema) ==> exists|rows: Map<Seq<u8>, Seq<u8>>|
            {
                &&& strings_utf8(schema.node_fields@) == #[trigger] stored_whitelist(
                    rows,
                    utf8("node"@),
                )
                &&& strings_utf8(schema.edge_fields@) == stored_whitelist(rows, utf8("edge"@))
                &&& schema.node_defined == (schema.node_fields@.len() > 0)
                &&& schema.edge_defined == (schema.edge_fields@.len() > 0)
            },
{
    proof {
        lemma_tables_are_named();
    }
    let txn = begin_read(db)?;
    let table = open_snapshot(&txn, SCHEMA_TABLE)?;
    let schema = load_schema_in(&table)?;
    proof {
        assert(strings_utf8(schema.node_fields@) == stored_whitelist(
            snapshot_rows(&table),
            utf8("node"@),
        ));
    }
    Ok(schema)
}

/// Builds the cache from one snapshot of the store: the cache is what some
/// state of the four tables gives, and holds exactly the nodes and edges
/// that the indexes of that state name as active. Whatever the store holds,
/// the cache respects the whitelists.
pub fn load_graph(db: &redb::Database, schema: &SchemaCache) -> (r: Result<Graph, redb::Error>)
    ensures
        r matches Ok(graph) ==> respects_whitelist(graph@, *schema) && exists|
            node_index: Map<Seq<u8>, Seq<u8>>,
            edge_index: Map<Seq<u8>, Seq<u8>>,
            node_data: Map<Seq<u8>, Seq<u8>>,
            edge_data: Map<Seq<u8>, Seq<u8>>,
        | #[trigger]
            is_load_of(graph@, node_index, edge_index, node_data, edge_data, *schema),
{
    proof {
        lemma_tables_are_named();
    }
    let txn = begin_read(db)?;
    let node_index = open_snapshot(&txn, NODE_INDEX_TABLE)?;
    let edge_index = open_snapshot(&txn, EDGE_INDEX_TABLE)?;
    let node_data = open_snapshot(&txn, NODE_DATA_TABLE)?;
    let edge_data = open_snapshot(&txn, EDGE_DATA_TABLE)?;
    let graph = load_graph_in(&node_index, &edge_index, &node_data, &edge_data, schema)?;
    proof {
        assert(is_load_of(
            graph@,
            snapshot_rows(&node_index),
            snapshot_rows(&edge_index),
            snapshot_rows(&node_data),
            snapshot_rows(&edge_data),
            *schema,
        ));
    }
    Ok(graph)
}

/// Writes a node with its properties, in one transaction.
pub(crate) fn insert_node(db: &redb::Database, node_id: &str, payload: &PropertyMap) -> Result<
    (),
    redb::Error,
> {
    proof {
        lemma_tables_are_named();
    }
    let txn = begin_write(db)?;
    {
        let mut nodes = open_table(&txn, NODES_TABLE)?;
        let mut data = open_table(&txn, NODE_DATA_TABLE)?;
        let mut index = open_table(&txn, NODE_INDEX_TABLE)?;
        let mut geo = open_table(&txn, GEO_INDEX_TABLE)?;
        write_node(&mut nodes, &mut data, &mut index, &mut geo, node_id, payload)?;
    }
    commit(txn)
}

/// Writes an edge with its properties and, where it is a block edge
/// between two different nodes, the edge in the other direction, in one
/// transaction.
pub(crate) fn insert_edge(db: &redb::Database, from: &str, to: &str, payload: &PropertyMap) -> Result<
    (),
    redb::Error,
> {
    proof {
        lemma_tables_are_named();
    }
    let txn = begin_write(db)?;
    {
        let mut edges = open_table(&txn, EDGES_TABLE)?;
        let mut data = open_table(&txn, EDGE_DATA_TABLE)?;
        let mut index = open_table(&txn, EDGE_INDEX_TABLE)?;
        write_edge(&mut edges, &mut data, &mut index, from, to, payload)?;
    }
    commit(txn)
}

/// Sets a property of a node and keeps both indexes in step, in one
/// transaction.
pub(crate) fn insert_node_data(db: &redb::Database, node_id: &str, key: &str, value: &str) -> Result<
    (),
    redb::Error,
> {
    proof {
        lemma_tables_are_named();
    }
    let txn = begin_write(db)?;
    {
        let mut data = open_table(&txn, NODE_DATA_TABLE)?;
        let mut index = open_table(&txn, NODE_INDEX_TABLE)?;
        let mut geo = open_table(&txn, GEO_INDEX_TABLE)?;
        upsert_node_property(&mut data, &mut index, &mut geo, node_id, key, value)?;
    }
    commit(txn)
}

/// Sets each of the properties on a node and keeps both indexes in step, in
/// one transaction.
pub(crate) fn insert_node_data_bulk(db: &redb::Database, node_id: &str, data: &PropertyMap) -> Result<
    (),
    redb::Error,
> {
    proof {
        lemma_tables_are_named();
    }
    let txn = begin_write(db)?;
    {
        let mut table = open_table(&txn, NODE_DATA_TABLE)?;
        let mut index = open_table(&txn, NODE_INDEX_TABLE)?;
        let mut geo = open_table(&txn, GEO_INDEX_TABLE)?;
        upsert_node_properties(&mut table, &mut index, &mut geo, node_id, data)?;
    }
    commit(txn)
}

/// Sets a property of an edge, keeps the index in step and, where the
/// property makes it a block edge, writes its mirror, in one transaction.
pub(crate) fn insert_edge_data(db: &redb::Database, from: &str, to: &str, key: &str, value: &str) -> Result<
    (),
    redb::Error,
> {
    proof {
        lemma_tables_are_named();
    }
    let txn = begin_write(db)?;
    {
        let mut edges = open_table(&txn, EDGES_TABLE)?;
        let mut data = open_table(&txn, EDGE_DATA_TABLE)?;
        let mut index = open_table(&txn, EDGE_INDEX_TABLE)?;
        write_edge_property(&mut edges, &mut data, &mut index, from, to, key, value)?;
    }
    commit(txn)
}

/// Sets each of the properties on an edge, keeps the index in step and,
/// where they make it a block edge, writes its mirror, in one transaction.
pub(crate) fn insert_edge_data_bulk(db: &redb::Database, from: &str, to: &str, data: &PropertyMap) -> Result<
    (),
    redb::Error,
> {
    proof {
        lemma_tables_are_named();
    }
    let txn = begin_write(db)?;
    {
        let mut edges = open_table(&txn, EDGES_TABLE)?;
        let mut table = open_table(&txn, EDGE_DATA_TABLE)?;
        let mut index = open_table(&txn, EDGE_INDEX_TABLE)?;
        write_edge_properties(&mut edges, &mut table, &mut index, from, to, data)?;
    }
    commit(txn)
}

/// Marks a node and every edge at it as deleted, in one transaction. The
/// rows are read in a snapshot that is taken once the transaction has
/// begun, so that no other write comes between. Returns whether the node
/// has a row; without one nothing is written.
pub(crate) fn soft_delete_node(db: &redb::Database, node_id: &str) -> Result<bool, redb::Error> {
    proof {
        lemma_tables_are_named();
    }
    let txn = begin_write(db)?;
    let seen = begin_read(db)?;
    let nodes = open_snapshot(&seen, NODES_TABLE)?;
    let edges = open_snapshot(&seen, EDGES_TABLE)?;
    let found = {
        let mut node_data = open_table(&txn, NODE_DATA_TABLE)?;
        let mut node_index = open_table(&txn, NODE_INDEX_TABLE)?;
        let mut geo = open_table(&txn, GEO_INDEX_TABLE)?;
        let mut edge_data = open_table(&txn, EDGE_DATA_TABLE)?;
        let mut edge_index = open_table(&txn, EDGE_INDEX_TABLE)?;
        delete_node_rows(
            &nodes,
            &edges,
            &mut node_data,
            &mut node_index,
            &mut geo,
            &mut edge_data,
            &mut edge_index,
            node_id,
        )?
    };
    if !found {
        return Ok(false);
    }
    commit(txn)?;
    Ok(true)
}

/// Marks an edge as deleted and, where its stored type is `block` or
/// `always_both` holds, the edge in the other direction too, in one
/// transaction. Returns nothing where the edge has no row; then nothing
/// is written. Else it returns whether both directions were marked.
pub(crate) fn soft_delete_edge(db: &redb::Database, from: &str, to: &str, always_both: bool) -> Result<
    Option<bool>,
    redb::Error,
> {
    proof {
        lemma_tables_are_named();
    }
    let txn = begin_write(db)?;
    let done = {
        let edges = open_table(&txn, EDGES_TABLE)?;
        let mut data = open_table(&txn, EDGE_DATA_TABLE)?;
        let mut index = open_table(&txn, EDGE_INDEX_TABLE)?;
        delete_edge_rows(&edges, &mut data, &mut index, from, to, always_both)?
    };
    if done.is_none() {
        return Ok(None);
    }
    commit(txn)?;
    Ok(done)
}

/// The ids of the nodes that the node index names under a property, as one
/// snapshot of the store shows them.
pub fn list_node_ids_by_index(db: &redb::Database, key: &str, value: &str) -> (r: Result<
    Vec<String>,
    redb::Error,
>)
    ensures
        r matches Ok(ids) ==> exists|index: Map<Seq<u8>, Seq<u8>>|
            strings_utf8(ids@) == ids_of_rows(
                #[trigger] prefix_rows(index, prefix2(utf8(key@), utf8(value@))),
            ),
{
    proof {
        lemma_tables_are_named();
    }
    let txn = begin_read(db)?;
    let index = open_snapshot(&txn, NODE_INDEX_TABLE)?;
    let ids = node_ids_by_index(&index, key, value)?;
    proof {
        assert(strings_utf8(ids@) == ids_of_rows(
            prefix_rows(snapshot_rows(&index), prefix2(utf8(key@), utf8(value@))),
        ));
    }
    Ok(ids)
}

/// The ids of the nodes that the geo index names under values of a
/// property that start with a prefix, as one snapshot of the store shows
/// them.
pub fn list_node_ids_by_geo_prefix(db: &redb::Database, key: &str, prefix_value: &str) -> (r: Result<
    Vec<String>,
    redb::Error,
>)
    ensures
        r matches Ok(ids) ==> exists|index: Map<Seq<u8>, Seq<u8>>|
            strings_utf8(ids@) == ids_of_rows(
                #[trigger] prefix_rows(index, join2(utf8(key@), utf8(prefix_value@))),
            ),
{
    proof {
        lemma_tables_are_named();
    }
    let txn = begin_read(db)?;
    let index = open_snapshot(&txn, GEO_INDEX_TABLE)?;
    let ids = node_ids_by_geo_prefix(&index, key, prefix_value)?;
    proof {
        assert(strings_utf8(ids@) == ids_of_rows(
            prefix_rows(snapshot_rows(&index), join2(utf8(key@), utf8(prefix_value@))),
        ));
    }
    Ok(ids)
}

/// The edges that the edge index names under a property, as one snapshot
/// of the store shows them.
pub fn list_edge_ids_by_index(db: &redb::Database, key: &str, value: &str) -> (r: Result<
    Vec<(String, String)>,
    redb::Error,
>)
    ensures
        r matches Ok(edges) ==> exists|index: Map<Seq<u8>, Seq<u8>>|
            string_pairs(edges@) == edges_of_rows(
                #[trigger] prefix_rows(index, prefix2(utf8(key@), utf8(value@))),
            ),
{
    proof {
        lemma_tables_are_named();
    }
    let txn = begin_read(db)?;
    let index = open_snapshot(&txn, EDGE_INDEX_TABLE)?;
    let edges = edge_ids_by_index(&index, key, value)?;
    proof {
        assert(string_pairs(edges@) == edges_of_rows(
            prefix_rows(snapshot_rows(&index), prefix2(utf8(key@), utf8(value@))),
        ));
    }
    Ok(edges)
}

/// The stored properties of the active nodes among `node_ids`, as one
/// snapshot of the store shows them.
pub fn load_node_data_for_ids(db: &redb::Database, node_ids: &Vec<String>) -> (r: Result<
    Vec<(String, PropertyMap)>,
    redb::Error,
>)
    ensures
        r matches Ok(found) ==> exists|table: Map<Seq<u8>, Seq<u8>>|
            keyed_properties(found@) == #[trigger] active_properties(table, strings_utf8(node_ids@)),
{
    proof {
        lemma_tables_are_named();
    }
    let txn = begin_read(db)?;
    let node_data = open_snapshot(&txn, NODE_DATA_TABLE)?;
    let found = node_data_for_ids(&node_data, node_ids)?;
    proof {
        assert(keyed_properties(found@) == active_properties(
            snapshot_rows(&node_data),
            strings_utf8(node_ids@),
        ));
    }
    Ok(found)
}

/// Reads one node with its edges from one snapshot of the store: the node
/// is what some state of the four tables gives.
pub fn get_node_from_db(db: &redb::Database, node_id: &str, schema: &SchemaCache, hydrate: bool) -> (r: Result<
    Option<NodeView>,
    redb::Error,
>)
    ensures
        r matches Ok(found) ==> exists|tables: Tables|
            match found {
                Some(view) => Some(view.model()),
                None => None,
            } == #[trigger] fetched_node(tables, utf8(node_id@), *schema, hydrate),
{
    proof {
        lemma_tables_are_named();
    }
    let txn = begin_read(db)?;
    let nodes = open_snapshot(&txn, NODES_TABLE)?;
    let node_data = open_snapshot(&txn, NODE_DATA_TABLE)?;
    let edges = open_snapshot(&txn, EDGES_TABLE)?;
    let edge_data = open_snapshot(&txn, EDGE_DATA_TABLE)?;
    let found = get_node_in(&nodes, &node_data, &edges, &edge_data, node_id, schema, hydrate)?;
    proof {
        assert(match found {
            Some(view) => Some(view.model()),
            None => None,
        } == fetched_node(
            tables_of(&nodes, &node_data, &edges, &edge_data),
            utf8(node_id@),
            *schema,
            hydrate,
        ));
    }
    Ok(found)
}

/// Lists the active nodes, all of them or those of one type, from one
/// snapshot of the store: the listing is what some state of the tables
/// gives.
pub fn list_nodes_from_db(
    db: &redb::Database,
    node_type: Option<&str>,
    schema: &SchemaCache,
    hydrate: bool,
) -> (r: Result<Vec<NodeView>, redb::Error>)
    ensures
        r matches Ok(views) ==> exists|index: Map<Seq<u8>, Seq<u8>>, tables: Tables|
            node_view_models(views@) == #[trigger] node_listing(
                index,
                tables,
                opt_str(node_type),
                *schema,
                hydrate,
            ),
{
    proof {
        lemma_tables_are_named();
    }
    let txn = begin_read(db)?;
    let node_index = open_snapshot(&txn, NODE_INDEX_TABLE)?;
    let nodes = open_snapshot(&txn, NODES_TABLE)?;
    let node_data = open_snapshot(&txn, NODE_DATA_TABLE)?;
    let edges = open_snapshot(&txn, EDGES_TABLE)?;
    let edge_data = open_snapshot(&txn, EDGE_DATA_TABLE)?;
    let views = list_nodes_in(
        &node_index,
        &nodes,
        &node_data,
        &edges,
        &edge_data,
        node_type,
        schema,
        hydrate,
    )?;
    proof {
        assert(node_view_models(views@) == node_listing(
            snapshot_rows(&node_index),
            tables_of(&nodes, &node_data, &edges, &edge_data),
            opt_str(node_type),
            *schema,
            hydrate,
        ));
    }
    Ok(views)
}

/// Lists the active nodes of a type whose value under `geo_key` starts with
/// `geo_prefix`, in ascending order of their ids, from one snapshot of the
/// store.
pub fn list_nodes_by_geo_prefix(
    db: &redb::Database,
    node_type: &str,
    geo_key: &str,
    geo_prefix: &str,
    limit: Option<usize>,
    schema: &SchemaCache,
    hydrate: bool,
) -> (r: Result<Vec<NodeView>, redb::Error>)
    ensures
        r matches Ok(views) ==> exists|
            geo: Map<Seq<u8>, Seq<u8>>,
            index: Map<Seq<u8>, Seq<u8>>,
            tables: Tables,
        |
            node_view_models(views@) == #[trigger] geo_listing(
                geo,
                index,
                tables,
                utf8(node_type@),
                utf8(geo_key@),
                utf8(geo_prefix@),
                limit,
                *schema,
                hydrate,
            ),
{
    proof {
        lemma_tables_are_named();
    }
    let txn = begin_read(db)?;
    let geo_index = open_snapshot(&txn, GEO_INDEX_TABLE)?;
    let node_index = open_snapshot(&txn, NODE_INDEX_TABLE)?;
    let nodes = open_snapshot(&txn, NODES_TABLE)?;
    let node_data = open_snapshot(&txn, NODE_DATA_TABLE)?;
    let edges = open_snapshot(&txn, EDGES_TABLE)?;
    let edge_data = open_snapshot(&txn, EDGE_DATA_TABLE)?;
    let views = list_nodes_by_geo_prefix_in(
        &geo_index,
        &node_index,
        &nodes,
        &node_data,
        &edges,
        &edge_data,
        node_type,
        geo_key,
        geo_prefix,
        limit,
        schema,
        hydrate,
    )?;
    proof {
        assert(node_view_models(views@) == geo_listing(
            snapshot_rows(&geo_index),
            snapshot_rows(&node_index),
            tables_of(&nodes, &node_data, &edges, &edge_data),
            utf8(node_type@),
            utf8(geo_key@),
            utf8(geo_prefix@),
            limit,
            *schema,
            hydrate,
        ));
    }
    Ok(views)
}

/// Lists the active edges, filtered by type, source and target, from one
/// snapshot of the store.
pub fn list_edges_from_db(
    db: &redb::Database,
    edge_type: Option<&str>,
    from_filter: Option<&str>,
    to_filter: Option<&str>,
    schema: &SchemaCache,
    hydrate: bool,
) -> (r: Result<Vec<EdgeListView>, redb::Error>)
    ensures
        r matches Ok(views) ==> exists|
            index: Map<Seq<u8>, Seq<u8>>,
            edges: Map<Seq<u8>, Seq<u8>>,
            edge_data: Map<Seq<u8>, Seq<u8>>,
        |
            edge_list_models(views@) == #[trigger] edge_listing(
                index,
                edges,
                edge_data,
                opt_str(edge_type),
                opt_str(from_filter),
                opt_str(to_filter),
                *schema,
                hydrate,
            ),
{
    proof {
        lemma_tables_are_named();
    }
    let txn = begin_read(db)?;
    let edge_index = open_snapshot(&txn, EDGE_INDEX_TABLE)?;
    let edges = open_snapshot(&txn, EDGES_TABLE)?;
    let edge_data = open_snapshot(&txn, EDGE_DATA_TABLE)?;
    let views = list_edges_in(
        &edge_index,
        &edges,
        &edge_data,
        edge_type,
        from_filter,
        to_filter,
        schema,
        hydrate,
    )?;
    proof {
        assert(edge_list_models(views@) == edge_listing(
            snapshot_rows(&edge_index),
            snapshot_rows(&edges),
            snapshot_rows(&edge_data),
            opt_str(edge_type),
            opt_str(from_filter),
            opt_str(to_filter),
            *schema,
            hydrate,
        ));
    }
    Ok(views)
}

/// Fills an index over the node properties, where it holds nothing, from
/// the property rows, in one transaction.
fn rebuild_one_node_index(db: &redb::Database, name: &'static str) -> Result<(), redb::Error>
    requires
        name@.len() > 0,
{
    proof {
        lemma_tables_are_named();
    }
    let txn = begin_write(db)?;
    let seen = begin_read(db)?;
    let held = open_snapshot(&seen, name)?;
    let node_data = open_snapshot(&seen, NODE_DATA_TABLE)?;
    let filled = {
        let mut index = open_table(&txn, name)?;
        rebuild_node_index(&held, &node_data, &mut index)?
    };
    if !filled {
        return Ok(());
    }
    commit(txn)
}

/// Fills each index that holds nothing from the property rows. An index
/// that holds anything is left as it is. Each index is filled in a
/// transaction of its own.
pub(crate) fn rebuild_indexes_if_empty(db: &redb::Database) -> Result<(), redb::Error> {
    proof {
        lemma_tables_are_named();
    }
    rebuild_one_node_index(db, NODE_INDEX_TABLE)?;
    {
        let txn = begin_write(db)?;
        let seen = begin_read(db)?;
        let held = open_snapshot(&seen, EDGE_INDEX_TABLE)?;
        let edge_data = open_snapshot(&seen, EDGE_DATA_TABLE)?;
        let filled = {
            let mut index = open_table(&txn, EDGE_INDEX_TABLE)?;
            rebuild_edge_index(&held, &edge_data, &mut index)?
        };
        if filled {
            commit(txn)?;
        }
    }
    rebuild_one_node_index(db, GEO_INDEX_TABLE)
}

/// Gives every node and every edge without a status the status `active`,
/// with the index entries that belong to it, in one transaction.
pub(crate) fn ensure_status_defaults(db: &redb::Database) -> Result<(), redb::Error> {
    proof {
        lemma_tables_are_named();
    }
    let txn = begin_write(db)?;
    let seen = begin_read(db)?;
    let nodes = open_snapshot(&seen, NODES_TABLE)?;
    let node_data_seen = open_snapshot(&seen, NODE_DATA_TABLE)?;
    let edges = open_snapshot(&seen, EDGES_TABLE)?;
    let edge_data_seen = open_snapshot(&seen, EDGE_DATA_TABLE)?;
    let any = {
        let mut node_data = open_table(&txn, NODE_DATA_TABLE)?;
        let mut node_index = open_table(&txn, NODE_INDEX_TABLE)?;
        let mut geo = open_table(&txn, GEO_INDEX_TABLE)?;
        let mut edge_data = open_table(&txn, EDGE_DATA_TABLE)?;
        let mut edge_index = open_table(&txn, EDGE_INDEX_TABLE)?;
        backfill_status(
            &nodes,
            &node_data_seen,
            &edges,
            &edge_data_seen,
            &mut node_data,
            &mut node_index,
            &mut geo,
            &mut edge_data,
            &mut edge_index,
        )?
    };
    if !any {
        return Ok(());
    }
    commit(txn)
}

} // verus!
